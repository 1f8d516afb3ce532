//! A content-addressable asset registry with a verified decision core.
//!
//! The crate models the catalog of assets, the importer dispatch table,
//! the staleness-tracking store/fetch protocol, the manifest codec, the
//! asset-field resolver and the decode-to-build process queue. All logic
//! that decides or computes is verified; the surrounding process (file
//! reads and writes, directory scans, clocks) supplies plain values and
//! performs the actions that the library plans.

pub mod asset;
pub mod field;
pub mod ids;
pub mod manifest;
pub mod paths;
pub mod process;
pub mod treasury;
pub mod views;
