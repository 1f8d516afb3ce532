//! The registry core: the catalog of assets, the importer dispatch table,
//! and the store/fetch/list/remove protocol.
//!
//! The functions here make every decision of the protocol; the surrounding
//! process performs the filesystem actions they plan (creating
//! directories, copying or importing files, renaming temporaries) and
//! reports the observed outcomes (probe results, modification times) back
//! as plain values.

use vstd::prelude::*;
use vstd::set_lib::set_int_range;
use vstd::set_lib::lemma_int_range;
use vstd::set_lib::lemma_len_subset;
use crate::asset::Asset;
use crate::asset::AssetV;
use crate::asset::asset_paths_wf;
use crate::asset::native_rel_of;
use crate::asset::native_rel_path;
use crate::asset::treasury_dir;
use crate::asset::treasury_dir_bytes;
use crate::ids::Mtime;
use crate::ids::mtime_lt;
use crate::ids::version_of;
use crate::ids::version_from_systime;
use crate::paths::AbsPath;
use crate::paths::RelPath;
use crate::paths::bytes_eq;
use crate::paths::jsonable;
use crate::paths::all_jsonable;
use crate::paths::jsonable_check;
use crate::paths::all_jsonable_check;
use crate::paths::clone_bytes;
use crate::paths::clone_components;
use crate::paths::join_norm;
use crate::paths::normalize;
use crate::paths::rel_spec;
use crate::paths::relative_to;
use crate::paths::wf_abs_seq;
use crate::paths::wf_rel_seq;
use crate::paths::wf_component;
use crate::paths::wf_rel_component;

verus! {

broadcast use crate::views::lemma_bytes_deep_view, crate::views::lemma_components_deep_view;

/// One importer registration: it converts one source format into one
/// native format and has a name for diagnostics.
pub struct ImporterEntry {
    pub source_format: Vec<u8>,
    pub native_format: Vec<u8>,
    pub name: Vec<u8>,
}

/// The mathematical view of an importer registration.
pub ghost struct ImporterEntryV {
    pub source_format: Seq<u8>,
    pub native_format: Seq<u8>,
    pub name: Seq<u8>,
}

impl View for ImporterEntry {
    type V = ImporterEntryV;

    open spec fn view(&self) -> ImporterEntryV {
        ImporterEntryV {
            source_format: self.source_format@,
            native_format: self.native_format@,
            name: self.name@,
        }
    }
}

impl DeepView for ImporterEntry {
    type V = ImporterEntryV;

    open spec fn deep_view(&self) -> ImporterEntryV {
        self@
    }
}

impl Clone for ImporterEntry {
    fn clone(&self) -> (r: Self)
        ensures
            r@ == self@,
    {
        ImporterEntry {
            source_format: clone_bytes(&self.source_format),
            native_format: clone_bytes(&self.native_format),
            name: clone_bytes(&self.name),
        }
    }
}

/// The manifest contents: the registered importer directories and the
/// catalog of assets, both in insertion order.
pub struct Data {
    pub importers_dirs: Vec<RelPath>,
    pub assets: Vec<Asset>,
}

/// The native bytes of a fetched asset together with its version token.
pub struct AssetData {
    pub bytes: Vec<u8>,
    pub version: u64,
}

/// Why a registry could not be created.
#[derive(Debug)]
pub enum NewError {
    GoodsAlreadyExist { path: AbsPath },
    InvalidGoodsPath { path: AbsPath },
    RootDirCreateError { path: AbsPath, message: Vec<u8> },
    GoodsDirCreateError { path: AbsPath, message: Vec<u8> },
    RootIsNotDir { path: AbsPath },
    SaveFailed { error: SaveError },
}

/// Why the manifest could not be written.
#[derive(Debug)]
pub enum SaveError {
    GoodsOpenError { path: AbsPath, message: Vec<u8> },
    JsonError { path: AbsPath, message: Vec<u8> },
}

/// Why a registry could not be opened.
#[derive(Debug)]
pub enum OpenError {
    InvalidGoodsPath { path: AbsPath },
    GoodsCreateError { path: AbsPath, message: Vec<u8> },
    GoodsOpenError { path: AbsPath, message: Vec<u8> },
    JsonError { path: AbsPath, message: Vec<u8> },
}

/// Why an asset could not be fetched.
#[derive(Debug)]
pub enum FetchError {
    NotFound,
    NativeIoError { path: AbsPath, message: Vec<u8> },
}

/// Why an asset could not be stored.
#[derive(Debug)]
pub enum StoreError {
    ImporterNotFound { source_format: Vec<u8>, native_format: Vec<u8> },
    ImportError { message: Vec<u8> },
    SourceIoError { path: AbsPath, message: Vec<u8> },
    NativeIoError { path: AbsPath, message: Vec<u8> },
}

/// The record's text fields can stand raw in the manifest's canonical
/// form: source components, both formats and every tag are free of
/// quotes, backslashes and control bytes.
pub open spec fn asset_texts_ok(a: AssetV) -> bool {
    &&& all_jsonable(a.source)
    &&& jsonable(a.source_format)
    &&& jsonable(a.native_format)
    &&& all_jsonable(a.tags)
}

/// Decide whether a record's text fields can stand in the manifest.
pub fn asset_texts_check(a: &Asset) -> (r: bool)
    ensures
        r == asset_texts_ok(a@),
{
    all_jsonable_check(&a.source.components) && jsonable_check(&a.source_format)
        && jsonable_check(&a.native_format) && all_jsonable_check(&a.tags)
}

/// No two records share an identifier.
pub open spec fn uuids_unique(s: Seq<AssetV>) -> bool {
    forall|i: int, j: int| 0 <= i < j < s.len() ==> s[i].uuid != s[j].uuid
}

/// Some record carries this identifier.
pub open spec fn has_uuid(s: Seq<AssetV>, u: u128) -> bool {
    exists|i: int| 0 <= i < s.len() && s[i].uuid == u
}

/// The record matches the catalog key: relative source path and both
/// formats.
pub open spec fn triple_matches(a: AssetV, src: Seq<Seq<u8>>, sf: Seq<u8>, nf: Seq<u8>) -> bool {
    a.source == src && a.source_format == sf && a.native_format == nf
}

/// The entry converts this format pair.
pub open spec fn pair_matches(e: ImporterEntryV, sf: Seq<u8>, nf: Seq<u8>) -> bool {
    e.source_format == sf && e.native_format == nf
}

/// Some entry converts this format pair.
pub open spec fn has_pair(s: Seq<ImporterEntryV>, sf: Seq<u8>, nf: Seq<u8>) -> bool {
    exists|i: int| 0 <= i < s.len() && pair_matches(s[i], sf, nf)
}

/// Register entries left to right; the first entry for a format pair wins
/// and later ones are dropped.
pub open spec fn merge_importers(cur: Seq<ImporterEntryV>, new: Seq<ImporterEntryV>) -> Seq<
    ImporterEntryV,
>
    decreases new.len(),
{
    if new.len() == 0 {
        cur
    } else {
        let cur1 = if has_pair(cur, new[0].source_format, new[0].native_format) {
            cur
        } else {
            cur.push(new[0])
        };
        merge_importers(cur1, new.skip(1))
    }
}

/// The process-wide registry: root directory, catalog, importer
/// directories and importer dispatch table.
pub struct Treasury {
    pub root: AbsPath,
    pub assets: Vec<Asset>,
    pub importers_dirs: Vec<RelPath>,
    pub importers: Vec<ImporterEntry>,
}

impl Treasury {
    /// The catalog, as a sequence of record views.
    pub open spec fn assets_v(&self) -> Seq<AssetV> {
        self.assets.deep_view()
    }

    /// The importer directories, as component sequences.
    pub open spec fn dirs_v(&self) -> Seq<Seq<Seq<u8>>> {
        self.importers_dirs.deep_view()
    }

    /// The dispatch table, as entry views.
    pub open spec fn importers_v(&self) -> Seq<ImporterEntryV> {
        self.importers.deep_view()
    }

    /// The registry invariant: a well-formed root, well-formed paths in
    /// every record and directory entry, and pairwise distinct
    /// identifiers.
    pub open spec fn wf(&self) -> bool {
        &&& self.root.wf()
        &&& uuids_unique(self.assets_v())
        &&& forall|i: int|
            0 <= i < self.assets_v().len() ==> asset_paths_wf(#[trigger] self.assets_v()[i])
        &&& forall|i: int|
            0 <= i < self.assets_v().len() ==> asset_texts_ok(#[trigger] self.assets_v()[i])
        &&& forall|i: int| 0 <= i < self.dirs_v().len() ==> wf_rel_seq(#[trigger] self.dirs_v()[i])
        &&& forall|i: int| 0 <= i < self.dirs_v().len() ==> all_jsonable(#[trigger] self.dirs_v()[i])
    }
}

/// Decide whether some record carries the identifier.
pub fn contains_uuid(assets: &Vec<Asset>, u: u128) -> (r: bool)
    ensures
        r == has_uuid(assets.deep_view(), u),
{
    let mut i: usize = 0;
    while i < assets.len()
        invariant
            i <= assets.len(),
            forall|j: int| 0 <= j < i ==> assets.deep_view()[j].uuid != u,
        decreases assets.len() - i,
    {
        if assets[i].uuid == u {
            proof {
                assert(assets.deep_view()[i as int].uuid == u);
            }
            return true;
        }
        i = i + 1;
    }
    false
}

/// Below this bound some identifier is unused: there are more candidate
/// values than records.
pub proof fn lemma_fresh_uuid_exists(s: Seq<AssetV>)
    requires
        s.len() < 0x1_0000_0000_0000_0000_0000_0000_0000_0000,
    ensures
        exists|c: u128| c <= s.len() && !has_uuid(s, c),
{
    if !(exists|c: u128| c <= s.len() && !has_uuid(s, c)) {
        let ids = s.map_values(|a: AssetV| a.uuid as int);
        ids.lemma_cardinality_of_set();
        assert forall|x: int| 0 <= x < s.len() + 1 implies ids.to_set().contains(x) by {
            let c = x as u128;
            assert(c <= s.len());
            assert(has_uuid(s, c));
            let i = choose|i: int| 0 <= i < s.len() && s[i].uuid == c;
            assert(ids[i] == x);
            assert(ids.contains(x));
        }
        lemma_int_range(0, s.len() as int + 1);
        assert(set_int_range(0, s.len() as int + 1).subset_of(ids.to_set()));
        lemma_len_subset(set_int_range(0, s.len() as int + 1), ids.to_set());
        assert(false);
    }
}

/// Draw an identifier that no record carries: a few random draws first,
/// then, should every draw collide, the smallest unused value.
pub fn pick_fresh_uuid(assets: &Vec<Asset>) -> (r: u128)
    ensures
        !has_uuid(assets.deep_view(), r),
{
    let mut tries: usize = 0;
    while tries < 16
        invariant
            tries <= 16,
        decreases 16 - tries,
    {
        let c = crate::ids::new_v4_bits();
        if !contains_uuid(assets, c) {
            return c;
        }
        tries = tries + 1;
    }
    let n = assets.len();
    let mut c: u128 = 0;
    while c <= n as u128
        invariant
            c <= n as u128 + 1,
            n == assets.len(),
            forall|x: u128| x < c ==> has_uuid(assets.deep_view(), x),
        decreases (n as u128 + 1) - c,
    {
        if !contains_uuid(assets, c) {
            return c;
        }
        c = c + 1;
    }
    proof {
        lemma_fresh_uuid_exists(assets.deep_view());
        let c0 = choose|c0: u128| c0 <= assets.deep_view().len() && !has_uuid(
            assets.deep_view(),
            c0,
        );
        assert(c0 < c);
        assert(false);
    }
    0
}

/// What the filesystem shows about a chosen root directory.
#[derive(Clone, Copy, Debug, PartialEq, Eq, Structural)]
pub struct DirProbe {
    pub root_exists: bool,
    pub root_is_dir: bool,
    pub treasury_exists: bool,
    pub treasury_is_file: bool,
    pub manifest_exists: bool,
}

/// Which directories remain to be created for a new registry.
#[derive(Clone, Copy, Debug, PartialEq, Eq, Structural)]
pub struct NewPlan {
    pub create_root_dir: bool,
    pub create_goods_dir: bool,
}

/// The `.treasury` directory below a root.
pub open spec fn goods_path_of(root: Seq<Seq<u8>>) -> Seq<Seq<u8>> {
    root.push(treasury_dir())
}

/// Build the `.treasury` directory path below the root.
pub fn goods_path(root: &AbsPath) -> (r: AbsPath)
    requires
        root.wf(),
    ensures
        r@ == goods_path_of(root@),
        r.wf(),
{
    let mut components = clone_components(&root.components);
    components.push(treasury_dir_bytes());
    proof {
        assert(components.deep_view() =~= goods_path_of(root@));
        crate::asset::lemma_treasury_dir_wf();
    }
    AbsPath { components }
}

/// The manifest file name.
pub open spec fn manifest_name() -> Seq<u8> {
    seq![
        109u8,
        97u8,
        110u8,
        105u8,
        102u8,
        101u8,
        115u8,
        116u8,
        46u8,
        106u8,
        115u8,
        111u8,
        110u8,
    ]
}

/// The manifest path below a root: the manifest file in the engine's
/// private directory.
pub open spec fn manifest_path_of(root: Seq<Seq<u8>>) -> Seq<Seq<u8>> {
    goods_path_of(root).push(manifest_name())
}

/// Build the manifest path below the root.
pub fn manifest_path(root: &AbsPath) -> (r: AbsPath)
    requires
        root.wf(),
    ensures
        r@ == manifest_path_of(root@),
        r.wf(),
{
    let mut p = goods_path(root);
    let mut name: Vec<u8> = Vec::new();
    name.push(109u8);
    name.push(97u8);
    name.push(110u8);
    name.push(105u8);
    name.push(102u8);
    name.push(101u8);
    name.push(115u8);
    name.push(116u8);
    name.push(46u8);
    name.push(106u8);
    name.push(115u8);
    name.push(111u8);
    name.push(110u8);
    proof {
        assert(name@ =~= manifest_name());
        assert(manifest_name().len() == 13);
        assert(crate::paths::dot().len() == 1);
        assert(crate::paths::dotdot().len() == 2);
        assert(wf_component(manifest_name()));
    }
    p.components.push(name);
    proof {
        assert(p.components.deep_view() =~= manifest_path_of(root@));
    }
    p
}

impl Treasury {
    /// Decide whether a registry may be created at `root`, given what the
    /// filesystem shows there, and plan the directories still to create.
    /// Creation is refused exactly when the root exists and is no
    /// directory, when `.treasury` exists as a file, or when a manifest
    /// already exists and overwriting was not asked for.
    pub fn new(root: AbsPath, probe: &DirProbe, overwrite: bool) -> (r: Result<
        (Treasury, NewPlan),
        NewError,
    >)
        requires
            root.wf(),
        ensures
            !((probe.root_exists && !probe.root_is_dir) || (probe.treasury_exists
                && probe.treasury_is_file) || (probe.treasury_exists && !probe.treasury_is_file
                && probe.manifest_exists && !overwrite)) ==> r is Ok,
            match r {
                Result::Ok(pair) => {
                    &&& pair.0.root@ == root@
                    &&& pair.0.assets_v() == Seq::<AssetV>::empty()
                    &&& pair.0.dirs_v() == Seq::<Seq<Seq<u8>>>::empty()
                    &&& pair.0.importers_v() == Seq::<ImporterEntryV>::empty()
                    &&& pair.0.wf()
                    &&& pair.1.create_root_dir == !probe.root_exists
                    &&& pair.1.create_goods_dir == !probe.treasury_exists
                    &&& !(probe.root_exists && !probe.root_is_dir)
                    &&& !(probe.treasury_exists && probe.treasury_is_file)
                    &&& !(probe.treasury_exists && !probe.treasury_is_file
                        && probe.manifest_exists && !overwrite)
                },
                Result::Err(e) => match e {
                    NewError::RootIsNotDir { path } => {
                        &&& path@ == root@
                        &&& probe.root_exists
                        &&& !probe.root_is_dir
                    },
                    NewError::GoodsAlreadyExist { path } => {
                        &&& path@ == goods_path_of(root@)
                        &&& !(probe.root_exists && !probe.root_is_dir)
                        &&& probe.treasury_exists
                        &&& (probe.treasury_is_file || (probe.manifest_exists && !overwrite))
                    },
                    _ => false,
                },
            },
    {
        if probe.root_exists && !probe.root_is_dir {
            return Err(NewError::RootIsNotDir { path: root });
        }
        if probe.treasury_exists {
            if probe.treasury_is_file {
                let path = goods_path(&root);
                return Err(NewError::GoodsAlreadyExist { path });
            }
            if probe.manifest_exists && !overwrite {
                let path = goods_path(&root);
                return Err(NewError::GoodsAlreadyExist { path });
            }
        }
        let plan = NewPlan {
            create_root_dir: !probe.root_exists,
            create_goods_dir: !probe.treasury_exists,
        };
        let t = Treasury {
            root,
            assets: Vec::new(),
            importers_dirs: Vec::new(),
            importers: Vec::new(),
        };
        proof {
            assert(t.assets_v() =~= Seq::<AssetV>::empty());
            assert(t.dirs_v() =~= Seq::<Seq<Seq<u8>>>::empty());
            assert(t.importers_v() =~= Seq::<ImporterEntryV>::empty());
        }
        Ok((t, plan))
    }
}

/// A record after the manifest is read: its absolute paths re-derived
/// from the root.
pub open spec fn rehydrate(a: AssetV, root: Seq<Seq<u8>>) -> AssetV {
    AssetV {
        source_absolute: normalize(root + a.source),
        native_absolute: root + native_rel_of(a.uuid),
        ..a
    }
}

/// Manifest contents a registry can be built from: well-formed relative
/// paths throughout and pairwise distinct identifiers.
pub open spec fn open_data_ok(assets: Seq<AssetV>, dirs: Seq<Seq<Seq<u8>>>) -> bool {
    &&& uuids_unique(assets)
    &&& forall|i: int| 0 <= i < assets.len() ==> wf_rel_seq(#[trigger] assets[i].source)
    &&& forall|i: int| 0 <= i < assets.len() ==> asset_texts_ok(#[trigger] assets[i])
    &&& forall|i: int| 0 <= i < dirs.len() ==> wf_rel_seq(#[trigger] dirs[i])
    &&& forall|i: int| 0 <= i < dirs.len() ==> all_jsonable(#[trigger] dirs[i])
}

/// Decide whether a component is a well-formed relative path component.
pub fn component_wf_check(c: &Vec<u8>) -> (r: bool)
    ensures
        r == wf_rel_component(c@),
{
    if c.len() == 0 {
        return false;
    }
    if c.len() == 1 && c[0] == 46u8 {
        proof {
            assert(c@ =~= crate::paths::dot());
        }
        return false;
    }
    let mut i: usize = 0;
    while i < c.len()
        invariant
            i <= c.len(),
            forall|j: int| 0 <= j < i ==> c@[j] != 47u8,
        decreases c.len() - i,
    {
        if c[i] == 47u8 {
            return false;
        }
        i = i + 1;
    }
    proof {
        if c@ == crate::paths::dot() {
            assert(c@.len() == 1);
            assert(c@[0] == 46u8);
        }
    }
    true
}

/// Decide whether every component of a relative path is well-formed.
pub fn rel_path_wf_check(p: &RelPath) -> (r: bool)
    ensures
        r == wf_rel_seq(p@),
{
    let mut i: usize = 0;
    while i < p.components.len()
        invariant
            i <= p.components.len(),
            forall|j: int| 0 <= j < i ==> wf_rel_component(#[trigger] p@[j]),
        decreases p.components.len() - i,
    {
        if !component_wf_check(&p.components[i]) {
            proof {
                assert(p@[i as int] == p.components@[i as int]@);
            }
            return false;
        }
        i = i + 1;
    }
    true
}

/// Decide whether all identifiers in the catalog are pairwise distinct.
pub fn check_uuids_unique(assets: &Vec<Asset>) -> (r: bool)
    ensures
        r == uuids_unique(assets.deep_view()),
{
    let mut i: usize = 0;
    while i < assets.len()
        invariant
            i <= assets.len(),
            forall|a: int, b: int|
                0 <= a < b < assets.deep_view().len() && a < i ==> assets.deep_view()[a].uuid
                    != assets.deep_view()[b].uuid,
        decreases assets.len() - i,
    {
        let mut j: usize = i + 1;
        while j < assets.len()
            invariant
                i < j <= assets.len(),
                forall|b: int| i < b < j ==> assets.deep_view()[i as int].uuid
                    != assets.deep_view()[b].uuid,
            decreases assets.len() - j,
        {
            if assets[i].uuid == assets[j].uuid {
                proof {
                    assert(assets.deep_view()[i as int].uuid == assets.deep_view()[j as int].uuid);
                }
                return false;
            }
            j = j + 1;
        }
        i = i + 1;
    }
    true
}

impl Treasury {
    /// Build a registry from manifest contents: re-derive each record's
    /// absolute paths below the root. The contents are rejected exactly
    /// when a relative path is malformed or two records share an
    /// identifier.
    pub fn open(root: AbsPath, data: Data) -> (r: Result<Treasury, OpenError>)
        requires
            root.wf(),
        ensures
            open_data_ok(data.assets.deep_view(), data.importers_dirs.deep_view()) <==> r is Ok,
            match r {
                Result::Ok(t) => {
                    &&& t.root@ == root@
                    &&& t.dirs_v() == data.importers_dirs.deep_view()
                    &&& t.importers_v() == Seq::<ImporterEntryV>::empty()
                    &&& t.assets_v().len() == data.assets.deep_view().len()
                    &&& forall|i: int|
                        0 <= i < t.assets_v().len() ==> t.assets_v()[i] == rehydrate(
                            data.assets.deep_view()[i],
                            root@,
                        )
                    &&& t.wf()
                },
                Result::Err(e) => match e {
                    OpenError::JsonError { path, message } => path@ == manifest_path_of(root@),
                    _ => false,
                },
            },
    {
        let mut i: usize = 0;
        let mut ok = check_uuids_unique(&data.assets);
        while i < data.assets.len() && ok
            invariant
                root.wf(),
                i <= data.assets.len(),
                ok ==> forall|j: int|
                    0 <= j < i ==> wf_rel_seq(#[trigger] data.assets.deep_view()[j].source),
                ok ==> forall|j: int|
                    0 <= j < i ==> asset_texts_ok(#[trigger] data.assets.deep_view()[j]),
                ok == uuids_unique(data.assets.deep_view()),
            decreases data.assets.len() - i,
        {
            if !(rel_path_wf_check(&data.assets[i].source) && asset_texts_check(
                &data.assets[i],
            )) {
                proof {
                    assert(data.assets.deep_view()[i as int].source == data.assets@[i as int].source@);
                }
                let path = manifest_path(&root);
                let mut message: Vec<u8> = Vec::new();
                return Err(OpenError::JsonError { path, message });
            }
            proof {
                assert(data.assets.deep_view()[i as int].source == data.assets@[i as int].source@);
            }
            i = i + 1;
        }
        if !ok {
            let path = manifest_path(&root);
            let mut message: Vec<u8> = Vec::new();
            return Err(OpenError::JsonError { path, message });
        }
        let mut j: usize = 0;
        while j < data.importers_dirs.len()
            invariant
                root.wf(),
                j <= data.importers_dirs.len(),
                forall|m: int|
                    0 <= m < j ==> wf_rel_seq(#[trigger] data.importers_dirs.deep_view()[m]),
                forall|m: int|
                    0 <= m < j ==> all_jsonable(#[trigger] data.importers_dirs.deep_view()[m]),
            decreases data.importers_dirs.len() - j,
        {
            if !(rel_path_wf_check(&data.importers_dirs[j]) && all_jsonable_check(
                &data.importers_dirs[j].components,
            )) {
                proof {
                    assert(data.importers_dirs.deep_view()[j as int] == data.importers_dirs@[j as int]@);
                }
                let path = manifest_path(&root);
                let mut message: Vec<u8> = Vec::new();
                return Err(OpenError::JsonError { path, message });
            }
            proof {
                assert(data.importers_dirs.deep_view()[j as int] == data.importers_dirs@[j as int]@);
            }
            j = j + 1;
        }
        let mut assets: Vec<Asset> = Vec::new();
        let mut k: usize = 0;
        while k < data.assets.len()
            invariant
                k <= data.assets.len(),
                root.wf(),
                forall|j: int|
                    0 <= j < data.assets.deep_view().len() ==> wf_rel_seq(
                        #[trigger] data.assets.deep_view()[j].source,
                    ),
                forall|j: int|
                    0 <= j < data.assets.deep_view().len() ==> asset_texts_ok(
                        #[trigger] data.assets.deep_view()[j],
                    ),
                assets.deep_view().len() == k,
                forall|m: int|
                    0 <= m < k ==> #[trigger] assets.deep_view()[m] == rehydrate(
                        data.assets.deep_view()[m],
                        root@,
                    ),
                forall|m: int|
                    0 <= m < k ==> asset_paths_wf(#[trigger] assets.deep_view()[m]),
                forall|m: int|
                    0 <= m < k ==> asset_texts_ok(#[trigger] assets.deep_view()[m]),
            decreases data.assets.len() - k,
        {
            let mut a = data.assets[k].clone();
            proof {
                assert(a@ == data.assets.deep_view()[k as int]);
                assert(a.source@ == a@.source);
                assert(wf_rel_seq(a@.source));
            }
            let ghost pre = assets.deep_view();
            let ghost prev = assets@;
            a.update_abs_paths(&root);
            assets.push(a);
            proof {
                assert(assets@.len() == k + 1);
                assert forall|m: int| 0 <= m < k implies assets.deep_view()[m] == pre[m] by {
                    assert(assets@[m] == prev[m]);
                }
                assert(assets.deep_view()[k as int] == rehydrate(
                    data.assets.deep_view()[k as int],
                    root@,
                ));
                assert forall|m: int|
                    0 <= m < k + 1 implies #[trigger] assets.deep_view()[m] == rehydrate(
                    data.assets.deep_view()[m],
                    root@,
                ) by {
                    if m < k {
                        assert(assets.deep_view()[m] == pre[m]);
                    }
                }
                assert forall|m: int|
                    0 <= m < k + 1 implies asset_paths_wf(#[trigger] assets.deep_view()[m]) by {
                    if m < k {
                        assert(assets.deep_view()[m] == pre[m]);
                        assert(asset_paths_wf(pre[m]));
                    }
                }
                assert forall|m: int|
                    0 <= m < k + 1 implies asset_texts_ok(#[trigger] assets.deep_view()[m]) by {
                    if m < k {
                        assert(assets.deep_view()[m] == pre[m]);
                        assert(asset_texts_ok(pre[m]));
                    } else {
                        assert(asset_texts_ok(data.assets.deep_view()[k as int]));
                    }
                }
            }
            k = k + 1;
        }
        let t = Treasury { root, assets, importers_dirs: data.importers_dirs, importers: Vec::new() };
        proof {
            assert(t.importers_v() =~= Seq::<ImporterEntryV>::empty());
            assert forall|a: int, b: int|
                0 <= a < b < t.assets_v().len() implies t.assets_v()[a].uuid
                != t.assets_v()[b].uuid by {
                assert(t.assets_v()[a] == rehydrate(data.assets.deep_view()[a], t.root@));
                assert(t.assets_v()[b] == rehydrate(data.assets.deep_view()[b], t.root@));
            }
        }
        Ok(t)
    }
}

/// Decide whether two relative paths are equal.
pub fn rel_eq(a: &RelPath, b: &RelPath) -> (r: bool)
    ensures
        r == (a@ == b@),
{
    if a.components.len() != b.components.len() {
        proof {
            assert(a@.len() != b@.len());
        }
        return false;
    }
    let mut i: usize = 0;
    while i < a.components.len()
        invariant
            i <= a.components.len(),
            a.components.len() == b.components.len(),
            forall|j: int| 0 <= j < i ==> a@[j] == b@[j],
        decreases a.components.len() - i,
    {
        if !bytes_eq(&a.components[i], &b.components[i]) {
            proof {
                assert(a@[i as int] == a.components@[i as int]@);
                assert(b@[i as int] == b.components@[i as int]@);
            }
            return false;
        }
        proof {
            assert(a@[i as int] == a.components@[i as int]@);
            assert(b@[i as int] == b.components@[i as int]@);
        }
        i = i + 1;
    }
    proof {
        assert(a@ =~= b@);
    }
    true
}

/// Decide whether a directory is already registered.
pub fn contains_dir(dirs: &Vec<RelPath>, d: &RelPath) -> (r: bool)
    ensures
        r == dirs.deep_view().contains(d@),
{
    let mut i: usize = 0;
    while i < dirs.len()
        invariant
            i <= dirs.len(),
            forall|j: int| 0 <= j < i ==> dirs.deep_view()[j] != d@,
        decreases dirs.len() - i,
    {
        if rel_eq(&dirs[i], d) {
            proof {
                assert(dirs.deep_view()[i as int] == d@);
            }
            return true;
        }
        proof {
            assert(dirs.deep_view()[i as int] == dirs@[i as int]@);
        }
        i = i + 1;
    }
    false
}

/// Find the first dispatch entry for a format pair.
pub fn get_importer_index(importers: &Vec<ImporterEntry>, sf: &Vec<u8>, nf: &Vec<u8>) -> (r: Option<
    usize,
>)
    ensures
        match r {
            Option::None => !has_pair(importers.deep_view(), sf@, nf@),
            Option::Some(i) => {
                &&& i < importers.deep_view().len()
                &&& pair_matches(importers.deep_view()[i as int], sf@, nf@)
                &&& forall|j: int|
                    0 <= j < i ==> !pair_matches(#[trigger] importers.deep_view()[j], sf@, nf@)
            },
        },
{
    let mut i: usize = 0;
    while i < importers.len()
        invariant
            i <= importers.len(),
            forall|j: int|
                0 <= j < i ==> !pair_matches(#[trigger] importers.deep_view()[j], sf@, nf@),
        decreases importers.len() - i,
    {
        if bytes_eq(&importers[i].source_format, sf) && bytes_eq(&importers[i].native_format, nf) {
            proof {
                assert(pair_matches(importers.deep_view()[i as int], sf@, nf@));
            }
            return Some(i);
        }
        proof {
            assert(!pair_matches(importers.deep_view()[i as int], sf@, nf@));
        }
        i = i + 1;
    }
    None
}

/// Appending one entry to the merge: it is kept exactly when its format
/// pair is still unserved.
pub proof fn lemma_merge_push(cur: Seq<ImporterEntryV>, s: Seq<ImporterEntryV>, x: ImporterEntryV)
    ensures
        merge_importers(cur, s.push(x)) == (if has_pair(
            merge_importers(cur, s),
            x.source_format,
            x.native_format,
        ) {
            merge_importers(cur, s)
        } else {
            merge_importers(cur, s).push(x)
        }),
    decreases s.len(),
{
    if s.len() == 0 {
        assert(s.push(x)[0] == x);
        assert(s.push(x).skip(1) =~= Seq::<ImporterEntryV>::empty());
        assert(merge_importers(cur, s) == cur);
        let cur1 = if has_pair(cur, x.source_format, x.native_format) {
            cur
        } else {
            cur.push(x)
        };
        assert(merge_importers(cur, s.push(x)) == merge_importers(
            cur1,
            s.push(x).skip(1),
        ));
        assert(merge_importers(cur1, Seq::<ImporterEntryV>::empty()) == cur1);
    } else {
        assert(s.push(x)[0] == s[0]);
        assert(s.push(x).skip(1) =~= s.skip(1).push(x));
        let cur1 = if has_pair(cur, s[0].source_format, s[0].native_format) {
            cur
        } else {
            cur.push(s[0])
        };
        lemma_merge_push(cur1, s.skip(1), x);
    }
}

impl Treasury {
    /// Register importer entries, first entry per format pair winning;
    /// later entries for a served pair are dropped.
    pub fn register_importers(&mut self, entries: Vec<ImporterEntry>)
        requires
            old(self).wf(),
        ensures
            final(self).importers_v() == merge_importers(
                old(self).importers_v(),
                entries.deep_view(),
            ),
            final(self).assets_v() == old(self).assets_v(),
            final(self).dirs_v() == old(self).dirs_v(),
            final(self).root@ == old(self).root@,
            final(self).wf(),
    {
        let ghost orig = self.importers_v();
        let mut i: usize = 0;
        proof {
            assert(entries.deep_view().take(0) =~= Seq::<ImporterEntryV>::empty());
        }
        while i < entries.len()
            invariant
                i <= entries.len(),
                self.importers_v() == merge_importers(orig, entries.deep_view().take(i as int)),
                self.assets_v() == old(self).assets_v(),
                self.dirs_v() == old(self).dirs_v(),
                self.root@ == old(self).root@,
                old(self).wf(),
                self.wf(),
            decreases entries.len() - i,
        {
            let ghost pre = self.importers_v();
            let e = &entries[i];
            proof {
                assert(entries.deep_view()[i as int] == entries@[i as int]@);
                assert(entries.deep_view().take(i + 1).drop_last() =~= entries.deep_view().take(
                    i as int,
                ));
                lemma_merge_push(orig, entries.deep_view().take(i as int), entries.deep_view()[i as int]);
                assert(entries.deep_view().take(i as int).push(entries.deep_view()[i as int])
                    =~= entries.deep_view().take(i + 1));
            }
            match get_importer_index(&self.importers, &e.source_format, &e.native_format) {
                Option::Some(_) => {
                },
                Option::None => {
                    let c = e.clone();
                    self.importers.push(c);
                    proof {
                        assert(self.importers_v() =~= pre.push(entries.deep_view()[i as int]));
                    }
                },
            }
            i = i + 1;
        }
        proof {
            assert(entries.deep_view().take(entries.deep_view().len() as int) =~= entries.deep_view());
        }
    }

    /// Record an importer directory and register what was found in it.
    /// An already-registered directory is left alone, and a directory
    /// whose name cannot stand in the manifest is refused; otherwise the
    /// directory is appended and its entries merged, first entry per
    /// format pair winning.
    pub fn load_importers_dir(&mut self, dir: RelPath, entries: Vec<ImporterEntry>) -> (added:
        bool)
        requires
            old(self).wf(),
            dir.wf(),
        ensures
            added == (!old(self).dirs_v().contains(dir@) && all_jsonable(dir@)),
            !added ==> *final(self) == *old(self),
            added ==> {
                &&& final(self).dirs_v() == old(self).dirs_v().push(dir@)
                &&& final(self).importers_v() == merge_importers(
                    old(self).importers_v(),
                    entries.deep_view(),
                )
                &&& final(self).assets_v() == old(self).assets_v()
                &&& final(self).root@ == old(self).root@
            },
            final(self).wf(),
    {
        if contains_dir(&self.importers_dirs, &dir) {
            return false;
        }
        if !all_jsonable_check(&dir.components) {
            return false;
        }
        let ghost pre = self.dirs_v();
        let ghost dv = dir@;
        self.register_importers(entries);
        self.importers_dirs.push(dir);
        proof {
            assert(self.dirs_v() =~= pre.push(self.importers_dirs@[self.importers_dirs@.len()
                - 1]@));
            assert forall|i: int| 0 <= i < self.dirs_v().len() implies all_jsonable(
                #[trigger] self.dirs_v()[i],
            ) by {
                if i < pre.len() {
                    assert(self.dirs_v()[i] == pre[i]);
                } else {
                    assert(self.dirs_v()[i] == dv);
                }
            }
            assert forall|i: int| 0 <= i < self.dirs_v().len() implies wf_rel_seq(
                #[trigger] self.dirs_v()[i],
            ) by {
                if i < pre.len() {
                    assert(self.dirs_v()[i] == pre[i]);
                } else {
                    assert(self.dirs_v()[i] == dv);
                }
            }
        }
        true
    }
}

/// Every requested tag is present.
pub open spec fn tags_subset(req: Seq<Seq<u8>>, have: Seq<Seq<u8>>) -> bool {
    forall|i: int| 0 <= i < req.len() ==> have.contains(#[trigger] req[i])
}

/// The optional native-format filter, as a sequence.
pub open spec fn opt_fmt_view(o: Option<&Vec<u8>>) -> Option<Seq<u8>> {
    match o {
        Option::Some(f) => Option::Some(f@),
        Option::None => Option::None,
    }
}

/// The listing filter: the native format matches the filter, if one was
/// given, and every requested tag is present.
pub open spec fn list_matches(a: AssetV, tags: Seq<Seq<u8>>, nf: Option<Seq<u8>>) -> bool {
    &&& (nf is Some ==> a.native_format == nf.unwrap())
    &&& tags_subset(tags, a.tags)
}

/// Decide whether a tag list holds a tag.
pub fn contains_bytes(have: &Vec<Vec<u8>>, x: &Vec<u8>) -> (r: bool)
    ensures
        r == have.deep_view().contains(x@),
{
    let mut i: usize = 0;
    while i < have.len()
        invariant
            i <= have.len(),
            forall|j: int| 0 <= j < i ==> have.deep_view()[j] != x@,
        decreases have.len() - i,
    {
        if bytes_eq(&have[i], x) {
            proof {
                assert(have.deep_view()[i as int] == x@);
            }
            return true;
        }
        i = i + 1;
    }
    false
}

/// Decide whether every requested tag is present.
pub fn tags_all_present(req: &Vec<Vec<u8>>, have: &Vec<Vec<u8>>) -> (r: bool)
    ensures
        r == tags_subset(req.deep_view(), have.deep_view()),
{
    let mut i: usize = 0;
    while i < req.len()
        invariant
            i <= req.len(),
            forall|j: int| 0 <= j < i ==> have.deep_view().contains(#[trigger] req.deep_view()[j]),
        decreases req.len() - i,
    {
        if !contains_bytes(have, &req[i]) {
            proof {
                assert(req.deep_view()[i as int] == req@[i as int]@);
            }
            return false;
        }
        proof {
            assert(req.deep_view()[i as int] == req@[i as int]@);
        }
        i = i + 1;
    }
    true
}

/// Decide whether a record passes the listing filter.
pub fn matches_filter(a: &Asset, tags: &Vec<Vec<u8>>, native_format: Option<&Vec<u8>>) -> (r:
    bool)
    ensures
        r == list_matches(a@, tags.deep_view(), opt_fmt_view(native_format)),
{
    match native_format {
        Option::Some(f) => {
            if !bytes_eq(&a.native_format, f) {
                return false;
            }
        },
        Option::None => {},
    }
    tags_all_present(tags, &a.tags)
}

/// A filtered singleton: kept exactly when the element passes.
pub proof fn lemma_filter_singleton<A>(x: A, pred: spec_fn(A) -> bool)
    ensures
        Seq::empty().push(x).filter(pred) == (if pred(x) {
            Seq::empty().push(x)
        } else {
            Seq::<A>::empty()
        }),
{
    reveal_with_fuel(Seq::filter, 3);
    let s = Seq::empty().push(x);
    assert(s.drop_last() =~= Seq::<A>::empty());
}

impl Treasury {
    /// All records whose native format matches the filter, if one was
    /// given, and which carry every requested tag, in catalog order.
    pub fn list(&self, tags: &Vec<Vec<u8>>, native_format: Option<&Vec<u8>>) -> (r: Vec<Asset>)
        ensures
            r.deep_view() == self.assets_v().filter(
                |a: AssetV| list_matches(a, tags.deep_view(), opt_fmt_view(native_format)),
            ),
    {
        let ghost pred = |a: AssetV| list_matches(a, tags.deep_view(), opt_fmt_view(native_format));
        let mut out: Vec<Asset> = Vec::new();
        let mut i: usize = 0;
        proof {
            assert(self.assets_v().take(0) =~= Seq::<AssetV>::empty());
            reveal_with_fuel(Seq::filter, 2);
            assert(out.deep_view() =~= Seq::<AssetV>::empty().filter(pred));
        }
        while i < self.assets.len()
            invariant
                i <= self.assets.len(),
                out.deep_view() == self.assets_v().take(i as int).filter(pred),
                pred == (|a: AssetV| list_matches(a, tags.deep_view(), opt_fmt_view(
                    native_format,
                ))),
            decreases self.assets.len() - i,
        {
            let ghost pre = out.deep_view();
            let ghost prev = out@;
            let keep = matches_filter(&self.assets[i], tags, native_format);
            proof {
                assert(self.assets_v()[i as int] == self.assets@[i as int]@);
                assert(self.assets_v().take(i + 1).drop_last() =~= self.assets_v().take(i as int));
                assert(self.assets_v().take(i + 1) =~= self.assets_v().take(i as int).push(
                    self.assets_v()[i as int],
                ));
                Seq::filter_distributes_over_add(
                    self.assets_v().take(i as int),
                    Seq::empty().push(self.assets_v()[i as int]),
                    pred,
                );
                assert(self.assets_v().take(i as int) + Seq::empty().push(
                    self.assets_v()[i as int],
                ) =~= self.assets_v().take(i + 1));
                lemma_filter_singleton(self.assets_v()[i as int], pred);
            }
            if keep {
                let c = self.assets[i].clone();
                out.push(c);
                proof {
                    assert(out@.len() == prev.len() + 1);
                    assert forall|m: int| 0 <= m < pre.len() implies out.deep_view()[m] == pre[m] by {
                        assert(out@[m] == prev[m]);
                    }
                    assert(out.deep_view()[pre.len() as int] == self.assets_v()[i as int]);
                    assert(out.deep_view() =~= pre.push(self.assets_v()[i as int]));
                    assert(pre.push(self.assets_v()[i as int]) =~= self.assets_v().take(i as int).filter(pred) + Seq::empty().push(self.assets_v()[i as int]));
                }
            }
            i = i + 1;
        }
        proof {
            assert(self.assets_v().take(self.assets_v().len() as int) =~= self.assets_v());
        }
        out
    }

    /// Drop the record with this identifier, handing back the native path
    /// whose file is to be deleted; a missing identifier changes nothing.
    /// The caller arranges persistence.
    pub fn remove(&mut self, uuid: u128) -> (r: Option<AbsPath>)
        requires
            old(self).wf(),
        ensures
            final(self).root@ == old(self).root@,
            final(self).dirs_v() == old(self).dirs_v(),
            final(self).importers_v() == old(self).importers_v(),
            final(self).wf(),
            !has_uuid(old(self).assets_v(), uuid) ==> r is None && final(self).assets_v() == old(
                self,
            ).assets_v(),
            has_uuid(old(self).assets_v(), uuid) ==> exists|i: int|
                {
                    &&& 0 <= i < old(self).assets_v().len()
                    &&& old(self).assets_v()[i].uuid == uuid
                    &&& final(self).assets_v() == old(self).assets_v().remove(i)
                    &&& r is Some
                    &&& r.unwrap()@ == old(self).assets_v()[i].native_absolute
                },
    {
        let mut i: usize = 0;
        while i < self.assets.len()
            invariant
                i <= self.assets.len(),
                *self == *old(self),
                self.wf(),
                forall|j: int| 0 <= j < i ==> self.assets_v()[j].uuid != uuid,
            decreases self.assets.len() - i,
        {
            if self.assets[i].uuid == uuid {
                proof {
                    assert(self.assets_v()[i as int].uuid == uuid);
                }
                let p = self.assets[i].native_absolute.clone();
                let ghost pre = self.assets_v();
                let ghost prev = self.assets@;
                self.assets.remove(i);
                proof {
                    assert(self.assets@.len() == pre.len() - 1);
                    assert forall|m: int|
                        0 <= m < self.assets@.len() implies self.assets_v()[m] == pre.remove(
                        i as int,
                    )[m] by {
                        if m < i {
                            assert(self.assets@[m] == prev[m]);
                        } else {
                            assert(self.assets@[m] == prev[m + 1]);
                        }
                    }
                    assert(self.assets_v() =~= pre.remove(i as int));
                    assert forall|a: int, b: int|
                        0 <= a < b < self.assets_v().len() implies self.assets_v()[a].uuid
                        != self.assets_v()[b].uuid by {
                        let a0: int = if a < i { a } else { a + 1 };
                        let b0: int = if b < i { b } else { b + 1 };
                        assert(self.assets_v()[a] == pre[a0]);
                        assert(self.assets_v()[b] == pre[b0]);
                        assert(pre[a0].uuid != pre[b0].uuid);
                    }
                    assert forall|m: int|
                        0 <= m < self.assets_v().len() implies asset_paths_wf(
                        #[trigger] self.assets_v()[m],
                    ) by {
                        let m0: int = if m < i { m } else { m + 1 };
                        assert(self.assets_v()[m] == pre[m0]);
                        assert(asset_paths_wf(pre[m0]));
                    }
                    assert forall|m: int|
                        0 <= m < self.assets_v().len() implies asset_texts_ok(
                        #[trigger] self.assets_v()[m],
                    ) by {
                        let m0: int = if m < i { m } else { m + 1 };
                        assert(self.assets_v()[m] == pre[m0]);
                        assert(asset_texts_ok(pre[m0]));
                    }
                    assert(self.root.wf());
                    assert forall|m: int| 0 <= m < self.dirs_v().len() implies wf_rel_seq(
                        #[trigger] self.dirs_v()[m],
                    ) && all_jsonable(self.dirs_v()[m]) by {
                        assert(self.dirs_v()[m] == old(self).dirs_v()[m]);
                        assert(wf_rel_seq(old(self).dirs_v()[m]));
                        assert(all_jsonable(old(self).dirs_v()[m]));
                    }
                }
                return Some(p);
            }
            i = i + 1;
        }
        None
    }
}

/// The `.tmp` suffix used for transient native files.
pub open spec fn tmp_ext() -> Seq<u8> {
    seq![46u8, 116u8, 109u8, 112u8]
}

/// The path with `.tmp` appended to its last component.
pub open spec fn with_tmp(p: Seq<Seq<u8>>) -> Seq<Seq<u8>>
    recommends
        p.len() > 0,
{
    p.update(p.len() - 1, p.last() + tmp_ext())
}

/// Append `.tmp` to the last component of an absolute path.
pub fn abs_with_tmp(p: &AbsPath) -> (r: AbsPath)
    requires
        p.wf(),
        p@.len() > 0,
    ensures
        r@ == with_tmp(p@),
        r.wf(),
{
    let mut components = clone_components(&p.components);
    let mut last = match components.pop() {
        Option::Some(c) => c,
        Option::None => Vec::new(),
    };
    last.push(46u8);
    last.push(116u8);
    last.push(109u8);
    last.push(112u8);
    proof {
        assert(last@ =~= p@.last() + tmp_ext());
    }
    components.push(last);
    proof {
        assert(components.deep_view() =~= with_tmp(p@));
        assert(wf_component(p@.last()));
        assert(crate::paths::dot().len() == 1);
        assert(crate::paths::dotdot().len() == 2);
        assert(wf_component(p@.last() + tmp_ext()));
        assert forall|i: int| 0 <= i < with_tmp(p@).len() implies wf_component(
            #[trigger] with_tmp(p@)[i],
        ) by {
            if i < p@.len() - 1 {
                assert(with_tmp(p@)[i] == p@[i]);
                assert(wf_component(p@[i]));
            }
        }
    }
    AbsPath { components }
}

/// Where the native blob's transient file lives, relative to the root.
pub open spec fn native_tmp_rel_of(u: u128) -> Seq<Seq<u8>> {
    seq![treasury_dir(), crate::ids::hyphenated_of(u) + tmp_ext()]
}

/// Build the transient native path of asset `u`, relative to the root.
pub fn native_tmp_rel_path(u: u128) -> (r: RelPath)
    ensures
        r@ == native_tmp_rel_of(u),
        r.wf(),
{
    let mut h = crate::ids::hyphenated(u);
    h.push(46u8);
    h.push(116u8);
    h.push(109u8);
    h.push(112u8);
    proof {
        assert(h@ =~= crate::ids::hyphenated_of(u) + tmp_ext());
    }
    let mut components: Vec<Vec<u8>> = Vec::new();
    components.push(treasury_dir_bytes());
    components.push(h);
    proof {
        assert(components.deep_view() =~= native_tmp_rel_of(u));
        crate::asset::lemma_treasury_dir_wf();
        crate::asset::lemma_native_rel_wf(u);
        assert(wf_component(native_rel_of(u)[1]));
        assert(crate::paths::dot().len() == 1);
        assert(crate::paths::dotdot().len() == 2);
        assert forall|i: int|
            0 <= i < (crate::ids::hyphenated_of(u) + tmp_ext()).len() implies (crate::ids::hyphenated_of(
            u,
        ) + tmp_ext())[i] != 47u8 by {
            if i < 36 {
                crate::ids::lemma_hyph_byte(u, i);
            }
        }
        assert(wf_component(crate::ids::hyphenated_of(u) + tmp_ext()));
        assert forall|i: int| 0 <= i < native_tmp_rel_of(u).len() implies wf_rel_component(
            #[trigger] native_tmp_rel_of(u)[i],
        ) by {
            if i == 0 {
                assert(wf_component(treasury_dir()));
            }
        }
    }
    RelPath { components }
}

/// Build the absolute native path of asset `u` below the root.
pub fn native_abs_path(root: &AbsPath, u: u128) -> (r: AbsPath)
    requires
        root.wf(),
    ensures
        r@ == root@ + native_rel_of(u),
        r.wf(),
{
    let nr = native_rel_path(u);
    let r = join_norm(root, &nr);
    proof {
        crate::asset::lemma_native_rel_wf(u);
        assert forall|i: int| 0 <= i < native_rel_of(u).len() implies #[trigger] native_rel_of(
            u,
        )[i] != crate::paths::dotdot() by {
            assert(wf_component(native_rel_of(u)[i]));
        }
        crate::paths::lemma_normalize_append(root@, native_rel_of(u));
        crate::paths::lemma_normalize_no_dots_abs(root@);
    }
    r
}

/// Build the absolute transient native path of asset `u` below the root.
pub fn native_tmp_abs_path(root: &AbsPath, u: u128) -> (r: AbsPath)
    requires
        root.wf(),
    ensures
        r@ == root@ + native_tmp_rel_of(u),
        r.wf(),
{
    let nr = native_tmp_rel_path(u);
    let r = join_norm(root, &nr);
    proof {
        assert forall|i: int| 0 <= i < native_tmp_rel_of(u).len() implies #[trigger] native_tmp_rel_of(
            u,
        )[i] != crate::paths::dotdot() by {
            assert(crate::paths::dotdot().len() == 2);
        }
        crate::paths::lemma_normalize_append(root@, native_tmp_rel_of(u));
        crate::paths::lemma_normalize_no_dots_abs(root@);
    }
    r
}

/// Decide whether a record matches the catalog key.
pub fn asset_triple_matches(a: &Asset, src: &RelPath, sf: &Vec<u8>, nf: &Vec<u8>) -> (r: bool)
    ensures
        r == triple_matches(a@, src@, sf@, nf@),
{
    rel_eq(&a.source, src) && bytes_eq(&a.source_format, sf) && bytes_eq(&a.native_format, nf)
}

/// Find the first record for a catalog key.
pub fn find_triple_index(assets: &Vec<Asset>, src: &RelPath, sf: &Vec<u8>, nf: &Vec<u8>) -> (r:
    Option<usize>)
    ensures
        match r {
            Option::None => forall|j: int|
                0 <= j < assets.deep_view().len() ==> !triple_matches(
                    #[trigger] assets.deep_view()[j],
                    src@,
                    sf@,
                    nf@,
                ),
            Option::Some(i) => {
                &&& i < assets.deep_view().len()
                &&& triple_matches(assets.deep_view()[i as int], src@, sf@, nf@)
                &&& forall|j: int|
                    0 <= j < i ==> !triple_matches(#[trigger] assets.deep_view()[j], src@, sf@, nf@)
            },
        },
{
    let mut i: usize = 0;
    while i < assets.len()
        invariant
            i <= assets.len(),
            forall|j: int|
                0 <= j < i ==> !triple_matches(#[trigger] assets.deep_view()[j], src@, sf@, nf@),
        decreases assets.len() - i,
    {
        if asset_triple_matches(&assets[i], src, sf, nf) {
            proof {
                assert(assets.deep_view()[i as int] == assets@[i as int]@);
            }
            return Some(i);
        }
        proof {
            assert(assets.deep_view()[i as int] == assets@[i as int]@);
        }
        i = i + 1;
    }
    None
}

/// What the caller must do to finish a store.
#[derive(Debug)]
pub enum StorePlan {
    /// The triple is already catalogued: done, this is its identifier.
    AlreadyStored { uuid: u128 },
    /// Same source and native format: copy the source file to the native
    /// path, then commit.
    CopyNative { uuid: u128, source_from_root: RelPath, native_absolute: AbsPath },
    /// Run the named importer into the transient path, rename it over the
    /// native path, then commit.
    RunImport {
        uuid: u128,
        importer_name: Vec<u8>,
        source_from_root: RelPath,
        native_absolute: AbsPath,
        native_tmp: RelPath,
        native_tmp_absolute: AbsPath,
    },
}

impl Treasury {
    /// Decide how a source is to be stored. A catalogued triple is
    /// answered at once with its identifier; otherwise a fresh identifier
    /// is drawn and either a plain copy or an importer run is planned;
    /// a missing importer is the one refusal.
    pub fn store_prepare(
        &self,
        source_absolute: &AbsPath,
        source_format: &Vec<u8>,
        native_format: &Vec<u8>,
    ) -> (r: Result<StorePlan, StoreError>)
        requires
            self.wf(),
            source_absolute.wf(),
        ensures
            ({
                let src = rel_spec(source_absolute@, self.root@);
                match r {
                    Result::Ok(plan) => match plan {
                        StorePlan::AlreadyStored { uuid } => exists|i: int|
                            {
                                &&& 0 <= i < self.assets_v().len()
                                &&& triple_matches(
                                    #[trigger] self.assets_v()[i],
                                    src,
                                    source_format@,
                                    native_format@,
                                )
                                &&& forall|j: int|
                                    0 <= j < i ==> !triple_matches(
                                        #[trigger] self.assets_v()[j],
                                        src,
                                        source_format@,
                                        native_format@,
                                    )
                                &&& self.assets_v()[i].uuid == uuid
                            },
                        StorePlan::CopyNative { uuid, source_from_root, native_absolute } => {
                            &&& forall|j: int|
                                0 <= j < self.assets_v().len() ==> !triple_matches(
                                    #[trigger] self.assets_v()[j],
                                    src,
                                    source_format@,
                                    native_format@,
                                )
                            &&& source_format@ == native_format@
                            &&& !has_uuid(self.assets_v(), uuid)
                            &&& source_from_root@ == src
                            &&& source_from_root.wf()
                            &&& native_absolute@ == self.root@ + native_rel_of(uuid)
                            &&& native_absolute.wf()
                        },
                        StorePlan::RunImport {
                            uuid,
                            importer_name,
                            source_from_root,
                            native_absolute,
                            native_tmp,
                            native_tmp_absolute,
                        } => {
                            &&& forall|j: int|
                                0 <= j < self.assets_v().len() ==> !triple_matches(
                                    #[trigger] self.assets_v()[j],
                                    src,
                                    source_format@,
                                    native_format@,
                                )
                            &&& source_format@ != native_format@
                            &&& exists|i: int|
                                {
                                    &&& 0 <= i < self.importers_v().len()
                                    &&& pair_matches(
                                        #[trigger] self.importers_v()[i],
                                        source_format@,
                                        native_format@,
                                    )
                                    &&& forall|j: int|
                                        0 <= j < i ==> !pair_matches(
                                            #[trigger] self.importers_v()[j],
                                            source_format@,
                                            native_format@,
                                        )
                                    &&& self.importers_v()[i].name == importer_name@
                                }
                            &&& !has_uuid(self.assets_v(), uuid)
                            &&& source_from_root@ == src
                            &&& source_from_root.wf()
                            &&& native_absolute@ == self.root@ + native_rel_of(uuid)
                            &&& native_absolute.wf()
                            &&& native_tmp@ == native_tmp_rel_of(uuid)
                            &&& native_tmp.wf()
                            &&& native_tmp_absolute@ == self.root@ + native_tmp_rel_of(uuid)
                            &&& native_tmp_absolute.wf()
                        },
                    },
                    Result::Err(e) => match e {
                        StoreError::ImporterNotFound { source_format: sfe, native_format: nfe } => {
                            &&& forall|j: int|
                                0 <= j < self.assets_v().len() ==> !triple_matches(
                                    #[trigger] self.assets_v()[j],
                                    src,
                                    source_format@,
                                    native_format@,
                                )
                            &&& source_format@ != native_format@
                            &&& !has_pair(self.importers_v(), source_format@, native_format@)
                            &&& sfe@ == source_format@
                            &&& nfe@ == native_format@
                        },
                        _ => false,
                    },
                }
            }),
    {
        let src = relative_to(source_absolute, &self.root);
        proof {
            crate::paths::lemma_rel_spec_wf(source_absolute@, self.root@);
        }
        match find_triple_index(&self.assets, &src, source_format, native_format) {
            Option::Some(i) => {
                let uuid = self.assets[i].uuid;
                proof {
                    assert(self.assets_v()[i as int].uuid == uuid);
                }
                Ok(StorePlan::AlreadyStored { uuid })
            },
            Option::None => {
                let uuid = pick_fresh_uuid(&self.assets);
                if bytes_eq(source_format, native_format) {
                    let native_absolute = native_abs_path(&self.root, uuid);
                    Ok(StorePlan::CopyNative { uuid, source_from_root: src, native_absolute })
                } else {
                    match get_importer_index(&self.importers, source_format, native_format) {
                        Option::None => Err(StoreError::ImporterNotFound {
                            source_format: clone_bytes(source_format),
                            native_format: clone_bytes(native_format),
                        }),
                        Option::Some(ix) => {
                            let importer_name = clone_bytes(&self.importers[ix].name);
                            proof {
                                assert(self.importers_v()[ix as int]
                                    == self.importers@[ix as int]@);
                            }
                            let native_absolute = native_abs_path(&self.root, uuid);
                            let native_tmp = native_tmp_rel_path(uuid);
                            let native_tmp_absolute = native_tmp_abs_path(&self.root, uuid);
                            Ok(StorePlan::RunImport {
                                uuid,
                                importer_name,
                                source_from_root: src,
                                native_absolute,
                                native_tmp,
                                native_tmp_absolute,
                            })
                        },
                    }
                }
            },
        }
    }

    /// Append the stored record. The record is refused when its
    /// identifier collided meanwhile, as a reentrant store during an
    /// import may have appended records, or when a format, tag or source
    /// component cannot stand in the manifest's canonical form; a
    /// refused commit changes nothing.
    pub fn store_commit(
        &mut self,
        uuid: u128,
        source_from_root: RelPath,
        source_format: Vec<u8>,
        native_format: Vec<u8>,
        tags: Vec<Vec<u8>>,
        source_absolute: AbsPath,
    ) -> (ok: bool)
        requires
            old(self).wf(),
            source_from_root.wf(),
            source_absolute.wf(),
        ensures
            ok == (!has_uuid(old(self).assets_v(), uuid) && all_jsonable(source_from_root@)
                && jsonable(source_format@) && jsonable(native_format@) && all_jsonable(
                tags.deep_view(),
            )),
            final(self).root@ == old(self).root@,
            final(self).dirs_v() == old(self).dirs_v(),
            final(self).importers_v() == old(self).importers_v(),
            final(self).wf(),
            !ok ==> final(self).assets_v() == old(self).assets_v(),
            ok ==> final(self).assets_v() == old(self).assets_v().push(
                AssetV {
                    uuid,
                    source: source_from_root@,
                    source_format: source_format@,
                    native_format: native_format@,
                    tags: tags.deep_view(),
                    source_absolute: source_absolute@,
                    native_absolute: old(self).root@ + native_rel_of(uuid),
                },
            ),
    {
        if contains_uuid(&self.assets, uuid) {
            return false;
        }
        if !(all_jsonable_check(&source_from_root.components) && jsonable_check(&source_format)
            && jsonable_check(&native_format) && all_jsonable_check(&tags)) {
            return false;
        }
        let native_absolute = native_abs_path(&self.root, uuid);
        let a = Asset {
            uuid,
            source: source_from_root,
            source_format,
            native_format,
            tags,
            source_absolute,
            native_absolute,
        };
        let ghost pre = self.assets_v();
        let ghost prev = self.assets@;
        let ghost av = a@;
        self.assets.push(a);
        proof {
            assert(self.assets@.len() == pre.len() + 1);
            assert forall|m: int| 0 <= m < pre.len() implies #[trigger] self.assets_v()[m]
                == pre[m] by {
                assert(self.assets@[m] == prev[m]);
            }
            assert(self.assets_v()[pre.len() as int] == av);
            assert(self.assets_v() =~= pre.push(av));
            assert forall|a: int, b: int|
                0 <= a < b < self.assets_v().len() implies self.assets_v()[a].uuid
                != self.assets_v()[b].uuid by {
                if b < pre.len() {
                    assert(pre[a].uuid != pre[b].uuid);
                } else {
                    assert(self.assets_v()[b] == av);
                    assert(!has_uuid(pre, uuid));
                    assert(pre[a].uuid != uuid);
                }
            }
            assert forall|m: int|
                0 <= m < self.assets_v().len() implies asset_paths_wf(
                #[trigger] self.assets_v()[m],
            ) by {
                if m < pre.len() {
                    assert(asset_paths_wf(pre[m]));
                }
            }
            assert(asset_texts_ok(av));
            assert(self.root.wf());
            assert(self.dirs_v() == old(self).dirs_v());
            assert forall|i: int| 0 <= i < self.dirs_v().len() implies wf_rel_seq(
                #[trigger] self.dirs_v()[i],
            ) && all_jsonable(self.dirs_v()[i]) by {
                assert(self.dirs_v()[i] == old(self).dirs_v()[i]);
                assert(wf_rel_seq(old(self).dirs_v()[i]));
                assert(all_jsonable(old(self).dirs_v()[i]));
            }
            assert forall|m: int|
                0 <= m < self.assets_v().len() implies asset_texts_ok(
                #[trigger] self.assets_v()[m],
            ) by {
                if m < pre.len() {
                    assert(asset_texts_ok(pre[m]));
                } else {
                    assert(self.assets_v()[m] == av);
                }
            }
        }
        true
    }
}

/// What a fetch finds before any file is touched.
pub struct FetchBegin {
    pub index: usize,
    pub uuid: u128,
    pub native_absolute: AbsPath,
    pub source_absolute: AbsPath,
    pub source_format: Vec<u8>,
    pub native_format: Vec<u8>,
}

/// What the caller must do about staleness before serving the native
/// file.
#[derive(Debug)]
pub enum StalenessPlan {
    /// The native file is not older than its source: serve it.
    UpToDate,
    /// The source could not be inspected: serve the native file and warn.
    SourceUnknown,
    /// The native file is stale but no importer serves the pair: serve
    /// the stale file and warn.
    StaleNoImporter,
    /// Run the named importer into the transient path, rename it over
    /// the native path, and reopen.
    Reimport { importer_name: Vec<u8>, native_tmp_absolute: AbsPath, native_tmp: RelPath },
}

/// An open-ended fetch result: where the native file lives and its
/// version token; the caller reads the bytes.
pub struct FetchInfo {
    pub native_path: AbsPath,
    pub version: u64,
}

/// The version gate: nothing is returned when the caller already has
/// this version or newer.
pub open spec fn fetch_gate(version: u64, next_version: u64) -> Option<u64> {
    if next_version > version {
        Option::None
    } else {
        Option::Some(version)
    }
}

impl Treasury {
    /// Locate the record to fetch; an unknown identifier is the one
    /// refusal.
    pub fn fetch_begin(&self, uuid: u128) -> (r: Result<FetchBegin, FetchError>)
        requires
            self.wf(),
        ensures
            r is Err <==> !has_uuid(self.assets_v(), uuid),
            match r {
                Result::Err(e) => e is NotFound,
                Result::Ok(b) => {
                    &&& b.index < self.assets_v().len()
                    &&& self.assets_v()[b.index as int].uuid == uuid
                    &&& b.uuid == uuid
                    &&& b.native_absolute@ == self.assets_v()[b.index as int].native_absolute
                    &&& b.native_absolute.wf()
                    &&& b.source_absolute@ == self.assets_v()[b.index as int].source_absolute
                    &&& b.source_format@ == self.assets_v()[b.index as int].source_format
                    &&& b.native_format@ == self.assets_v()[b.index as int].native_format
                },
            },
    {
        let mut i: usize = 0;
        while i < self.assets.len()
            invariant
                i <= self.assets.len(),
                self.wf(),
                forall|j: int| 0 <= j < i ==> self.assets_v()[j].uuid != uuid,
            decreases self.assets.len() - i,
        {
            if self.assets[i].uuid == uuid {
                proof {
                    assert(self.assets_v()[i as int] == self.assets@[i as int]@);
                    assert(asset_paths_wf(self.assets_v()[i as int]));
                }
                let a = &self.assets[i];
                return Ok(FetchBegin {
                    index: i,
                    uuid,
                    native_absolute: a.native_absolute.clone(),
                    source_absolute: a.source_absolute.clone(),
                    source_format: clone_bytes(&a.source_format),
                    native_format: clone_bytes(&a.native_format),
                });
            }
            proof {
                assert(self.assets_v()[i as int] == self.assets@[i as int]@);
            }
            i = i + 1;
        }
        Err(FetchError::NotFound)
    }

    /// Decide whether the native file is stale against its source and,
    /// if so, whether an importer can refresh it. A missing source
    /// modification time skips the check; a stale file without an
    /// importer is served as it is.
    pub fn fetch_staleness(
        &self,
        index: usize,
        native_modified: Mtime,
        source_modified: Option<Mtime>,
    ) -> (r: StalenessPlan)
        requires
            self.wf(),
            index < self.assets.len(),
        ensures
            ({
                let a = self.assets_v()[index as int];
                match r {
                    StalenessPlan::SourceUnknown => source_modified is None,
                    StalenessPlan::UpToDate => {
                        &&& source_modified is Some
                        &&& !mtime_lt(native_modified, source_modified.unwrap())
                    },
                    StalenessPlan::StaleNoImporter => {
                        &&& source_modified is Some
                        &&& mtime_lt(native_modified, source_modified.unwrap())
                        &&& !has_pair(self.importers_v(), a.source_format, a.native_format)
                    },
                    StalenessPlan::Reimport { importer_name, native_tmp_absolute, native_tmp } => {
                        &&& source_modified is Some
                        &&& mtime_lt(native_modified, source_modified.unwrap())
                        &&& exists|i: int|
                            {
                                &&& 0 <= i < self.importers_v().len()
                                &&& pair_matches(
                                    #[trigger] self.importers_v()[i],
                                    a.source_format,
                                    a.native_format,
                                )
                                &&& forall|j: int|
                                    0 <= j < i ==> !pair_matches(
                                        #[trigger] self.importers_v()[j],
                                        a.source_format,
                                        a.native_format,
                                    )
                                &&& self.importers_v()[i].name == importer_name@
                            }
                        &&& native_tmp_absolute@ == with_tmp(a.native_absolute)
                        &&& native_tmp_absolute.wf()
                        &&& native_tmp@ == rel_spec(with_tmp(a.native_absolute), self.root@)
                    },
                }
            }),
    {
        let sm = match source_modified {
            Option::Some(m) => m,
            Option::None => {
                return StalenessPlan::SourceUnknown;
            },
        };
        if !crate::ids::mtime_before(&native_modified, &sm) {
            return StalenessPlan::UpToDate;
        }
        let a = &self.assets[index];
        proof {
            assert(self.assets_v()[index as int] == self.assets@[index as int]@);
            assert(asset_paths_wf(self.assets_v()[index as int]));
        }
        match get_importer_index(&self.importers, &a.source_format, &a.native_format) {
            Option::None => StalenessPlan::StaleNoImporter,
            Option::Some(ix) => {
                let importer_name = clone_bytes(&self.importers[ix].name);
                proof {
                    assert(self.importers_v()[ix as int] == self.importers@[ix as int]@);
                }
                let native_tmp_absolute = abs_with_tmp(&a.native_absolute);
                let native_tmp = relative_to(&native_tmp_absolute, &self.root);
                StalenessPlan::Reimport { importer_name, native_tmp_absolute, native_tmp }
            },
        }
    }

    /// Close a fetch: compute the version token from the native file's
    /// modification time and apply the version gate. Nothing is returned
    /// exactly when the caller asked for a newer version than the file
    /// has; otherwise the native path and its version are handed back.
    pub fn fetch_complete(&self, index: usize, native_modified: Mtime, next_version: u64) -> (r:
        Option<FetchInfo>)
        requires
            self.wf(),
            index < self.assets.len(),
        ensures
            r is None <==> fetch_gate(version_of(native_modified), next_version) is None,
            r is Some ==> {
                &&& r.unwrap().version == version_of(native_modified)
                &&& next_version <= r.unwrap().version
                &&& r.unwrap().native_path@ == self.assets_v()[index as int].native_absolute
            },
    {
        let version = version_from_systime(native_modified);
        if next_version > version {
            return None;
        }
        proof {
            assert(self.assets_v()[index as int] == self.assets@[index as int]@);
        }
        let native_path = self.assets[index].native_absolute.clone();
        Some(FetchInfo { native_path, version })
    }
}

/// Two records of a well-formed registry never share an identifier.
pub proof fn lemma_uuid_uniqueness(t: &Treasury, i: int, j: int)
    requires
        t.wf(),
        0 <= i < t.assets_v().len(),
        0 <= j < t.assets_v().len(),
        i != j,
    ensures
        t.assets_v()[i].uuid != t.assets_v()[j].uuid,
{
}

/// Store idempotence: once a record for a catalog key is committed to a
/// catalog that had none, a later store of the same key finds that
/// record first and is answered with the same identifier, before any new
/// identifier is drawn.
pub proof fn lemma_store_idempotent(
    before: Seq<AssetV>,
    stored: AssetV,
    src: Seq<Seq<u8>>,
    sf: Seq<u8>,
    nf: Seq<u8>,
)
    requires
        triple_matches(stored, src, sf, nf),
        forall|j: int| 0 <= j < before.len() ==> !triple_matches(#[trigger] before[j], src, sf, nf),
    ensures
        triple_matches(before.push(stored)[before.len() as int], src, sf, nf),
        forall|j: int|
            0 <= j < before.len() ==> !triple_matches(
                #[trigger] before.push(stored)[j],
                src,
                sf,
                nf,
            ),
        before.push(stored)[before.len() as int].uuid == stored.uuid,
{
}

/// A caller that knows version `v` and asks for anything newer is
/// answered only with a version strictly above `v`.
pub proof fn lemma_fetch_monotonic(m: Mtime, v: u64)
    requires
        v < 0xffff_ffff_ffff_ffff,
        fetch_gate(version_of(m), (v + 1) as u64) is Some,
    ensures
        fetch_gate(version_of(m), (v + 1) as u64).unwrap() > v,
{
}

} // verus!
