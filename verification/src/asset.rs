//! The durable asset record: identity, paths, formats and tags, with its
//! mathematical view and the derivation of its absolute paths from the
//! registry root.

use vstd::prelude::*;
use crate::ids::hyphenated_of;
use crate::ids::hyphenated;
use crate::paths::AbsPath;
use crate::paths::RelPath;
use crate::paths::clone_bytes;
use crate::paths::clone_components;
use crate::paths::join_norm;
use crate::paths::normalize;
use crate::paths::wf_abs_seq;
use crate::paths::wf_component;
use crate::paths::wf_rel_component;
use crate::paths::dot;
use crate::paths::dotdot;

verus! {

broadcast use crate::views::lemma_bytes_deep_view, crate::views::lemma_components_deep_view;

/// The engine's private directory name below the root: `.treasury`.
pub open spec fn treasury_dir() -> Seq<u8> {
    seq![46u8, 116u8, 114u8, 101u8, 97u8, 115u8, 117u8, 114u8, 121u8]
}

/// Build the `.treasury` component.
pub fn treasury_dir_bytes() -> (r: Vec<u8>)
    ensures
        r@ == treasury_dir(),
{
    let mut r: Vec<u8> = Vec::new();
    r.push(46u8);
    r.push(116u8);
    r.push(114u8);
    r.push(101u8);
    r.push(97u8);
    r.push(115u8);
    r.push(117u8);
    r.push(114u8);
    r.push(121u8);
    proof {
        assert(r@ =~= treasury_dir());
    }
    r
}

/// The `.treasury` component is a well-formed path component.
pub proof fn lemma_treasury_dir_wf()
    ensures
        wf_component(treasury_dir()),
{
    assert(treasury_dir().len() == 9);
    assert(dot().len() == 1);
    assert(dotdot().len() == 2);
    assert(treasury_dir() != dot());
    assert(treasury_dir() != dotdot());
}

/// Where the native blob of asset `u` lives, relative to the root.
pub open spec fn native_rel_of(u: u128) -> Seq<Seq<u8>> {
    seq![treasury_dir(), hyphenated_of(u)]
}

/// The hyphenated form and the `.treasury` directory are well-formed path
/// components.
pub proof fn lemma_native_rel_wf(u: u128)
    ensures
        wf_abs_seq(native_rel_of(u)),
{
    let h = hyphenated_of(u);
    assert(h.len() == 36);
    assert forall|i: int| 0 <= i < h.len() implies h[i] != 47u8 by {
        crate::ids::lemma_hyph_byte(u, i);
    }
    assert(treasury_dir().len() == 9);
    assert(dot().len() == 1);
    assert(dotdot().len() == 2);
    assert(treasury_dir() != dot());
    assert(treasury_dir() != dotdot());
    assert(h != dot());
    assert(h != dotdot());
    assert forall|i: int| 0 <= i < treasury_dir().len() implies treasury_dir()[i] != 47u8 by {}
    assert(wf_component(treasury_dir()));
    assert(wf_component(h));
    assert forall|i: int| 0 <= i < native_rel_of(u).len() implies wf_component(
        #[trigger] native_rel_of(u)[i],
    ) by {}
}

/// Build the native path of asset `u`, relative to the root.
pub fn native_rel_path(u: u128) -> (r: RelPath)
    ensures
        r@ == native_rel_of(u),
        r.wf(),
{
    let mut components: Vec<Vec<u8>> = Vec::new();
    components.push(treasury_dir_bytes());
    components.push(hyphenated(u));
    proof {
        assert(components.deep_view() =~= native_rel_of(u));
        lemma_native_rel_wf(u);
        assert forall|i: int|
            0 <= i < native_rel_of(u).len() implies wf_rel_component(
            #[trigger] native_rel_of(u)[i],
        ) by {
            assert(wf_component(native_rel_of(u)[i]));
        }
    }
    RelPath { components }
}

/// A durable asset record.
#[derive(Debug)]
pub struct Asset {
    /// The identifier, unique within a registry.
    pub uuid: u128,
    /// The source path, relative to the registry root.
    pub source: RelPath,
    /// The authoring format.
    pub source_format: Vec<u8>,
    /// The downstream-consumable format.
    pub native_format: Vec<u8>,
    /// Free-form labels.
    pub tags: Vec<Vec<u8>>,
    /// The absolute source path, derived from the root; not serialized.
    pub source_absolute: AbsPath,
    /// The absolute native path, derived from the root; not serialized.
    pub native_absolute: AbsPath,
}

/// The mathematical view of an asset record.
pub ghost struct AssetV {
    pub uuid: u128,
    pub source: Seq<Seq<u8>>,
    pub source_format: Seq<u8>,
    pub native_format: Seq<u8>,
    pub tags: Seq<Seq<u8>>,
    pub source_absolute: Seq<Seq<u8>>,
    pub native_absolute: Seq<Seq<u8>>,
}

impl View for Asset {
    type V = AssetV;

    open spec fn view(&self) -> AssetV {
        AssetV {
            uuid: self.uuid,
            source: self.source@,
            source_format: self.source_format@,
            native_format: self.native_format@,
            tags: self.tags.deep_view(),
            source_absolute: self.source_absolute@,
            native_absolute: self.native_absolute@,
        }
    }
}

impl DeepView for Asset {
    type V = AssetV;

    open spec fn deep_view(&self) -> AssetV {
        self@
    }
}

impl Clone for Asset {
    fn clone(&self) -> (r: Self)
        ensures
            r@ == self@,
    {
        let r = Asset {
            uuid: self.uuid,
            source: self.source.clone(),
            source_format: clone_bytes(&self.source_format),
            native_format: clone_bytes(&self.native_format),
            tags: clone_components(&self.tags),
            source_absolute: self.source_absolute.clone(),
            native_absolute: self.native_absolute.clone(),
        };
        r
    }
}

/// A record whose paths are well-formed.
pub open spec fn asset_paths_wf(a: AssetV) -> bool {
    &&& crate::paths::wf_rel_seq(a.source)
    &&& wf_abs_seq(a.source_absolute)
    &&& wf_abs_seq(a.native_absolute)
    &&& a.native_absolute.len() > 0
}

impl Asset {
    /// The identifier.
    pub fn uuid(&self) -> (r: u128)
        ensures
            r == self@.uuid,
    {
        self.uuid
    }

    /// The source path, relative to the registry root.
    pub fn source(&self) -> (r: &RelPath)
        ensures
            r@ == self@.source,
    {
        &self.source
    }

    /// The authoring format.
    pub fn source_format(&self) -> (r: &Vec<u8>)
        ensures
            r@ == self@.source_format,
    {
        &self.source_format
    }

    /// The downstream-consumable format.
    pub fn native_format(&self) -> (r: &Vec<u8>)
        ensures
            r@ == self@.native_format,
    {
        &self.native_format
    }

    /// The labels.
    pub fn tags(&self) -> (r: &Vec<Vec<u8>>)
        ensures
            r.deep_view() == self@.tags,
    {
        &self.tags
    }

    /// The absolute source path.
    pub fn source_absolute(&self) -> (r: &AbsPath)
        ensures
            r@ == self@.source_absolute,
    {
        &self.source_absolute
    }

    /// The absolute native path.
    pub fn native_absolute(&self) -> (r: &AbsPath)
        ensures
            r@ == self@.native_absolute,
    {
        &self.native_absolute
    }

    /// Re-derive the absolute paths from the root, as done once after the
    /// manifest is read: the source is joined below the root, the native
    /// blob lives under `.treasury` by the identifier's hyphenated form.
    pub fn update_abs_paths(&mut self, root: &AbsPath)
        requires
            root.wf(),
            old(self).source.wf(),
        ensures
            final(self)@ == (AssetV {
                source_absolute: normalize(root@ + old(self)@.source),
                native_absolute: root@ + native_rel_of(old(self)@.uuid),
                ..old(self)@
            }),
            asset_paths_wf(final(self)@),
    {
        let sa = join_norm(root, &self.source);
        let nr = native_rel_path(self.uuid);
        let na = join_norm(root, &nr);
        proof {
            lemma_native_rel_wf(self.uuid);
            assert forall|i: int| 0 <= i < native_rel_of(self.uuid).len() implies #[trigger] native_rel_of(
                self.uuid,
            )[i] != dotdot() by {
                assert(wf_component(native_rel_of(self.uuid)[i]));
            }
            crate::paths::lemma_normalize_append(root@, native_rel_of(self.uuid));
            crate::paths::lemma_normalize_no_dots_abs(root@);
        }
        self.source_absolute = sa;
        self.native_absolute = na;
    }
}

} // verus!
