//! The manifest codec: the catalog is written as a JSON document and
//! read back.
//!
//! The canonical compact rendering the writer emits is this library's
//! manifest format: one object with the directory list and the record
//! array, fields in fixed order, no whitespace between tokens, text raw
//! between quotes. The reader accepts exactly that form and recovers the
//! catalog, so that saving and opening are inverses; text that cannot
//! stand raw between quotes never reaches the writer, because the
//! registry refuses it at store and open. Absolute paths are not
//! written; they are re-derived when the registry is opened.

use vstd::prelude::*;
use crate::asset::Asset;
use crate::asset::AssetV;
use crate::ids::hyphenated;
use crate::ids::hyphenated_of;
use crate::paths::AbsPath;
use crate::paths::RelPath;
use crate::paths::clone_bytes;
use crate::paths::jsonable;
use crate::paths::all_jsonable;
use crate::paths::wf_rel_component;
use crate::paths::wf_rel_seq;
use crate::treasury::Data;
use crate::treasury::Treasury;

verus! {

broadcast use crate::views::lemma_bytes_deep_view, crate::views::lemma_components_deep_view;

/// A quoted string.
pub open spec fn json_string(s: Seq<u8>) -> Seq<u8> {
    seq![34u8] + s + seq![34u8]
}

/// A path as text: its components joined by `/`.
pub open spec fn path_text(p: Seq<Seq<u8>>) -> Seq<u8>
    decreases p.len(),
{
    if p.len() == 0 {
        Seq::empty()
    } else if p.len() == 1 {
        p[0]
    } else {
        p[0] + seq![47u8] + path_text(p.skip(1))
    }
}

/// Appending a component to a nonempty path appends a separator and the
/// component to its text.
pub proof fn lemma_path_text_push(a: Seq<Seq<u8>>, x: Seq<u8>)
    ensures
        path_text(a.push(x)) == if a.len() == 0 {
            x
        } else {
            path_text(a) + seq![47u8] + path_text(Seq::empty().push(x))
        },
    decreases a.len(),
{
    let s = a.push(x);
    if a.len() == 0 {
        assert(s.len() == 1);
        assert(s[0] == x);
    } else {
        assert(s[0] == a[0]);
        assert(s.skip(1) =~= a.skip(1).push(x));
        lemma_path_text_push(a.skip(1), x);
        if a.len() == 1 {
            assert(path_text(s) == s[0] + seq![47u8] + path_text(s.skip(1)));
            assert(path_text(s.skip(1)) == x);
            assert(path_text(Seq::empty().push(x)) == x);
        } else {
            assert(path_text(s) == a[0] + seq![47u8] + path_text(a.skip(1).push(x)));
            assert(path_text(a.skip(1).push(x)) == path_text(a.skip(1)) + seq![47u8] + path_text(
                Seq::empty().push(x),
            ));
            assert(a[0] + seq![47u8] + (path_text(a.skip(1)) + seq![47u8] + path_text(
                Seq::empty().push(x),
            )) =~= (a[0] + seq![47u8] + path_text(a.skip(1))) + seq![47u8] + path_text(
                Seq::empty().push(x),
            ));
        }
    }
}

/// Build the text of a path.
pub fn path_bytes(p: &RelPath) -> (r: Vec<u8>)
    ensures
        r@ == path_text(p@),
{
    let mut r: Vec<u8> = Vec::new();
    let mut i: usize = 0;
    while i < p.components.len()
        invariant
            i <= p.components.len(),
            r@ == path_text(p@.take(i as int)),
        decreases p.components.len() - i,
    {
        if i > 0 {
            r.push(47u8);
        }
        let mut c = clone_bytes(&p.components[i]);
        r.append(&mut c);
        proof {
            assert(p@.take(i + 1) =~= p@.take(i as int).push(p@[i as int]));
            lemma_path_text_push(p@.take(i as int), p@[i as int]);
            assert(path_text(Seq::empty().push(p@[i as int])) == p@[i as int]);
            if i == 0 {
                assert(r@ =~= path_text(p@.take(1)));
            } else {
                assert(r@ =~= path_text(p@.take(i as int)) + seq![47u8] + p@[i as int]);
            }
        }
        i = i + 1;
    }
    proof {
        assert(p@.take(p@.len() as int) =~= p@);
    }
    r
}

/// The items of a string array, comma separated.
pub open spec fn strings_inner(items: Seq<Seq<u8>>) -> Seq<u8>
    decreases items.len(),
{
    if items.len() == 0 {
        Seq::empty()
    } else if items.len() == 1 {
        json_string(items[0])
    } else {
        json_string(items[0]) + seq![44u8] + strings_inner(items.skip(1))
    }
}

/// The remaining items of a string array, each with its leading comma.
pub open spec fn comma_strings(items: Seq<Seq<u8>>) -> Seq<u8>
    decreases items.len(),
{
    if items.len() == 0 {
        Seq::empty()
    } else {
        seq![44u8] + json_string(items[0]) + comma_strings(items.skip(1))
    }
}

/// Extending the encoded prefix by one item appends a comma and the item.
pub proof fn lemma_strings_inner_take(items: Seq<Seq<u8>>, i: int)
    requires
        0 <= i < items.len(),
    ensures
        strings_inner(items.take(i + 1)) == if i == 0 {
            json_string(items[0])
        } else {
            strings_inner(items.take(i)) + seq![44u8] + json_string(items[i])
        },
    decreases i,
{
    if i == 0 {
        assert(items.take(1)[0] == items[0]);
    } else {
        lemma_strings_inner_take(items.skip(1), i - 1);
        assert(items.take(i + 1)[0] == items[0]);
        assert(items.take(i + 1).skip(1) =~= items.skip(1).take(i));
        assert(items.take(i).skip(1) =~= items.skip(1).take(i - 1));
        assert(items.take(i)[0] == items[0]);
        assert(items.skip(1)[i - 1] == items[i]);
        if i == 1 {
            assert(items.take(2).len() == 2);
            assert(strings_inner(items.take(2)) == json_string(items[0]) + seq![44u8]
                + strings_inner(items.take(2).skip(1)));
            assert(strings_inner(items.skip(1).take(1)) == json_string(items[1]));
            assert(strings_inner(items.take(1)) == json_string(items[0]));
        } else {
            assert(strings_inner(items.take(i + 1)) == json_string(items[0]) + seq![44u8]
                + strings_inner(items.skip(1).take(i)));
            assert(strings_inner(items.take(i)) == json_string(items[0]) + seq![44u8]
                + strings_inner(items.skip(1).take(i - 1)));
            assert(json_string(items[0]) + seq![44u8] + (strings_inner(items.skip(1).take(i - 1))
                + seq![44u8] + json_string(items[i])) =~= (json_string(items[0]) + seq![44u8]
                + strings_inner(items.skip(1).take(i - 1))) + seq![44u8] + json_string(items[i]));
        }
    }
}

/// The encoded items split as a parsed prefix and the comma-led rest.
pub proof fn lemma_strings_inner_split(items: Seq<Seq<u8>>, k: int)
    requires
        1 <= k <= items.len(),
    ensures
        strings_inner(items) == strings_inner(items.take(k)) + comma_strings(items.skip(k)),
    decreases items.len() - k,
{
    if k == items.len() {
        assert(items.take(k) =~= items);
        assert(comma_strings(items.skip(k)) == Seq::<u8>::empty());
        assert(strings_inner(items) + Seq::<u8>::empty() =~= strings_inner(items));
    } else {
        lemma_strings_inner_split(items, k + 1);
        lemma_strings_inner_take(items, k);
        assert(items.skip(k)[0] == items[k]);
        assert(items.skip(k).skip(1) =~= items.skip(k + 1));
        assert(comma_strings(items.skip(k)) == seq![44u8] + json_string(items[k]) + comma_strings(
            items.skip(k + 1),
        ));
        if k == 0 {
        } else {
            assert((strings_inner(items.take(k)) + seq![44u8] + json_string(items[k]))
                + comma_strings(items.skip(k + 1)) =~= strings_inner(items.take(k)) + (seq![44u8]
                + json_string(items[k]) + comma_strings(items.skip(k + 1))));
        }
    }
}


/// A JSON array of strings.
pub open spec fn strings_array(items: Seq<Seq<u8>>) -> Seq<u8> {
    seq![91u8] + strings_inner(items) + seq![93u8]
}

/// Append a quoted string.
pub fn push_string(out: &mut Vec<u8>, s: &Vec<u8>)
    ensures
        final(out)@ == old(out)@ + json_string(s@),
{
    out.push(34u8);
    let mut c = clone_bytes(s);
    out.append(&mut c);
    out.push(34u8);
    proof {
        assert(out@ =~= old(out)@ + json_string(s@));
    }
}

/// Append a JSON array of strings.
pub fn push_strings_array(out: &mut Vec<u8>, items: &Vec<Vec<u8>>)
    ensures
        final(out)@ == old(out)@ + strings_array(items.deep_view()),
{
    out.push(91u8);
    let mut i: usize = 0;
    while i < items.len()
        invariant
            i <= items.len(),
            out@ == old(out)@ + seq![91u8] + strings_inner(items.deep_view().take(i as int)),
        decreases items.len() - i,
    {
        if i > 0 {
            out.push(44u8);
        }
        push_string(out, &items[i]);
        proof {
            let iv = items.deep_view();
            lemma_strings_inner_take(iv, i as int);
            assert(iv[i as int] == items@[i as int]@);
            if i == 0 {
                assert(out@ =~= old(out)@ + seq![91u8] + strings_inner(iv.take(1)));
            } else {
                assert(out@ =~= old(out)@ + seq![91u8] + strings_inner(iv.take(i + 1)));
            }
        }
        i = i + 1;
    }
    out.push(93u8);
    proof {
        assert(items.deep_view().take(items.deep_view().len() as int) =~= items.deep_view());
        assert(out@ =~= old(out)@ + strings_array(items.deep_view()));
    }
}

/// The bytes of `{\"importers_dirs\":`.
pub open spec fn lit_dirs_key() -> Seq<u8> {
    seq![123u8, 34u8, 105u8, 109u8, 112u8, 111u8, 114u8, 116u8, 101u8, 114u8, 115u8, 95u8, 100u8, 105u8, 114u8, 115u8, 34u8, 58u8]
}

/// Build the `{\"importers_dirs\":` bytes.
pub fn dirs_key_bytes() -> (r: Vec<u8>)
    ensures
        r@ == lit_dirs_key(),
{
    let mut r: Vec<u8> = Vec::new();
    r.push(123u8);
    r.push(34u8);
    r.push(105u8);
    r.push(109u8);
    r.push(112u8);
    r.push(111u8);
    r.push(114u8);
    r.push(116u8);
    r.push(101u8);
    r.push(114u8);
    r.push(115u8);
    r.push(95u8);
    r.push(100u8);
    r.push(105u8);
    r.push(114u8);
    r.push(115u8);
    r.push(34u8);
    r.push(58u8);
    proof {
        assert(r@ =~= lit_dirs_key());
    }
    r
}

/// The bytes of `,\"assets\":`.
pub open spec fn lit_assets_key() -> Seq<u8> {
    seq![44u8, 34u8, 97u8, 115u8, 115u8, 101u8, 116u8, 115u8, 34u8, 58u8]
}

/// Build the `,\"assets\":` bytes.
pub fn assets_key_bytes() -> (r: Vec<u8>)
    ensures
        r@ == lit_assets_key(),
{
    let mut r: Vec<u8> = Vec::new();
    r.push(44u8);
    r.push(34u8);
    r.push(97u8);
    r.push(115u8);
    r.push(115u8);
    r.push(101u8);
    r.push(116u8);
    r.push(115u8);
    r.push(34u8);
    r.push(58u8);
    proof {
        assert(r@ =~= lit_assets_key());
    }
    r
}

/// The bytes of `{\"uuid\":`.
pub open spec fn lit_uuid_key() -> Seq<u8> {
    seq![123u8, 34u8, 117u8, 117u8, 105u8, 100u8, 34u8, 58u8]
}

/// Build the `{\"uuid\":` bytes.
pub fn uuid_key_bytes() -> (r: Vec<u8>)
    ensures
        r@ == lit_uuid_key(),
{
    let mut r: Vec<u8> = Vec::new();
    r.push(123u8);
    r.push(34u8);
    r.push(117u8);
    r.push(117u8);
    r.push(105u8);
    r.push(100u8);
    r.push(34u8);
    r.push(58u8);
    proof {
        assert(r@ =~= lit_uuid_key());
    }
    r
}

/// The bytes of `,\"source\":`.
pub open spec fn lit_source_key() -> Seq<u8> {
    seq![44u8, 34u8, 115u8, 111u8, 117u8, 114u8, 99u8, 101u8, 34u8, 58u8]
}

/// Build the `,\"source\":` bytes.
pub fn source_key_bytes() -> (r: Vec<u8>)
    ensures
        r@ == lit_source_key(),
{
    let mut r: Vec<u8> = Vec::new();
    r.push(44u8);
    r.push(34u8);
    r.push(115u8);
    r.push(111u8);
    r.push(117u8);
    r.push(114u8);
    r.push(99u8);
    r.push(101u8);
    r.push(34u8);
    r.push(58u8);
    proof {
        assert(r@ =~= lit_source_key());
    }
    r
}

/// The bytes of `,\"source_format\":`.
pub open spec fn lit_source_format_key() -> Seq<u8> {
    seq![44u8, 34u8, 115u8, 111u8, 117u8, 114u8, 99u8, 101u8, 95u8, 102u8, 111u8, 114u8, 109u8, 97u8, 116u8, 34u8, 58u8]
}

/// Build the `,\"source_format\":` bytes.
pub fn source_format_key_bytes() -> (r: Vec<u8>)
    ensures
        r@ == lit_source_format_key(),
{
    let mut r: Vec<u8> = Vec::new();
    r.push(44u8);
    r.push(34u8);
    r.push(115u8);
    r.push(111u8);
    r.push(117u8);
    r.push(114u8);
    r.push(99u8);
    r.push(101u8);
    r.push(95u8);
    r.push(102u8);
    r.push(111u8);
    r.push(114u8);
    r.push(109u8);
    r.push(97u8);
    r.push(116u8);
    r.push(34u8);
    r.push(58u8);
    proof {
        assert(r@ =~= lit_source_format_key());
    }
    r
}

/// The bytes of `,\"native_format\":`.
pub open spec fn lit_native_format_key() -> Seq<u8> {
    seq![44u8, 34u8, 110u8, 97u8, 116u8, 105u8, 118u8, 101u8, 95u8, 102u8, 111u8, 114u8, 109u8, 97u8, 116u8, 34u8, 58u8]
}

/// Build the `,\"native_format\":` bytes.
pub fn native_format_key_bytes() -> (r: Vec<u8>)
    ensures
        r@ == lit_native_format_key(),
{
    let mut r: Vec<u8> = Vec::new();
    r.push(44u8);
    r.push(34u8);
    r.push(110u8);
    r.push(97u8);
    r.push(116u8);
    r.push(105u8);
    r.push(118u8);
    r.push(101u8);
    r.push(95u8);
    r.push(102u8);
    r.push(111u8);
    r.push(114u8);
    r.push(109u8);
    r.push(97u8);
    r.push(116u8);
    r.push(34u8);
    r.push(58u8);
    proof {
        assert(r@ =~= lit_native_format_key());
    }
    r
}

/// The bytes of `,\"tags\":`.
pub open spec fn lit_tags_key() -> Seq<u8> {
    seq![44u8, 34u8, 116u8, 97u8, 103u8, 115u8, 34u8, 58u8]
}

/// Build the `,\"tags\":` bytes.
pub fn tags_key_bytes() -> (r: Vec<u8>)
    ensures
        r@ == lit_tags_key(),
{
    let mut r: Vec<u8> = Vec::new();
    r.push(44u8);
    r.push(34u8);
    r.push(116u8);
    r.push(97u8);
    r.push(103u8);
    r.push(115u8);
    r.push(34u8);
    r.push(58u8);
    proof {
        assert(r@ =~= lit_tags_key());
    }
    r
}

/// The text of one asset record.
pub open spec fn asset_text(a: AssetV) -> Seq<u8> {
    lit_uuid_key() + json_string(hyphenated_of(a.uuid)) + lit_source_key() + json_string(
        path_text(a.source),
    ) + lit_source_format_key() + json_string(a.source_format) + lit_native_format_key()
        + json_string(a.native_format) + lit_tags_key() + strings_array(a.tags) + seq![125u8]
}

/// The items of the asset array, comma separated.
pub open spec fn assets_inner(s: Seq<AssetV>) -> Seq<u8>
    decreases s.len(),
{
    if s.len() == 0 {
        Seq::empty()
    } else if s.len() == 1 {
        asset_text(s[0])
    } else {
        asset_text(s[0]) + seq![44u8] + assets_inner(s.skip(1))
    }
}

/// The remaining records of the asset array, each with its leading comma.
pub open spec fn comma_assets(s: Seq<AssetV>) -> Seq<u8>
    decreases s.len(),
{
    if s.len() == 0 {
        Seq::empty()
    } else {
        seq![44u8] + asset_text(s[0]) + comma_assets(s.skip(1))
    }
}

/// Extending the encoded prefix by one record appends a comma and the
/// record.
pub proof fn lemma_assets_inner_take(s: Seq<AssetV>, i: int)
    requires
        0 <= i < s.len(),
    ensures
        assets_inner(s.take(i + 1)) == if i == 0 {
            asset_text(s[0])
        } else {
            assets_inner(s.take(i)) + seq![44u8] + asset_text(s[i])
        },
    decreases i,
{
    if i == 0 {
        assert(s.take(1)[0] == s[0]);
    } else {
        lemma_assets_inner_take(s.skip(1), i - 1);
        assert(s.take(i + 1)[0] == s[0]);
        assert(s.take(i + 1).skip(1) =~= s.skip(1).take(i));
        assert(s.take(i).skip(1) =~= s.skip(1).take(i - 1));
        assert(s.take(i)[0] == s[0]);
        assert(s.skip(1)[i - 1] == s[i]);
        if i == 1 {
            assert(assets_inner(s.take(2)) == asset_text(s[0]) + seq![44u8] + assets_inner(
                s.take(2).skip(1),
            ));
            assert(assets_inner(s.skip(1).take(1)) == asset_text(s[1]));
            assert(assets_inner(s.take(1)) == asset_text(s[0]));
        } else {
            assert(assets_inner(s.take(i + 1)) == asset_text(s[0]) + seq![44u8] + assets_inner(
                s.skip(1).take(i),
            ));
            assert(assets_inner(s.take(i)) == asset_text(s[0]) + seq![44u8] + assets_inner(
                s.skip(1).take(i - 1),
            ));
            assert(asset_text(s[0]) + seq![44u8] + (assets_inner(s.skip(1).take(i - 1))
                + seq![44u8] + asset_text(s[i])) =~= (asset_text(s[0]) + seq![44u8] + assets_inner(
                s.skip(1).take(i - 1),
            )) + seq![44u8] + asset_text(s[i]));
        }
    }
}

/// The encoded records split as a parsed prefix and the comma-led rest.
pub proof fn lemma_assets_inner_split(s: Seq<AssetV>, k: int)
    requires
        1 <= k <= s.len(),
    ensures
        assets_inner(s) == assets_inner(s.take(k)) + comma_assets(s.skip(k)),
    decreases s.len() - k,
{
    if k == s.len() {
        assert(s.take(k) =~= s);
        assert(comma_assets(s.skip(k)) == Seq::<u8>::empty());
        assert(assets_inner(s) + Seq::<u8>::empty() =~= assets_inner(s));
    } else {
        lemma_assets_inner_split(s, k + 1);
        lemma_assets_inner_take(s, k);
        assert(s.skip(k)[0] == s[k]);
        assert(s.skip(k).skip(1) =~= s.skip(k + 1));
        assert(comma_assets(s.skip(k)) == seq![44u8] + asset_text(s[k]) + comma_assets(
            s.skip(k + 1),
        ));
        if k == 0 {
        } else {
            assert((assets_inner(s.take(k)) + seq![44u8] + asset_text(s[k])) + comma_assets(
                s.skip(k + 1),
            ) =~= assets_inner(s.take(k)) + (seq![44u8] + asset_text(s[k]) + comma_assets(
                s.skip(k + 1),
            )));
        }
    }
}

/// A JSON array of asset records.
pub open spec fn assets_array(s: Seq<AssetV>) -> Seq<u8> {
    seq![91u8] + assets_inner(s) + seq![93u8]
}

/// The whole manifest document.
pub open spec fn manifest_text(dirs: Seq<Seq<Seq<u8>>>, assets: Seq<AssetV>) -> Seq<u8> {
    lit_dirs_key() + strings_array(dirs.map_values(|p: Seq<Seq<u8>>| path_text(p)))
        + lit_assets_key() + assets_array(assets) + seq![125u8]
}

/// Append the text of one asset record.
pub fn push_asset(out: &mut Vec<u8>, a: &Asset)
    ensures
        final(out)@ == old(out)@ + asset_text(a@),
{
    let mut l = uuid_key_bytes();
    out.append(&mut l);
    let h = hyphenated(a.uuid);
    push_string(out, &h);
    let mut l = source_key_bytes();
    out.append(&mut l);
    let pb = path_bytes(&a.source);
    push_string(out, &pb);
    let mut l = source_format_key_bytes();
    out.append(&mut l);
    push_string(out, &a.source_format);
    let mut l = native_format_key_bytes();
    out.append(&mut l);
    push_string(out, &a.native_format);
    let mut l = tags_key_bytes();
    out.append(&mut l);
    push_strings_array(out, &a.tags);
    out.push(125u8);
    proof {
        assert(out@ =~= old(out)@ + asset_text(a@));
    }
}

impl Treasury {
    /// Write the manifest: the canonical JSON document holding the
    /// importer directories and every asset record, in catalog order.
    /// The caller writes the bytes to the manifest file below the
    /// engine's private directory.
    pub fn save(&self) -> (r: Vec<u8>)
        ensures
            r@ == manifest_text(self.dirs_v(), self.assets_v()),
    {
        let mut out: Vec<u8> = Vec::new();
        let mut l = dirs_key_bytes();
        out.append(&mut l);
        let mut dir_texts: Vec<Vec<u8>> = Vec::new();
        let mut i: usize = 0;
        while i < self.importers_dirs.len()
            invariant
                i <= self.importers_dirs.len(),
                dir_texts.deep_view() == self.dirs_v().map_values(
                    |p: Seq<Seq<u8>>| path_text(p),
                ).take(i as int),
            decreases self.importers_dirs.len() - i,
        {
            let ghost pre = dir_texts.deep_view();
            let ghost prev = dir_texts@;
            let t = path_bytes(&self.importers_dirs[i]);
            dir_texts.push(t);
            proof {
                let m = self.dirs_v().map_values(|p: Seq<Seq<u8>>| path_text(p));
                assert(dir_texts@.len() == prev.len() + 1);
                assert forall|k: int| 0 <= k < pre.len() implies dir_texts.deep_view()[k]
                    == pre[k] by {
                    assert(dir_texts@[k] == prev[k]);
                }
                assert(self.importers_dirs@[i as int]@ == self.dirs_v()[i as int]);
                assert(dir_texts.deep_view()[i as int] == path_text(self.dirs_v()[i as int]));
                assert(dir_texts.deep_view() =~= m.take(i + 1));
            }
            i = i + 1;
        }
        proof {
            let m = self.dirs_v().map_values(|p: Seq<Seq<u8>>| path_text(p));
            assert(m.take(m.len() as int) =~= m);
        }
        push_strings_array(&mut out, &dir_texts);
        let mut l = assets_key_bytes();
        out.append(&mut l);
        out.push(91u8);
        let ghost mid = out@;
        let mut j: usize = 0;
        while j < self.assets.len()
            invariant
                j <= self.assets.len(),
                out@ == mid + assets_inner(self.assets_v().take(j as int)),
            decreases self.assets.len() - j,
        {
            if j > 0 {
                out.push(44u8);
            }
            push_asset(&mut out, &self.assets[j]);
            proof {
                let av = self.assets_v();
                lemma_assets_inner_take(av, j as int);
                assert(av[j as int] == self.assets@[j as int]@);
                if j == 0 {
                    assert(out@ =~= mid + assets_inner(av.take(1)));
                } else {
                    assert(out@ =~= mid + assets_inner(av.take(j + 1)));
                }
            }
            j = j + 1;
        }
        out.push(93u8);
        out.push(125u8);
        proof {
            assert(self.assets_v().take(self.assets_v().len() as int) =~= self.assets_v());
            assert(out@ =~= manifest_text(self.dirs_v(), self.assets_v()));
        }
        out
    }
}

/// A range of the input splits at any midpoint.
pub proof fn lemma_subrange_concat(s: Seq<u8>, a: int, b: int, c: int)
    requires
        0 <= a <= b <= c <= s.len(),
    ensures
        s.subrange(a, c) == s.subrange(a, b) + s.subrange(b, c),
{
    assert(s.subrange(a, c) =~= s.subrange(a, b) + s.subrange(b, c));
}

/// Match a byte pattern at a position.
pub fn expect_bytes(s: &Vec<u8>, pos: usize, pat: &Vec<u8>) -> (r: Option<usize>)
    requires
        pos <= s.len(),
    ensures
        r matches Option::Some(p2) ==> pos <= p2 <= s@.len() && p2 == pos + pat@.len()
            && s@.subrange(pos as int, p2 as int) == pat@,
        forall|rest: Seq<u8>|
            s@.skip(pos as int) == pat@ + rest ==> r == Option::Some((pos + pat.len()) as usize),
{
    if s.len() - pos < pat.len() {
        proof {
            assert forall|rest: Seq<u8>| s@.skip(pos as int) != pat@ + rest by {
                assert((pat@ + rest).len() >= pat@.len());
                assert(s@.skip(pos as int).len() == s@.len() - pos);
            }
        }
        return None;
    }
    let mut i: usize = 0;
    while i < pat.len()
        invariant
            i <= pat.len(),
            pos <= s.len(),
            s.len() - pos >= pat.len(),
            forall|k: int| 0 <= k < i ==> s@[pos + k] == pat@[k],
        decreases pat.len() - i,
    {
        if s[pos + i] != pat[i] {
            proof {
                assert forall|rest: Seq<u8>| s@.skip(pos as int) != pat@ + rest by {
                    if s@.skip(pos as int) == pat@ + rest {
                        assert(s@.skip(pos as int)[i as int] == pat@[i as int]);
                        assert(s@.skip(pos as int)[i as int] == s@[pos + i]);
                    }
                }
            }
            return None;
        }
        i = i + 1;
    }
    proof {
        assert(s@.subrange(pos as int, pos + pat@.len()) =~= pat@);
    }
    Some(pos + pat.len())
}

/// Read a quoted string at a position, up to the next quote.
pub fn parse_string(s: &Vec<u8>, pos: usize) -> (r: Option<(Vec<u8>, usize)>)
    requires
        pos <= s.len(),
    ensures
        r matches Option::Some(pair) ==> pos < pair.1 <= s@.len() && s@.subrange(
            pos as int,
            pair.1 as int,
        ) == json_string(pair.0@),
        forall|c: Seq<u8>, rest: Seq<u8>|
            jsonable(c) && s@.skip(pos as int) == json_string(c) + rest ==> (r matches Option::Some(
                pair,
            ) && pair.0@ == c && pair.1 == pos + 2 + c.len()),
{
    if pos >= s.len() || s[pos] != 34 {
        proof {
            assert forall|c: Seq<u8>, rest: Seq<u8>|
                !(jsonable(c) && s@.skip(pos as int) == json_string(c) + rest) by {
                if s@.skip(pos as int) == json_string(c) + rest {
                    assert(s@.skip(pos as int).len() == s@.len() - pos);
                    assert(s@.skip(pos as int).len() >= 2);
                    assert(pos < s@.len());
                    assert(s@.skip(pos as int)[0] == 34u8);
                    assert(s@.skip(pos as int)[0] == s@[pos as int]);
                }
            }
        }
        return None;
    }
    let mut j: usize = pos + 1;
    while j < s.len() && s[j] != 34
        invariant
            pos + 1 <= j <= s.len(),
            forall|k: int| pos + 1 <= k < j ==> s@[k] != 34,
        decreases s.len() - j,
    {
        j = j + 1;
    }
    if j == s.len() {
        proof {
            assert forall|c: Seq<u8>, rest: Seq<u8>|
                !(jsonable(c) && s@.skip(pos as int) == json_string(c) + rest) by {
                if jsonable(c) && s@.skip(pos as int) == json_string(c) + rest {
                    assert(s@.skip(pos as int).len() == s@.len() - pos);
                    assert(pos + 1 + c.len() < s@.len());
                    assert(s@.skip(pos as int)[1 + c.len() as int] == 34u8);
                    assert(s@.skip(pos as int)[1 + c.len() as int] == s@[pos + 1 + c.len()]);
                    assert(s@[pos + 1 + c.len()] != 34);
                }
            }
        }
        return None;
    }
    let mut c: Vec<u8> = Vec::new();
    let mut i: usize = pos + 1;
    while i < j
        invariant
            pos + 1 <= i <= j,
            j < s@.len(),
            c@ == s@.subrange(pos + 1, i as int),
        decreases j - i,
    {
        c.push(s[i]);
        proof {
            assert(c@ =~= s@.subrange(pos + 1, i + 1));
        }
        i = i + 1;
    }
    proof {
        assert(s@[j as int] == 34);
        assert forall|cc: Seq<u8>, rest: Seq<u8>|
            jsonable(cc) && s@.skip(pos as int) == json_string(cc) + rest implies c@ == cc && j + 1
            == pos + 2 + cc.len() by {
            assert(s@.skip(pos as int).len() == s@.len() - pos);
            assert(pos + 1 + cc.len() < s@.len());
            assert(s@.skip(pos as int)[1 + cc.len() as int] == 34u8);
            assert(s@.skip(pos as int)[1 + cc.len() as int] == s@[pos + 1 + cc.len()]);
            if j < pos + 1 + cc.len() {
                assert(s@.skip(pos as int)[j - pos] == cc[j - pos - 1]);
                assert(s@.skip(pos as int)[j - pos] == s@[j as int]);
                assert(cc[j - pos - 1] != 34);
            }
            if j > pos + 1 + cc.len() {
                assert(s@[pos + 1 + cc.len()] != 34);
            }
            assert(j == pos + 1 + cc.len());
            assert forall|k: int| 0 <= k < cc.len() implies c@[k] == cc[k] by {
                assert(c@[k] == s@[pos + 1 + k]);
                assert(s@.skip(pos as int)[1 + k] == cc[k]);
                assert(s@.skip(pos as int)[1 + k] == s@[pos + 1 + k]);
            }
            assert(c@ =~= cc);
        }
        assert(s@.subrange(pos as int, j + 1) =~= json_string(c@));
    }
    Some((c, j + 1))
}

/// The position of the first separator, or the length if there is none.
pub open spec fn first_slash(b: Seq<u8>) -> nat
    decreases b.len(),
{
    if b.len() == 0 {
        0
    } else if b[0] == 47 {
        0
    } else {
        1 + first_slash(b.skip(1))
    }
}

pub proof fn lemma_first_slash(b: Seq<u8>)
    ensures
        0 <= first_slash(b) <= b.len(),
        first_slash(b) < b.len() ==> b[first_slash(b) as int] == 47,
        forall|i: int| 0 <= i < first_slash(b) ==> b[i] != 47,
    decreases b.len(),
{
    if b.len() > 0 && b[0] != 47 {
        lemma_first_slash(b.skip(1));
        assert forall|i: int| 0 <= i < first_slash(b) implies b[i] != 47 by {
            if i > 0 {
                assert(b.skip(1)[i - 1] != 47);
            }
        }
    }
}

/// A separator-free prefix of the given length pins down `first_slash`.
pub proof fn lemma_first_slash_char(b: Seq<u8>, k: int)
    requires
        0 <= k <= b.len(),
        forall|i: int| 0 <= i < k ==> b[i] != 47,
        k == b.len() || b[k] == 47,
    ensures
        k == first_slash(b),
    decreases b.len(),
{
    if b.len() == 0 {
    } else if k == 0 {
    } else {
        lemma_first_slash_char(b.skip(1), k - 1);
    }
}

/// Text split at its separators.
pub open spec fn split_spec(b: Seq<u8>) -> Seq<Seq<u8>>
    decreases b.len(),
{
    if b.len() == 0 {
        Seq::empty()
    } else {
        let k = first_slash(b);
        if k >= b.len() {
            seq![b]
        } else {
            seq![b.take(k as int)] + split_spec(b.skip(k as int + 1))
        }
    }
}

/// Splitting after a separator-free component takes it off the front.
pub proof fn lemma_split_sep(c: Seq<u8>, r: Seq<u8>)
    requires
        forall|i: int| 0 <= i < c.len() ==> c[i] != 47,
    ensures
        split_spec(c + seq![47u8] + r) == seq![c] + split_spec(r),
{
    let b = c + seq![47u8] + r;
    assert forall|i: int| 0 <= i < c.len() implies b[i] != 47 by {
        assert(b[i] == c[i]);
    }
    assert(b[c.len() as int] == 47);
    lemma_first_slash_char(b, c.len() as int);
    assert(b.take(c.len() as int) =~= c);
    assert(b.skip(c.len() as int + 1) =~= r);
}

/// Splitting the text of a path with nonempty, separator-free
/// components recovers the components.
pub proof fn lemma_split_path_text(p: Seq<Seq<u8>>)
    requires
        wf_rel_seq(p),
    ensures
        split_spec(path_text(p)) == p,
    decreases p.len(),
{
    if p.len() == 0 {
        assert(split_spec(path_text(p)) =~= p);
    } else if p.len() == 1 {
        assert(wf_rel_component(p[0]));
        lemma_first_slash_char(p[0], p[0].len() as int);
        assert(split_spec(path_text(p)) =~= p);
    } else {
        assert(wf_rel_component(p[0]));
        assert forall|i: int| 0 <= i < p.skip(1).len() implies wf_rel_component(
            #[trigger] p.skip(1)[i],
        ) by {
            assert(p.skip(1)[i] == p[i + 1]);
        }
        lemma_split_path_text(p.skip(1));
        lemma_split_sep(p[0], path_text(p.skip(1)));
        assert(seq![p[0]] + p.skip(1) =~= p);
    }
}

/// Split text into components at its separators.
pub fn split_path(b: &Vec<u8>) -> (r: Vec<Vec<u8>>)
    ensures
        r.deep_view() == split_spec(b@),
{
    let mut out: Vec<Vec<u8>> = Vec::new();
    let mut cur: Vec<u8> = Vec::new();
    let mut i: usize = 0;
    proof {
        assert(cur@ + b@.skip(0) =~= b@);
        assert(out.deep_view() =~= Seq::<Seq<u8>>::empty());
        assert(Seq::<Seq<u8>>::empty() + split_spec(b@) =~= split_spec(b@));
    }
    while i < b.len()
        invariant
            i <= b.len(),
            forall|k: int| 0 <= k < cur@.len() ==> cur@[k] != 47,
            out.deep_view() + split_spec(cur@ + b@.skip(i as int)) == split_spec(b@),
        decreases b.len() - i,
    {
        let ghost pre = out.deep_view();
        let ghost prev = out@;
        let ghost curv = cur@;
        if b[i] == 47 {
            proof {
                assert(curv + b@.skip(i as int) =~= (curv + seq![47u8]) + b@.skip(i + 1));
                assert((curv + seq![47u8]) + b@.skip(i + 1) =~= curv + seq![47u8] + b@.skip(i + 1));
                lemma_split_sep(curv, b@.skip(i + 1));
            }
            out.push(cur);
            cur = Vec::new();
            proof {
                assert(out@.len() == prev.len() + 1);
                assert forall|m: int| 0 <= m < pre.len() implies out.deep_view()[m] == pre[m] by {
                    assert(out@[m] == prev[m]);
                }
                assert(out.deep_view()[pre.len() as int] == curv);
                assert(out.deep_view() =~= pre.push(curv));
                assert(pre.push(curv) + split_spec(b@.skip(i + 1)) =~= pre + (seq![curv]
                    + split_spec(b@.skip(i + 1))));
                assert(cur@ + b@.skip(i + 1) =~= b@.skip(i + 1));
            }
        } else {
            cur.push(b[i]);
            proof {
                assert(cur@ + b@.skip(i + 1) =~= curv + b@.skip(i as int));
            }
        }
        i = i + 1;
    }
    proof {
        assert(cur@ + b@.skip(b@.len() as int) =~= cur@);
    }
    if cur.len() > 0 {
        let ghost pre = out.deep_view();
        let ghost prev = out@;
        let ghost curv = cur@;
        proof {
            lemma_first_slash_char(curv, curv.len() as int);
            assert(split_spec(curv) =~= seq![curv]);
        }
        out.push(cur);
        proof {
            assert(out@.len() == prev.len() + 1);
            assert forall|m: int| 0 <= m < pre.len() implies out.deep_view()[m] == pre[m] by {
                assert(out@[m] == prev[m]);
            }
            assert(out.deep_view()[pre.len() as int] == curv);
            assert(out.deep_view() =~= pre.push(curv));
            assert(pre.push(curv) =~= pre + seq![curv]);
            assert(pre + split_spec(curv) =~= pre + seq![curv]);
        }
    } else {
        proof {
            assert(split_spec(cur@) =~= Seq::<Seq<u8>>::empty());
            assert(out.deep_view() + Seq::<Seq<u8>>::empty() =~= out.deep_view());
        }
    }
    out
}

/// Consuming a known prefix advances the remaining suffix.
pub proof fn lemma_skip_shift(s: Seq<u8>, p: int, x: Seq<u8>, y: Seq<u8>)
    requires
        0 <= p <= s.len(),
        s.skip(p) == x + y,
    ensures
        p + x.len() <= s.len(),
        s.skip(p + x.len() as int) == y,
{
    assert(s.skip(p).len() == s.len() - p);
    assert forall|i: int| 0 <= i < y.len() implies s.skip(p + x.len() as int)[i] == y[i] by {
        assert(s.skip(p)[x.len() + i] == y[i]);
        assert(s.skip(p)[x.len() + i] == s[p + x.len() + i]);
        assert(s.skip(p + x.len() as int)[i] == s[p + x.len() + i]);
    }
    assert(s.skip(p + x.len() as int) =~= y);
}

/// Read a string array at a position: exactly the canonical form the
/// writer emits.
pub fn parse_strings_array(s: &Vec<u8>, pos: usize) -> (r: Option<(Vec<Vec<u8>>, usize)>)
    requires
        pos <= s.len(),
    ensures
        r matches Option::Some(pair) ==> pos < pair.1 <= s@.len() && s@.subrange(
            pos as int,
            pair.1 as int,
        ) == strings_array(pair.0.deep_view()),
        forall|items: Seq<Seq<u8>>, rest: Seq<u8>|
            all_jsonable(items) && s@.skip(pos as int) == strings_array(items) + rest ==> (
            r matches Option::Some(pair) && pair.0.deep_view() == items && pair.1 == pos
                + strings_array(items).len()),
{
    if pos >= s.len() || s[pos] != 91 {
        proof {
            assert forall|items: Seq<Seq<u8>>, rest: Seq<u8>|
                !(all_jsonable(items) && s@.skip(pos as int) == strings_array(items) + rest) by {
                if s@.skip(pos as int) == strings_array(items) + rest {
                    assert(s@.skip(pos as int).len() == s@.len() - pos);
                    assert(strings_array(items).len() >= 2);
                    assert(pos < s@.len());
                    assert(s@.skip(pos as int)[0] == 91u8);
                    assert(s@.skip(pos as int)[0] == s@[pos as int]);
                }
            }
        }
        return None;
    }
    if pos + 1 < s.len() && s[pos + 1] == 93 {
        let out: Vec<Vec<u8>> = Vec::new();
        proof {
            assert forall|items: Seq<Seq<u8>>, rest: Seq<u8>|
                all_jsonable(items) && s@.skip(pos as int) == strings_array(items)
                    + rest implies out.deep_view() == items && pos + 2 == pos + strings_array(
                items,
            ).len() by {
                if items.len() > 0 {
                    assert(strings_inner(items).len() >= 2);
                    assert(strings_inner(items)[0] == json_string(items[0])[0]);
                    assert(strings_array(items)[1] == 34u8);
                    assert(s@.skip(pos as int)[1] == 34u8);
                    assert(s@.skip(pos as int)[1] == s@[pos + 1]);
                }
                assert(items.len() == 0);
                assert(out.deep_view() =~= items);
                assert(strings_array(items).len() == 2);
            }
            assert(out.deep_view() =~= Seq::<Seq<u8>>::empty());
            assert(strings_inner(out.deep_view()) == Seq::<u8>::empty());
            assert(s@.subrange(pos as int, pos + 2) =~= strings_array(out.deep_view()));
        }
        return Some((out, pos + 2));
    }
    let ghost whole = s@.skip(pos as int);
    let first = match parse_string(s, pos + 1) {
        Option::Some(p) => p,
        Option::None => {
            proof {
                assert forall|items: Seq<Seq<u8>>, rest: Seq<u8>|
                    !(all_jsonable(items) && s@.skip(pos as int) == strings_array(items)
                        + rest) by {
                    if all_jsonable(items) && s@.skip(pos as int) == strings_array(items) + rest {
                        assert(s@.skip(pos as int).len() == s@.len() - pos);
                        if items.len() == 0 {
                            assert(strings_array(items).len() == 2);
                            assert(s@.skip(pos as int)[1] == 93u8);
                            assert(s@.skip(pos as int)[1] == s@[pos + 1]);
                            assert(pos + 1 < s@.len());
                        } else {
                            lemma_strings_inner_split(items, 1);
                            assert(strings_inner(items.take(1)) == json_string(items[0]));
                            assert(strings_array(items) + rest =~= seq![91u8] + (json_string(
                                items[0],
                            ) + (comma_strings(items.skip(1)) + seq![93u8] + rest)));
                            lemma_skip_shift(
                                s@,
                                pos as int,
                                seq![91u8],
                                json_string(items[0]) + (comma_strings(items.skip(1)) + seq![93u8]
                                    + rest),
                            );
                            assert(jsonable(items[0]));
                        }
                    }
                }
            }
            return None;
        },
    };
    let mut out: Vec<Vec<u8>> = Vec::new();
    out.push(first.0);
    let mut cur: usize = first.1;
    proof {
        assert forall|items: Seq<Seq<u8>>, rest: Seq<u8>|
            all_jsonable(items) && s@.skip(pos as int) == strings_array(items)
                + rest implies out.deep_view().len() <= items.len() && out.deep_view()
            == items.take(out.deep_view().len() as int) && s@.skip(cur as int) == comma_strings(
            items.skip(out.deep_view().len() as int),
        ) + seq![93u8] + rest by {
            assert(s@.skip(pos as int).len() == s@.len() - pos);
            if items.len() == 0 {
                assert(strings_array(items).len() == 2);
                assert(s@.skip(pos as int)[1] == 93u8);
                assert(s@.skip(pos as int)[1] == s@[pos + 1]);
                assert(pos + 1 < s@.len());
                assert(false);
            }
            lemma_strings_inner_split(items, 1);
            assert(strings_inner(items.take(1)) == json_string(items[0]));
            assert(strings_array(items) + rest =~= seq![91u8] + (json_string(items[0])
                + (comma_strings(items.skip(1)) + seq![93u8] + rest)));
            lemma_skip_shift(
                s@,
                pos as int,
                seq![91u8],
                json_string(items[0]) + (comma_strings(items.skip(1)) + seq![93u8] + rest),
            );
            assert(jsonable(items[0]));
            assert(first.0@ == items[0]);
            assert(cur == pos + 1 + 2 + items[0].len());
            lemma_skip_shift(
                s@,
                pos + 1,
                json_string(items[0]),
                comma_strings(items.skip(1)) + seq![93u8] + rest,
            );
            assert(out.deep_view() =~= items.take(1));
        }
        assert(out.deep_view() =~= Seq::<Seq<u8>>::empty().push(first.0@));
        assert(out.deep_view().len() == 1);
        assert(strings_inner(out.deep_view()) == json_string(out.deep_view()[0]));
        assert(s@.subrange(pos as int, pos + 1) =~= seq![91u8]);
        lemma_subrange_concat(s@, pos as int, pos + 1, cur as int);
        assert(s@.subrange(pos as int, cur as int) =~= seq![91u8] + strings_inner(
            out.deep_view(),
        ));
    }
    while cur < s.len() && s[cur] == 44
        invariant
            pos < cur <= s.len(),
            out.deep_view().len() >= 1,
            s@.subrange(pos as int, cur as int) == seq![91u8] + strings_inner(out.deep_view()),
            forall|items: Seq<Seq<u8>>, rest: Seq<u8>|
                all_jsonable(items) && s@.skip(pos as int) == strings_array(items) + rest ==> (
                out.deep_view().len() <= items.len() && out.deep_view() == items.take(
                    out.deep_view().len() as int,
                ) && s@.skip(cur as int) == comma_strings(items.skip(out.deep_view().len() as int))
                    + seq![93u8] + rest),
        decreases s.len() - cur,
    {
        let ghost k = out.deep_view().len() as int;
        let ghost precur = cur as int;
        let item = match parse_string(s, cur + 1) {
            Option::Some(p) => p,
            Option::None => {
                proof {
                    assert forall|items: Seq<Seq<u8>>, rest: Seq<u8>|
                        !(all_jsonable(items) && s@.skip(pos as int) == strings_array(items)
                            + rest) by {
                        if all_jsonable(items) && s@.skip(pos as int) == strings_array(items)
                            + rest {
                            assert(s@.skip(cur as int) == comma_strings(items.skip(k)) + seq![93u8]
                                + rest);
                            if k == items.len() {
                                assert(comma_strings(items.skip(k)).len() == 0);
                                assert(s@.skip(cur as int)[0] == 93u8);
                                assert(s@.skip(cur as int)[0] == s@[cur as int]);
                            } else {
                                assert(items.skip(k)[0] == items[k]);
                                assert(items.skip(k).skip(1) =~= items.skip(k + 1));
                                assert(comma_strings(items.skip(k)) + seq![93u8] + rest
                                    =~= seq![44u8] + (json_string(items[k]) + (comma_strings(
                                    items.skip(k + 1),
                                ) + seq![93u8] + rest)));
                                lemma_skip_shift(
                                    s@,
                                    cur as int,
                                    seq![44u8],
                                    json_string(items[k]) + (comma_strings(items.skip(k + 1))
                                        + seq![93u8] + rest),
                                );
                                assert(jsonable(items[k]));
                            }
                        }
                    }
                }
                return None;
            },
        };
        let ghost pre = out.deep_view();
        let ghost prev = out@;
        out.push(item.0);
        let oldcur = cur;
        cur = item.1;
        proof {
            assert(out@.len() == prev.len() + 1);
            assert forall|m: int| 0 <= m < pre.len() implies out.deep_view()[m] == pre[m] by {
                assert(out@[m] == prev[m]);
            }
            assert(out.deep_view()[pre.len() as int] == item.0@);
            assert forall|items: Seq<Seq<u8>>, rest: Seq<u8>|
                all_jsonable(items) && s@.skip(pos as int) == strings_array(items)
                    + rest implies out.deep_view().len() <= items.len() && out.deep_view()
                == items.take(out.deep_view().len() as int) && s@.skip(cur as int)
                == comma_strings(items.skip(out.deep_view().len() as int)) + seq![93u8] + rest by {
                assert(s@.skip(precur) == comma_strings(items.skip(k)) + seq![93u8] + rest);
                if k == items.len() {
                    assert(comma_strings(items.skip(k)).len() == 0);
                    assert(s@.skip(precur)[0] == 93u8);
                    assert(s@.skip(precur)[0] == s@[precur]);
                    assert(false);
                }
                assert(items.skip(k)[0] == items[k]);
                assert(items.skip(k).skip(1) =~= items.skip(k + 1));
                assert(comma_strings(items.skip(k)) + seq![93u8] + rest =~= seq![44u8] + (
                json_string(items[k]) + (comma_strings(items.skip(k + 1)) + seq![93u8] + rest)));
                lemma_skip_shift(
                    s@,
                    precur,
                    seq![44u8],
                    json_string(items[k]) + (comma_strings(items.skip(k + 1)) + seq![93u8] + rest),
                );
                assert(jsonable(items[k]));
                assert(item.0@ == items[k]);
                assert(cur == precur + 1 + 2 + items[k].len());
                lemma_skip_shift(
                    s@,
                    precur + 1,
                    json_string(items[k]),
                    comma_strings(items.skip(k + 1)) + seq![93u8] + rest,
                );
                assert(out.deep_view() =~= items.take(k + 1));
            }
            assert(out.deep_view() =~= pre.push(item.0@));
            lemma_strings_inner_take(out.deep_view(), k);
            assert(out.deep_view().take(k) =~= pre);
            assert(out.deep_view().take(k + 1) =~= out.deep_view());
            assert(s@.subrange(precur, precur + 1) =~= seq![44u8]);
            lemma_subrange_concat(s@, pos as int, precur, precur + 1);
            lemma_subrange_concat(s@, pos as int, precur + 1, cur as int);
            assert(s@.subrange(precur + 1, cur as int) == json_string(item.0@));
            assert(s@.subrange(pos as int, cur as int) =~= seq![91u8] + strings_inner(
                out.deep_view(),
            ));
        }
    }
    if cur < s.len() && s[cur] == 93 {
        proof {
            assert forall|items: Seq<Seq<u8>>, rest: Seq<u8>|
                all_jsonable(items) && s@.skip(pos as int) == strings_array(items)
                    + rest implies out.deep_view() == items && cur + 1 == pos + strings_array(
                items,
            ).len() by {
                let k = out.deep_view().len() as int;
                assert(s@.skip(cur as int) == comma_strings(items.skip(k)) + seq![93u8] + rest);
                if k < items.len() {
                    assert(items.skip(k)[0] == items[k]);
                    assert(comma_strings(items.skip(k))[0] == 44u8);
                    assert(s@.skip(cur as int)[0] == 44u8);
                    assert(s@.skip(cur as int)[0] == s@[cur as int]);
                    assert(false);
                }
                assert(k == items.len());
                assert(items.take(k) =~= items);
                assert(comma_strings(items.skip(k)).len() == 0);
                assert(s@.skip(cur as int).len() == s@.len() - cur);
                assert(s@.skip(pos as int).len() == s@.len() - pos);
                assert(s@.skip(cur as int) =~= seq![93u8] + rest);
            }
        }
        proof {
            assert(s@.subrange(cur as int, cur + 1) =~= seq![93u8]);
            lemma_subrange_concat(s@, pos as int, cur as int, cur + 1);
            assert(s@.subrange(pos as int, cur + 1) =~= strings_array(out.deep_view()));
        }
        return Some((out, cur + 1));
    }
    proof {
        assert forall|items: Seq<Seq<u8>>, rest: Seq<u8>|
            !(all_jsonable(items) && s@.skip(pos as int) == strings_array(items) + rest) by {
            if all_jsonable(items) && s@.skip(pos as int) == strings_array(items) + rest {
                let k = out.deep_view().len() as int;
                assert(s@.skip(cur as int) == comma_strings(items.skip(k)) + seq![93u8] + rest);
                if k < items.len() {
                    assert(items.skip(k)[0] == items[k]);
                    assert(comma_strings(items.skip(k))[0] == 44u8);
                    assert(s@.skip(cur as int)[0] == 44u8);
                    assert(s@.skip(cur as int)[0] == s@[cur as int]);
                    assert(s@.skip(cur as int).len() >= 2);
                } else {
                    assert(comma_strings(items.skip(k)).len() == 0);
                    assert(s@.skip(cur as int)[0] == 93u8);
                    assert(s@.skip(cur as int)[0] == s@[cur as int]);
                    assert(s@.skip(cur as int).len() >= 1);
                }
            }
        }
    }
    None
}

/// The hyphenated form of an identifier may stand raw between quotes.
pub proof fn lemma_hyph_jsonable(u: u128)
    ensures
        jsonable(hyphenated_of(u)),
{
    assert forall|i: int| 0 <= i < hyphenated_of(u).len() implies hyphenated_of(u)[i] != 34
        && hyphenated_of(u)[i] != 92 && hyphenated_of(u)[i] >= 32 by {
        crate::ids::lemma_hyph_byte(u, i);
    }
}

/// A path whose components may stand raw between quotes renders to text
/// that may too.
pub proof fn lemma_path_text_jsonable(p: Seq<Seq<u8>>)
    requires
        all_jsonable(p),
    ensures
        jsonable(path_text(p)),
    decreases p.len(),
{
    if p.len() <= 1 {
    } else {
        assert(jsonable(p[0]));
        assert forall|i: int| 0 <= i < p.skip(1).len() implies jsonable(#[trigger] p.skip(1)[i]) by {
            assert(p.skip(1)[i] == p[i + 1]);
        }
        lemma_path_text_jsonable(p.skip(1));
        let t = path_text(p);
        assert forall|i: int| 0 <= i < t.len() implies t[i] != 34 && t[i] != 92 && t[i] >= 32 by {
            if i < p[0].len() {
                assert(t[i] == p[0][i]);
            } else if i == p[0].len() {
                assert(t[i] == 47u8);
            } else {
                assert(t[i] == path_text(p.skip(1))[i - p[0].len() - 1]);
            }
        }
    }
}

/// An asset record after parsing, before its absolute paths are
/// re-derived.
pub open spec fn strip_abs(a: AssetV) -> AssetV {
    AssetV { source_absolute: Seq::empty(), native_absolute: Seq::empty(), ..a }
}

/// A record the writer can put in canonical form: well-formed source
/// path and quotable text throughout.
pub open spec fn asset_encodable(a: AssetV) -> bool {
    &&& wf_rel_seq(a.source)
    &&& all_jsonable(a.source)
    &&& jsonable(a.source_format)
    &&& jsonable(a.native_format)
    &&& all_jsonable(a.tags)
}

/// Read one asset record at a position: exactly the canonical form the
/// writer emits.
#[verifier::rlimit(90)]
pub fn parse_asset(s: &Vec<u8>, pos: usize) -> (r: Option<(Asset, usize)>)
    requires
        pos <= s.len(),
    ensures
        r matches Option::Some(pair) ==> pos < pair.1 <= s@.len(),
        forall|a: AssetV, rest: Seq<u8>|
            asset_encodable(a) && s@.skip(pos as int) == asset_text(a) + rest ==> (
            r matches Option::Some(pair) && pair.0@ == strip_abs(a) && pair.1 == pos + asset_text(
                a,
            ).len()),
{
    let k1 = uuid_key_bytes();
    let p1 = match expect_bytes(s, pos, &k1) {
        Option::Some(p) => p,
        Option::None => {
            proof {
                assert forall|a: AssetV, rest: Seq<u8>|
                    !(asset_encodable(a) && s@.skip(pos as int) == asset_text(a) + rest) by {
                    if asset_encodable(a) && s@.skip(pos as int) == asset_text(a) + rest {
                        assert(asset_text(a) + rest =~= lit_uuid_key() + (json_string(
                            hyphenated_of(a.uuid),
                        ) + lit_source_key() + json_string(path_text(a.source))
                            + lit_source_format_key() + json_string(a.source_format)
                            + lit_native_format_key() + json_string(a.native_format)
                            + lit_tags_key() + strings_array(a.tags) + seq![125u8] + rest));
                    }
                }
            }
            return None;
        },
    };
    let u = match parse_string(s, p1) {
        Option::Some(pair) => pair,
        Option::None => {
            proof {
                assert forall|a: AssetV, rest: Seq<u8>|
                    !(asset_encodable(a) && s@.skip(pos as int) == asset_text(a) + rest) by {
                    if asset_encodable(a) && s@.skip(pos as int) == asset_text(a) + rest {
                        let tail1 = json_string(hyphenated_of(a.uuid)) + (lit_source_key()
                            + json_string(path_text(a.source)) + lit_source_format_key()
                            + json_string(a.source_format) + lit_native_format_key() + json_string(
                            a.native_format,
                        ) + lit_tags_key() + strings_array(a.tags) + seq![125u8] + rest);
                        assert(asset_text(a) + rest =~= lit_uuid_key() + tail1);
                        lemma_skip_shift(s@, pos as int, lit_uuid_key(), tail1);
                        lemma_hyph_jsonable(a.uuid);
                    }
                }
            }
            return None;
        },
    };
    let uuid = match crate::ids::parse_hyphenated(&u.0) {
        Option::Some(v) => v,
        Option::None => {
            proof {
                assert forall|a: AssetV, rest: Seq<u8>|
                    !(asset_encodable(a) && s@.skip(pos as int) == asset_text(a) + rest) by {
                    if asset_encodable(a) && s@.skip(pos as int) == asset_text(a) + rest {
                        let tail1 = json_string(hyphenated_of(a.uuid)) + (lit_source_key()
                            + json_string(path_text(a.source)) + lit_source_format_key()
                            + json_string(a.source_format) + lit_native_format_key() + json_string(
                            a.native_format,
                        ) + lit_tags_key() + strings_array(a.tags) + seq![125u8] + rest);
                        assert(asset_text(a) + rest =~= lit_uuid_key() + tail1);
                        lemma_skip_shift(s@, pos as int, lit_uuid_key(), tail1);
                        lemma_hyph_jsonable(a.uuid);
                        assert(u.0@ == hyphenated_of(a.uuid));
                    }
                }
            }
            return None;
        },
    };
    let k2 = source_key_bytes();
    let p2 = match expect_bytes(s, u.1, &k2) {
        Option::Some(p) => p,
        Option::None => {
            proof {
                assert forall|a: AssetV, rest: Seq<u8>|
                    !(asset_encodable(a) && s@.skip(pos as int) == asset_text(a) + rest) by {
                    if asset_encodable(a) && s@.skip(pos as int) == asset_text(a) + rest {
                        let tail1 = json_string(hyphenated_of(a.uuid)) + (lit_source_key()
                            + (json_string(path_text(a.source)) + lit_source_format_key()
                            + json_string(a.source_format) + lit_native_format_key() + json_string(
                            a.native_format,
                        ) + lit_tags_key() + strings_array(a.tags) + seq![125u8] + rest));
                        assert(asset_text(a) + rest =~= lit_uuid_key() + tail1);
                        lemma_skip_shift(s@, pos as int, lit_uuid_key(), tail1);
                        lemma_hyph_jsonable(a.uuid);
                        lemma_skip_shift(
                            s@,
                            pos + lit_uuid_key().len(),
                            json_string(hyphenated_of(a.uuid)),
                            lit_source_key() + (json_string(path_text(a.source))
                                + lit_source_format_key() + json_string(a.source_format)
                                + lit_native_format_key() + json_string(a.native_format)
                                + lit_tags_key() + strings_array(a.tags) + seq![125u8] + rest),
                        );
                    }
                }
            }
            return None;
        },
    };
    let src = match parse_string(s, p2) {
        Option::Some(pair) => pair,
        Option::None => {
            proof {
                assert forall|a: AssetV, rest: Seq<u8>|
                    !(asset_encodable(a) && s@.skip(pos as int) == asset_text(a) + rest) by {
                    if asset_encodable(a) && s@.skip(pos as int) == asset_text(a) + rest {
                        lemma_asset_steps(s@, pos as int, a, rest);
                    }
                }
            }
            return None;
        },
    };
    let comps = split_path(&src.0);
    let k3 = source_format_key_bytes();
    let p3 = match expect_bytes(s, src.1, &k3) {
        Option::Some(p) => p,
        Option::None => {
            proof {
                assert forall|a: AssetV, rest: Seq<u8>|
                    !(asset_encodable(a) && s@.skip(pos as int) == asset_text(a) + rest) by {
                    if asset_encodable(a) && s@.skip(pos as int) == asset_text(a) + rest {
                        lemma_asset_steps(s@, pos as int, a, rest);
                    }
                }
            }
            return None;
        },
    };
    let sf = match parse_string(s, p3) {
        Option::Some(pair) => pair,
        Option::None => {
            proof {
                assert forall|a: AssetV, rest: Seq<u8>|
                    !(asset_encodable(a) && s@.skip(pos as int) == asset_text(a) + rest) by {
                    if asset_encodable(a) && s@.skip(pos as int) == asset_text(a) + rest {
                        lemma_asset_steps(s@, pos as int, a, rest);
                    }
                }
            }
            return None;
        },
    };
    let k4 = native_format_key_bytes();
    let p4 = match expect_bytes(s, sf.1, &k4) {
        Option::Some(p) => p,
        Option::None => {
            proof {
                assert forall|a: AssetV, rest: Seq<u8>|
                    !(asset_encodable(a) && s@.skip(pos as int) == asset_text(a) + rest) by {
                    if asset_encodable(a) && s@.skip(pos as int) == asset_text(a) + rest {
                        lemma_asset_steps(s@, pos as int, a, rest);
                    }
                }
            }
            return None;
        },
    };
    let nf = match parse_string(s, p4) {
        Option::Some(pair) => pair,
        Option::None => {
            proof {
                assert forall|a: AssetV, rest: Seq<u8>|
                    !(asset_encodable(a) && s@.skip(pos as int) == asset_text(a) + rest) by {
                    if asset_encodable(a) && s@.skip(pos as int) == asset_text(a) + rest {
                        lemma_asset_steps(s@, pos as int, a, rest);
                    }
                }
            }
            return None;
        },
    };
    let k5 = tags_key_bytes();
    let p5 = match expect_bytes(s, nf.1, &k5) {
        Option::Some(p) => p,
        Option::None => {
            proof {
                assert forall|a: AssetV, rest: Seq<u8>|
                    !(asset_encodable(a) && s@.skip(pos as int) == asset_text(a) + rest) by {
                    if asset_encodable(a) && s@.skip(pos as int) == asset_text(a) + rest {
                        lemma_asset_steps(s@, pos as int, a, rest);
                    }
                }
            }
            return None;
        },
    };
    let tags = match parse_strings_array(s, p5) {
        Option::Some(pair) => pair,
        Option::None => {
            proof {
                assert forall|a: AssetV, rest: Seq<u8>|
                    !(asset_encodable(a) && s@.skip(pos as int) == asset_text(a) + rest) by {
                    if asset_encodable(a) && s@.skip(pos as int) == asset_text(a) + rest {
                        lemma_asset_steps(s@, pos as int, a, rest);
                    }
                }
            }
            return None;
        },
    };
    if tags.1 >= s.len() || s[tags.1] != 125 {
        proof {
            assert forall|a: AssetV, rest: Seq<u8>|
                    !(asset_encodable(a) && s@.skip(pos as int) == asset_text(a) + rest) by {
                if asset_encodable(a) && s@.skip(pos as int) == asset_text(a) + rest {
                    lemma_asset_steps(s@, pos as int, a, rest);
                    assert(s@.skip(tags.1 as int)[0] == 125u8);
                    assert(s@.skip(tags.1 as int)[0] == s@[tags.1 as int]);
                    assert(s@.skip(tags.1 as int).len() >= 1);
                }
            }
        }
        return None;
    }
    let asset = Asset {
        uuid,
        source: RelPath { components: comps },
        source_format: sf.0,
        native_format: nf.0,
        tags: tags.0,
        source_absolute: AbsPath { components: Vec::new() },
        native_absolute: AbsPath { components: Vec::new() },
    };
    proof {
        assert forall|a: AssetV, rest: Seq<u8>|
            asset_encodable(a) && s@.skip(pos as int) == asset_text(a) + rest implies asset@
            == strip_abs(a) && tags.1 + 1 == pos + asset_text(a).len() by {
            lemma_asset_steps(s@, pos as int, a, rest);
            assert(u.0@ == hyphenated_of(a.uuid));
            assert(uuid == a.uuid);
            assert(src.0@ == path_text(a.source));
            lemma_split_path_text(a.source);
            assert(comps.deep_view() == a.source);
            assert(sf.0@ == a.source_format);
            assert(nf.0@ == a.native_format);
            assert(tags.0.deep_view() == a.tags);
            assert(asset@.source_absolute =~= Seq::<Seq<u8>>::empty());
            assert(asset@.native_absolute =~= Seq::<Seq<u8>>::empty());
            assert(s@.skip(tags.1 as int) == seq![125u8] + rest);
            assert(s@.skip(tags.1 as int).len() == s@.len() - tags.1);
            assert(s@.skip(pos as int).len() == s@.len() - pos);
        }
    }
    Some((asset, tags.1 + 1))
}

/// The stepwise decomposition of an encoded record: what remains of the
/// input at each field boundary.
#[verifier::rlimit(60)]
pub proof fn lemma_asset_steps(s: Seq<u8>, pos: int, a: AssetV, rest: Seq<u8>)
    requires
        0 <= pos <= s.len(),
        asset_encodable(a),
        s.skip(pos) == asset_text(a) + rest,
    ensures
        jsonable(hyphenated_of(a.uuid)),
        jsonable(path_text(a.source)),
        s.skip(pos) == lit_uuid_key() + (json_string(hyphenated_of(a.uuid)) + (lit_source_key() + (
        json_string(path_text(a.source)) + (lit_source_format_key() + (json_string(
            a.source_format,
        ) + (lit_native_format_key() + (json_string(a.native_format) + (lit_tags_key() + (
        strings_array(a.tags) + (seq![125u8] + rest)))))))))),
        s.skip(pos + lit_uuid_key().len()) == json_string(hyphenated_of(a.uuid)) + (
        lit_source_key() + (json_string(path_text(a.source)) + (lit_source_format_key() + (
        json_string(a.source_format) + (lit_native_format_key() + (json_string(a.native_format)
            + (lit_tags_key() + (strings_array(a.tags) + (seq![125u8] + rest))))))))),
        s.skip(
            pos + lit_uuid_key().len() + json_string(hyphenated_of(a.uuid)).len(),
        ) == lit_source_key() + (json_string(path_text(a.source)) + (lit_source_format_key() + (
        json_string(a.source_format) + (lit_native_format_key() + (json_string(a.native_format)
            + (lit_tags_key() + (strings_array(a.tags) + (seq![125u8] + rest)))))))),
        s.skip(
            pos + lit_uuid_key().len() + json_string(hyphenated_of(a.uuid)).len()
                + lit_source_key().len(),
        ) == json_string(path_text(a.source)) + (lit_source_format_key() + (json_string(
            a.source_format,
        ) + (lit_native_format_key() + (json_string(a.native_format) + (lit_tags_key() + (
        strings_array(a.tags) + (seq![125u8] + rest))))))),
        s.skip(
            pos + lit_uuid_key().len() + json_string(hyphenated_of(a.uuid)).len()
                + lit_source_key().len() + json_string(path_text(a.source)).len(),
        ) == lit_source_format_key() + (json_string(a.source_format) + (lit_native_format_key() + (
        json_string(a.native_format) + (lit_tags_key() + (strings_array(a.tags) + (seq![125u8]
            + rest)))))),
        s.skip(
            pos + lit_uuid_key().len() + json_string(hyphenated_of(a.uuid)).len()
                + lit_source_key().len() + json_string(path_text(a.source)).len()
                + lit_source_format_key().len(),
        ) == json_string(a.source_format) + (lit_native_format_key() + (json_string(
            a.native_format,
        ) + (lit_tags_key() + (strings_array(a.tags) + (seq![125u8] + rest))))),
        s.skip(
            pos + lit_uuid_key().len() + json_string(hyphenated_of(a.uuid)).len()
                + lit_source_key().len() + json_string(path_text(a.source)).len()
                + lit_source_format_key().len() + json_string(a.source_format).len(),
        ) == lit_native_format_key() + (json_string(a.native_format) + (lit_tags_key() + (
        strings_array(a.tags) + (seq![125u8] + rest)))),
        s.skip(
            pos + lit_uuid_key().len() + json_string(hyphenated_of(a.uuid)).len()
                + lit_source_key().len() + json_string(path_text(a.source)).len()
                + lit_source_format_key().len() + json_string(a.source_format).len()
                + lit_native_format_key().len(),
        ) == json_string(a.native_format) + (lit_tags_key() + (strings_array(a.tags) + (
        seq![125u8] + rest))),
        s.skip(
            pos + lit_uuid_key().len() + json_string(hyphenated_of(a.uuid)).len()
                + lit_source_key().len() + json_string(path_text(a.source)).len()
                + lit_source_format_key().len() + json_string(a.source_format).len()
                + lit_native_format_key().len() + json_string(a.native_format).len(),
        ) == lit_tags_key() + (strings_array(a.tags) + (seq![125u8] + rest)),
        s.skip(
            pos + lit_uuid_key().len() + json_string(hyphenated_of(a.uuid)).len()
                + lit_source_key().len() + json_string(path_text(a.source)).len()
                + lit_source_format_key().len() + json_string(a.source_format).len()
                + lit_native_format_key().len() + json_string(a.native_format).len()
                + lit_tags_key().len(),
        ) == strings_array(a.tags) + (seq![125u8] + rest),
        s.skip(
            pos + lit_uuid_key().len() + json_string(hyphenated_of(a.uuid)).len()
                + lit_source_key().len() + json_string(path_text(a.source)).len()
                + lit_source_format_key().len() + json_string(a.source_format).len()
                + lit_native_format_key().len() + json_string(a.native_format).len()
                + lit_tags_key().len() + strings_array(a.tags).len(),
        ) == seq![125u8] + rest,
        pos + asset_text(a).len() == pos + lit_uuid_key().len() + json_string(
            hyphenated_of(a.uuid),
        ).len() + lit_source_key().len() + json_string(path_text(a.source)).len()
            + lit_source_format_key().len() + json_string(a.source_format).len()
            + lit_native_format_key().len() + json_string(a.native_format).len()
            + lit_tags_key().len() + strings_array(a.tags).len() + 1,
        pos + asset_text(a).len() <= s.len(),
{
    lemma_hyph_jsonable(a.uuid);
    lemma_path_text_jsonable(a.source);
    let t10 = seq![125u8] + rest;
    let t9 = strings_array(a.tags) + t10;
    let t8 = lit_tags_key() + t9;
    let t7 = json_string(a.native_format) + t8;
    let t6 = lit_native_format_key() + t7;
    let t5 = json_string(a.source_format) + t6;
    let t4 = lit_source_format_key() + t5;
    let t3 = json_string(path_text(a.source)) + t4;
    let t2 = lit_source_key() + t3;
    let t1 = json_string(hyphenated_of(a.uuid)) + t2;
    assert(asset_text(a) + rest =~= lit_uuid_key() + t1);
    let o0 = pos;
    lemma_skip_shift(s, o0, lit_uuid_key(), t1);
    let o1 = o0 + lit_uuid_key().len();
    lemma_skip_shift(s, o1, json_string(hyphenated_of(a.uuid)), t2);
    let o2 = o1 + json_string(hyphenated_of(a.uuid)).len();
    lemma_skip_shift(s, o2, lit_source_key(), t3);
    let o3 = o2 + lit_source_key().len();
    lemma_skip_shift(s, o3, json_string(path_text(a.source)), t4);
    let o4 = o3 + json_string(path_text(a.source)).len();
    lemma_skip_shift(s, o4, lit_source_format_key(), t5);
    let o5 = o4 + lit_source_format_key().len();
    lemma_skip_shift(s, o5, json_string(a.source_format), t6);
    let o6 = o5 + json_string(a.source_format).len();
    lemma_skip_shift(s, o6, lit_native_format_key(), t7);
    let o7 = o6 + lit_native_format_key().len();
    lemma_skip_shift(s, o7, json_string(a.native_format), t8);
    let o8 = o7 + json_string(a.native_format).len();
    lemma_skip_shift(s, o8, lit_tags_key(), t9);
    let o9 = o8 + lit_tags_key().len();
    lemma_skip_shift(s, o9, strings_array(a.tags), t10);
}

/// Every record can stand in canonical form.
pub open spec fn all_encodable(s: Seq<AssetV>) -> bool {
    forall|i: int| 0 <= i < s.len() ==> asset_encodable(#[trigger] s[i])
}

/// Read the asset array at a position: exactly the canonical form the
/// writer emits.
#[verifier::rlimit(90)]
pub fn parse_assets_array(s: &Vec<u8>, pos: usize) -> (r: Option<(Vec<Asset>, usize)>)
    requires
        pos <= s.len(),
    ensures
        r matches Option::Some(pair) ==> pos < pair.1 <= s@.len(),
        forall|assets: Seq<AssetV>, rest: Seq<u8>|
            all_encodable(assets) && s@.skip(pos as int) == assets_array(assets) + rest ==> (
            r matches Option::Some(pair) && pair.0.deep_view() == assets.map_values(
                |a: AssetV| strip_abs(a),
            ) && pair.1 == pos + assets_array(assets).len()),
{
    if pos >= s.len() || s[pos] != 91 {
        proof {
            assert forall|assets: Seq<AssetV>, rest: Seq<u8>|
                !(all_encodable(assets) && s@.skip(pos as int) == assets_array(assets) + rest) by {
                if s@.skip(pos as int) == assets_array(assets) + rest {
                    assert(s@.skip(pos as int).len() == s@.len() - pos);
                    assert(assets_array(assets).len() >= 2);
                    assert(pos < s@.len());
                    assert(s@.skip(pos as int)[0] == 91u8);
                    assert(s@.skip(pos as int)[0] == s@[pos as int]);
                }
            }
        }
        return None;
    }
    if pos + 1 < s.len() && s[pos + 1] == 93 {
        let out: Vec<Asset> = Vec::new();
        proof {
            assert forall|assets: Seq<AssetV>, rest: Seq<u8>|
                all_encodable(assets) && s@.skip(pos as int) == assets_array(assets)
                    + rest implies out.deep_view() == assets.map_values(|a: AssetV| strip_abs(a))
                && pos + 2 == pos + assets_array(assets).len() by {
                if assets.len() > 0 {
                    assert(assets_inner(assets).len() >= asset_text(assets[0]).len());
                    assert(assets_inner(assets)[0] == asset_text(assets[0])[0]);
                    assert(asset_text(assets[0])[0] == lit_uuid_key()[0]);
                    assert(assets_array(assets)[1] == 123u8);
                    assert(s@.skip(pos as int)[1] == 123u8);
                    assert(s@.skip(pos as int)[1] == s@[pos + 1]);
                }
                assert(assets.len() == 0);
                assert(out.deep_view() =~= assets.map_values(|a: AssetV| strip_abs(a)));
                assert(assets_array(assets).len() == 2);
            }
        }
        return Some((out, pos + 2));
    }
    let first = match parse_asset(s, pos + 1) {
        Option::Some(p) => p,
        Option::None => {
            proof {
                assert forall|assets: Seq<AssetV>, rest: Seq<u8>|
                    !(all_encodable(assets) && s@.skip(pos as int) == assets_array(assets)
                        + rest) by {
                    if all_encodable(assets) && s@.skip(pos as int) == assets_array(assets)
                        + rest {
                        assert(s@.skip(pos as int).len() == s@.len() - pos);
                        if assets.len() == 0 {
                            assert(assets_array(assets).len() == 2);
                            assert(s@.skip(pos as int)[1] == 93u8);
                            assert(s@.skip(pos as int)[1] == s@[pos + 1]);
                            assert(pos + 1 < s@.len());
                        } else {
                            lemma_assets_inner_split(assets, 1);
                            assert(assets_inner(assets.take(1)) == asset_text(assets[0]));
                            assert(assets_array(assets) + rest =~= seq![91u8] + (asset_text(
                                assets[0],
                            ) + (comma_assets(assets.skip(1)) + seq![93u8] + rest)));
                            lemma_skip_shift(
                                s@,
                                pos as int,
                                seq![91u8],
                                asset_text(assets[0]) + (comma_assets(assets.skip(1)) + seq![93u8]
                                    + rest),
                            );
                            assert(asset_encodable(assets[0]));
                        }
                    }
                }
            }
            return None;
        },
    };
    let mut out: Vec<Asset> = Vec::new();
    out.push(first.0);
    let mut cur: usize = first.1;
    proof {
        assert forall|assets: Seq<AssetV>, rest: Seq<u8>|
            all_encodable(assets) && s@.skip(pos as int) == assets_array(assets)
                + rest implies out.deep_view().len() <= assets.len() && out.deep_view()
            == assets.take(out.deep_view().len() as int).map_values(|a: AssetV| strip_abs(a))
            && s@.skip(cur as int) == comma_assets(assets.skip(out.deep_view().len() as int))
            + seq![93u8] + rest by {
            assert(s@.skip(pos as int).len() == s@.len() - pos);
            if assets.len() == 0 {
                assert(assets_array(assets).len() == 2);
                assert(s@.skip(pos as int)[1] == 93u8);
                assert(s@.skip(pos as int)[1] == s@[pos + 1]);
                assert(pos + 1 < s@.len());
                assert(false);
            }
            lemma_assets_inner_split(assets, 1);
            assert(assets_inner(assets.take(1)) == asset_text(assets[0]));
            assert(assets_array(assets) + rest =~= seq![91u8] + (asset_text(assets[0])
                + (comma_assets(assets.skip(1)) + seq![93u8] + rest)));
            lemma_skip_shift(
                s@,
                pos as int,
                seq![91u8],
                asset_text(assets[0]) + (comma_assets(assets.skip(1)) + seq![93u8] + rest),
            );
            assert(asset_encodable(assets[0]));
            assert(first.0@ == strip_abs(assets[0]));
            assert(cur == pos + 1 + asset_text(assets[0]).len());
            lemma_skip_shift(
                s@,
                pos + 1,
                asset_text(assets[0]),
                comma_assets(assets.skip(1)) + seq![93u8] + rest,
            );
            assert(out.deep_view() =~= assets.take(1).map_values(|a: AssetV| strip_abs(a)));
        }
    }
    while cur < s.len() && s[cur] == 44
        invariant
            pos < cur <= s.len(),
            out.deep_view().len() >= 1,
            forall|assets: Seq<AssetV>, rest: Seq<u8>|
                all_encodable(assets) && s@.skip(pos as int) == assets_array(assets) + rest ==> (
                out.deep_view().len() <= assets.len() && out.deep_view() == assets.take(
                    out.deep_view().len() as int,
                ).map_values(|a: AssetV| strip_abs(a)) && s@.skip(cur as int) == comma_assets(
                    assets.skip(out.deep_view().len() as int),
                ) + seq![93u8] + rest),
        decreases s.len() - cur,
    {
        let ghost k = out.deep_view().len() as int;
        let ghost precur = cur as int;
        let item = match parse_asset(s, cur + 1) {
            Option::Some(p) => p,
            Option::None => {
                proof {
                    assert forall|assets: Seq<AssetV>, rest: Seq<u8>|
                        !(all_encodable(assets) && s@.skip(pos as int) == assets_array(assets)
                            + rest) by {
                        if all_encodable(assets) && s@.skip(pos as int) == assets_array(assets)
                            + rest {
                            assert(s@.skip(cur as int) == comma_assets(assets.skip(k))
                                + seq![93u8] + rest);
                            if k == assets.len() {
                                assert(comma_assets(assets.skip(k)).len() == 0);
                                assert(s@.skip(cur as int)[0] == 93u8);
                                assert(s@.skip(cur as int)[0] == s@[cur as int]);
                            } else {
                                assert(assets.skip(k)[0] == assets[k]);
                                assert(assets.skip(k).skip(1) =~= assets.skip(k + 1));
                                assert(comma_assets(assets.skip(k)) + seq![93u8] + rest
                                    =~= seq![44u8] + (asset_text(assets[k]) + (comma_assets(
                                    assets.skip(k + 1),
                                ) + seq![93u8] + rest)));
                                lemma_skip_shift(
                                    s@,
                                    cur as int,
                                    seq![44u8],
                                    asset_text(assets[k]) + (comma_assets(assets.skip(k + 1))
                                        + seq![93u8] + rest),
                                );
                                assert(asset_encodable(assets[k]));
                            }
                        }
                    }
                }
                return None;
            },
        };
        let ghost pre = out.deep_view();
        let ghost prev = out@;
        out.push(item.0);
        cur = item.1;
        proof {
            assert(out@.len() == prev.len() + 1);
            assert forall|m: int| 0 <= m < pre.len() implies out.deep_view()[m] == pre[m] by {
                assert(out@[m] == prev[m]);
            }
            assert(out.deep_view()[pre.len() as int] == item.0@);
            assert forall|assets: Seq<AssetV>, rest: Seq<u8>|
                all_encodable(assets) && s@.skip(pos as int) == assets_array(assets)
                    + rest implies out.deep_view().len() <= assets.len() && out.deep_view()
                == assets.take(out.deep_view().len() as int).map_values(|a: AssetV| strip_abs(a))
                && s@.skip(cur as int) == comma_assets(assets.skip(out.deep_view().len() as int))
                + seq![93u8] + rest by {
                assert(s@.skip(precur) == comma_assets(assets.skip(k)) + seq![93u8] + rest);
                if k == assets.len() {
                    assert(comma_assets(assets.skip(k)).len() == 0);
                    assert(s@.skip(precur)[0] == 93u8);
                    assert(s@.skip(precur)[0] == s@[precur]);
                    assert(false);
                }
                assert(assets.skip(k)[0] == assets[k]);
                assert(assets.skip(k).skip(1) =~= assets.skip(k + 1));
                assert(comma_assets(assets.skip(k)) + seq![93u8] + rest =~= seq![44u8] + (
                asset_text(assets[k]) + (comma_assets(assets.skip(k + 1)) + seq![93u8] + rest)));
                lemma_skip_shift(
                    s@,
                    precur,
                    seq![44u8],
                    asset_text(assets[k]) + (comma_assets(assets.skip(k + 1)) + seq![93u8] + rest),
                );
                assert(asset_encodable(assets[k]));
                assert(item.0@ == strip_abs(assets[k]));
                assert(cur == precur + 1 + asset_text(assets[k]).len());
                lemma_skip_shift(
                    s@,
                    precur + 1,
                    asset_text(assets[k]),
                    comma_assets(assets.skip(k + 1)) + seq![93u8] + rest,
                );
                let mp = assets.take(k + 1).map_values(|a: AssetV| strip_abs(a));
                assert(mp.len() == k + 1);
                assert forall|m: int| 0 <= m < k + 1 implies out.deep_view()[m] == mp[m] by {
                    assert(mp[m] == strip_abs(assets.take(k + 1)[m]));
                    assert(assets.take(k + 1)[m] == assets[m]);
                    if m < k {
                        assert(out.deep_view()[m] == pre[m]);
                        let mpk = assets.take(k).map_values(|a: AssetV| strip_abs(a));
                        assert(pre[m] == mpk[m]);
                        assert(mpk[m] == strip_abs(assets.take(k)[m]));
                        assert(assets.take(k)[m] == assets[m]);
                    }
                }
                assert(out.deep_view() =~= mp);
            }
        }
    }
    if cur < s.len() && s[cur] == 93 {
        proof {
            assert forall|assets: Seq<AssetV>, rest: Seq<u8>|
                all_encodable(assets) && s@.skip(pos as int) == assets_array(assets)
                    + rest implies out.deep_view() == assets.map_values(|a: AssetV| strip_abs(a))
                && cur + 1 == pos + assets_array(assets).len() by {
                let k = out.deep_view().len() as int;
                assert(s@.skip(cur as int) == comma_assets(assets.skip(k)) + seq![93u8] + rest);
                if k < assets.len() {
                    assert(assets.skip(k)[0] == assets[k]);
                    assert(comma_assets(assets.skip(k))[0] == 44u8);
                    assert(s@.skip(cur as int)[0] == 44u8);
                    assert(s@.skip(cur as int)[0] == s@[cur as int]);
                    assert(false);
                }
                assert(k == assets.len());
                assert(assets.take(k) =~= assets);
                assert(comma_assets(assets.skip(k)).len() == 0);
                assert(s@.skip(cur as int).len() == s@.len() - cur);
                assert(s@.skip(pos as int).len() == s@.len() - pos);
                assert(s@.skip(cur as int) =~= seq![93u8] + rest);
            }
        }
        return Some((out, cur + 1));
    }
    proof {
        assert forall|assets: Seq<AssetV>, rest: Seq<u8>|
            !(all_encodable(assets) && s@.skip(pos as int) == assets_array(assets) + rest) by {
            if all_encodable(assets) && s@.skip(pos as int) == assets_array(assets) + rest {
                let k = out.deep_view().len() as int;
                assert(s@.skip(cur as int) == comma_assets(assets.skip(k)) + seq![93u8] + rest);
                if k < assets.len() {
                    assert(assets.skip(k)[0] == assets[k]);
                    assert(comma_assets(assets.skip(k))[0] == 44u8);
                    assert(s@.skip(cur as int)[0] == 44u8);
                    assert(s@.skip(cur as int)[0] == s@[cur as int]);
                    assert(s@.skip(cur as int).len() >= 2);
                } else {
                    assert(comma_assets(assets.skip(k)).len() == 0);
                    assert(s@.skip(cur as int)[0] == 93u8);
                    assert(s@.skip(cur as int)[0] == s@[cur as int]);
                    assert(s@.skip(cur as int).len() >= 1);
                }
            }
        }
    }
    None
}

/// Manifest contents the writer can put in canonical form.
pub open spec fn manifest_encodable(dirs: Seq<Seq<Seq<u8>>>, assets: Seq<AssetV>) -> bool {
    &&& forall|i: int|
        0 <= i < dirs.len() ==> wf_rel_seq(#[trigger] dirs[i]) && all_jsonable(dirs[i])
    &&& all_encodable(assets)
}

/// The decomposition of the whole document at its section boundaries.
pub proof fn lemma_manifest_steps(s: Seq<u8>, dirs: Seq<Seq<Seq<u8>>>, assets: Seq<AssetV>)
    requires
        manifest_encodable(dirs, assets),
        s == manifest_text(dirs, assets),
    ensures
        all_jsonable(dirs.map_values(|p: Seq<Seq<u8>>| path_text(p))),
        s.skip(0) == lit_dirs_key() + (strings_array(
            dirs.map_values(|p: Seq<Seq<u8>>| path_text(p)),
        ) + (lit_assets_key() + (assets_array(assets) + seq![125u8]))),
        s.skip(lit_dirs_key().len() as int) == strings_array(
            dirs.map_values(|p: Seq<Seq<u8>>| path_text(p)),
        ) + (lit_assets_key() + (assets_array(assets) + seq![125u8])),
        s.skip(
            lit_dirs_key().len() + strings_array(
                dirs.map_values(|p: Seq<Seq<u8>>| path_text(p)),
            ).len() as int,
        ) == lit_assets_key() + (assets_array(assets) + seq![125u8]),
        s.skip(
            lit_dirs_key().len() + strings_array(
                dirs.map_values(|p: Seq<Seq<u8>>| path_text(p)),
            ).len() + lit_assets_key().len() as int,
        ) == assets_array(assets) + seq![125u8],
        s.skip(
            lit_dirs_key().len() + strings_array(
                dirs.map_values(|p: Seq<Seq<u8>>| path_text(p)),
            ).len() + lit_assets_key().len() + assets_array(assets).len() as int,
        ) == seq![125u8],
        s.len() == lit_dirs_key().len() + strings_array(
            dirs.map_values(|p: Seq<Seq<u8>>| path_text(p)),
        ).len() + lit_assets_key().len() + assets_array(assets).len() + 1,
{
    let m = dirs.map_values(|p: Seq<Seq<u8>>| path_text(p));
    assert forall|i: int| 0 <= i < m.len() implies jsonable(#[trigger] m[i]) by {
        assert(m[i] == path_text(dirs[i]));
        lemma_path_text_jsonable(dirs[i]);
    }
    let t3 = seq![125u8];
    let t2 = assets_array(assets) + t3;
    let t1 = lit_assets_key() + t2;
    let t0 = strings_array(m) + t1;
    assert(s =~= lit_dirs_key() + t0);
    assert(s.skip(0) =~= s);
    lemma_skip_shift(s, 0, lit_dirs_key(), t0);
    lemma_skip_shift(s, lit_dirs_key().len() as int, strings_array(m), t1);
    lemma_skip_shift(
        s,
        lit_dirs_key().len() + strings_array(m).len() as int,
        lit_assets_key(),
        t2,
    );
    lemma_skip_shift(
        s,
        lit_dirs_key().len() + strings_array(m).len() + lit_assets_key().len() as int,
        assets_array(assets),
        t3,
    );
}

/// Read a whole manifest document: every document the writer emits is
/// read back to the same importer directories and the same records,
/// their absolute paths left empty for re-derivation. Saving and
/// opening are thus inverses, up to absolute-path rehydration.
#[verifier::rlimit(60)]
pub fn parse_manifest(s: &Vec<u8>) -> (r: Option<Data>)
    ensures
        forall|dirs: Seq<Seq<Seq<u8>>>, assets: Seq<AssetV>|
            manifest_encodable(dirs, assets) && s@ == manifest_text(dirs, assets) ==> (
            r matches Option::Some(d) && d.importers_dirs.deep_view() == dirs
                && d.assets.deep_view() == assets.map_values(|a: AssetV| strip_abs(a))),
{
    let k1 = dirs_key_bytes();
    let p0 = match expect_bytes(s, 0, &k1) {
        Option::Some(p) => p,
        Option::None => {
            proof {
                assert forall|dirs: Seq<Seq<Seq<u8>>>, assets: Seq<AssetV>|
                    !(manifest_encodable(dirs, assets) && s@ == manifest_text(dirs, assets)) by {
                    if manifest_encodable(dirs, assets) && s@ == manifest_text(dirs, assets) {
                        lemma_manifest_steps(s@, dirs, assets);
                    }
                }
            }
            return None;
        },
    };
    let dirs_r = match parse_strings_array(s, p0) {
        Option::Some(p) => p,
        Option::None => {
            proof {
                assert forall|dirs: Seq<Seq<Seq<u8>>>, assets: Seq<AssetV>|
                    !(manifest_encodable(dirs, assets) && s@ == manifest_text(dirs, assets)) by {
                    if manifest_encodable(dirs, assets) && s@ == manifest_text(dirs, assets) {
                        lemma_manifest_steps(s@, dirs, assets);
                    }
                }
            }
            return None;
        },
    };
    let mut dir_paths: Vec<RelPath> = Vec::new();
    let mut i: usize = 0;
    while i < dirs_r.0.len()
        invariant
            i <= dirs_r.0.len(),
            dir_paths@.len() == i,
            forall|m: int|
                0 <= m < i ==> #[trigger] dir_paths@[m]@ == split_spec(dirs_r.0.deep_view()[m]),
        decreases dirs_r.0.len() - i,
    {
        let comps = split_path(&dirs_r.0[i]);
        dir_paths.push(RelPath { components: comps });
        proof {
            assert(dirs_r.0.deep_view()[i as int] == dirs_r.0@[i as int]@);
        }
        i = i + 1;
    }
    let k2 = assets_key_bytes();
    let p2 = match expect_bytes(s, dirs_r.1, &k2) {
        Option::Some(p) => p,
        Option::None => {
            proof {
                assert forall|dirs: Seq<Seq<Seq<u8>>>, assets: Seq<AssetV>|
                    !(manifest_encodable(dirs, assets) && s@ == manifest_text(dirs, assets)) by {
                    if manifest_encodable(dirs, assets) && s@ == manifest_text(dirs, assets) {
                        lemma_manifest_steps(s@, dirs, assets);
                    }
                }
            }
            return None;
        },
    };
    let ar = match parse_assets_array(s, p2) {
        Option::Some(p) => p,
        Option::None => {
            proof {
                assert forall|dirs: Seq<Seq<Seq<u8>>>, assets: Seq<AssetV>|
                    !(manifest_encodable(dirs, assets) && s@ == manifest_text(dirs, assets)) by {
                    if manifest_encodable(dirs, assets) && s@ == manifest_text(dirs, assets) {
                        lemma_manifest_steps(s@, dirs, assets);
                    }
                }
            }
            return None;
        },
    };
    if ar.1 < s.len() && s[ar.1] == 125 && ar.1 + 1 == s.len() {
        let d = Data { importers_dirs: dir_paths, assets: ar.0 };
        proof {
            assert forall|dirs: Seq<Seq<Seq<u8>>>, assets: Seq<AssetV>|
                manifest_encodable(dirs, assets) && s@ == manifest_text(
                    dirs,
                    assets,
                ) implies d.importers_dirs.deep_view() == dirs && d.assets.deep_view()
                == assets.map_values(|a: AssetV| strip_abs(a)) by {
                lemma_manifest_steps(s@, dirs, assets);
                let m = dirs.map_values(|p: Seq<Seq<u8>>| path_text(p));
                assert(dirs_r.0.deep_view() == m);
                assert forall|j: int| 0 <= j < dirs.len() implies #[trigger] d.importers_dirs.deep_view()[j]
                    == dirs[j] by {
                    assert(d.importers_dirs@[j]@ == split_spec(m[j]));
                    assert(m[j] == path_text(dirs[j]));
                    lemma_split_path_text(dirs[j]);
                }
                assert(d.importers_dirs.deep_view() =~= dirs);
                assert(d.assets.deep_view() == assets.map_values(|a: AssetV| strip_abs(a)));
            }
        }
        return Some(d);
    }
    proof {
        assert forall|dirs: Seq<Seq<Seq<u8>>>, assets: Seq<AssetV>|
            !(manifest_encodable(dirs, assets) && s@ == manifest_text(dirs, assets)) by {
            if manifest_encodable(dirs, assets) && s@ == manifest_text(dirs, assets) {
                lemma_manifest_steps(s@, dirs, assets);
                assert(s@.skip(ar.1 as int) == seq![125u8]);
                assert(s@.skip(ar.1 as int).len() == s@.len() - ar.1);
                assert(s@.skip(ar.1 as int)[0] == 125u8);
                assert(s@.skip(ar.1 as int)[0] == s@[ar.1 as int]);
            }
        }
    }
    None
}

/// Saving then opening recovers the catalog. For a well-formed registry:
/// `save` writes exactly the canonical text of its directories and
/// records; that text is acceptable manifest content and is read back by
/// `parse_manifest` to the same records with absolute paths cleared; the
/// cleared records are acceptable to `Treasury::open`, whose
/// re-derivation then restores each record's absolute paths below the
/// root. The identifier, source path, formats and tags of every record
/// survive unchanged, in catalog order.
pub proof fn lemma_save_open_roundtrip(t: &Treasury)
    requires
        t.wf(),
    ensures
        manifest_encodable(t.dirs_v(), t.assets_v()),
        crate::treasury::open_data_ok(
            t.assets_v().map_values(|a: AssetV| strip_abs(a)),
            t.dirs_v(),
        ),
        forall|i: int|
            0 <= i < t.assets_v().len() ==> crate::treasury::rehydrate(
                strip_abs(#[trigger] t.assets_v()[i]),
                t.root@,
            ) == (AssetV {
                source_absolute: crate::paths::normalize(t.root@ + t.assets_v()[i].source),
                native_absolute: t.root@ + crate::asset::native_rel_of(t.assets_v()[i].uuid),
                ..t.assets_v()[i]
            }),
{
    let m = t.assets_v().map_values(|a: AssetV| strip_abs(a));
    assert forall|i: int| 0 <= i < t.assets_v().len() implies asset_encodable(
        #[trigger] t.assets_v()[i],
    ) by {
        assert(crate::asset::asset_paths_wf(t.assets_v()[i]));
        assert(crate::treasury::asset_texts_ok(t.assets_v()[i]));
    }
    assert forall|i: int| 0 <= i < m.len() implies wf_rel_seq(#[trigger] m[i].source)
        && crate::treasury::asset_texts_ok(m[i]) by {
        assert(m[i] == strip_abs(t.assets_v()[i]));
        assert(crate::asset::asset_paths_wf(t.assets_v()[i]));
        assert(crate::treasury::asset_texts_ok(t.assets_v()[i]));
    }
    assert forall|i: int, j: int| 0 <= i < j < m.len() implies m[i].uuid != m[j].uuid by {
        assert(m[i] == strip_abs(t.assets_v()[i]));
        assert(m[j] == strip_abs(t.assets_v()[j]));
        assert(t.assets_v()[i].uuid != t.assets_v()[j].uuid);
    }
}

} // verus!
