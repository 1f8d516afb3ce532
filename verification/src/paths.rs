//! Paths modelled as vectors of byte-string components.
//!
//! An absolute path holds the components below the filesystem root, in
//! order; a relative path may begin with `..` components. `relative_to`
//! expresses one absolute path relative to another, and `join_norm` is the
//! join that resolves `..` components, so that the two are inverses.

use vstd::prelude::*;

verus! {

broadcast use crate::views::lemma_bytes_deep_view, crate::views::lemma_components_deep_view;

/// The bytes of the `..` component.
pub open spec fn dotdot() -> Seq<u8> {
    seq![46u8, 46u8]
}

/// The bytes of the `.` component.
pub open spec fn dot() -> Seq<u8> {
    seq![46u8]
}

/// A component of a relative path: nonempty, free of separators, not `.`.
/// `..` is allowed.
pub open spec fn wf_rel_component(c: Seq<u8>) -> bool {
    &&& c.len() > 0
    &&& c != dot()
    &&& forall|i: int| 0 <= i < c.len() ==> c[i] != 47u8
}

/// A component of an absolute path: additionally not `..`.
pub open spec fn wf_component(c: Seq<u8>) -> bool {
    &&& wf_rel_component(c)
    &&& c != dotdot()
}

/// All components of an absolute path are well-formed.
pub open spec fn wf_abs_seq(s: Seq<Seq<u8>>) -> bool {
    forall|i: int| 0 <= i < s.len() ==> wf_component(#[trigger] s[i])
}

/// All components of a relative path are well-formed.
pub open spec fn wf_rel_seq(s: Seq<Seq<u8>>) -> bool {
    forall|i: int| 0 <= i < s.len() ==> wf_rel_component(#[trigger] s[i])
}

/// An absolute path: its components below the filesystem root.
#[derive(Debug)]
pub struct AbsPath {
    pub components: Vec<Vec<u8>>,
}

/// A path relative to some directory; leading `..` components climb out.
#[derive(Debug)]
pub struct RelPath {
    pub components: Vec<Vec<u8>>,
}

impl View for AbsPath {
    type V = Seq<Seq<u8>>;

    open spec fn view(&self) -> Seq<Seq<u8>> {
        self.components.deep_view()
    }
}

impl View for RelPath {
    type V = Seq<Seq<u8>>;

    open spec fn view(&self) -> Seq<Seq<u8>> {
        self.components.deep_view()
    }
}

impl DeepView for AbsPath {
    type V = Seq<Seq<u8>>;

    open spec fn deep_view(&self) -> Seq<Seq<u8>> {
        self@
    }
}

impl DeepView for RelPath {
    type V = Seq<Seq<u8>>;

    open spec fn deep_view(&self) -> Seq<Seq<u8>> {
        self@
    }
}

impl AbsPath {
    /// All components well-formed.
    pub open spec fn wf(&self) -> bool {
        wf_abs_seq(self@)
    }
}

impl RelPath {
    /// All components well-formed.
    pub open spec fn wf(&self) -> bool {
        wf_rel_seq(self@)
    }
}

/// Text that may stand raw between quotes in the manifest's canonical
/// form: no quote, no backslash, no control byte.
pub open spec fn jsonable(s: Seq<u8>) -> bool {
    forall|i: int| 0 <= i < s.len() ==> s[i] != 34 && s[i] != 92 && s[i] >= 32
}

/// Every item may stand raw between quotes.
pub open spec fn all_jsonable(items: Seq<Seq<u8>>) -> bool {
    forall|i: int| 0 <= i < items.len() ==> jsonable(#[trigger] items[i])
}

/// Decide whether text may stand raw between quotes.
pub fn jsonable_check(b: &Vec<u8>) -> (r: bool)
    ensures
        r == jsonable(b@),
{
    let mut i: usize = 0;
    while i < b.len()
        invariant
            i <= b.len(),
            forall|j: int| 0 <= j < i ==> b@[j] != 34 && b@[j] != 92 && b@[j] >= 32,
        decreases b.len() - i,
    {
        if b[i] == 34 || b[i] == 92 || b[i] < 32 {
            return false;
        }
        i = i + 1;
    }
    true
}

/// Decide whether every item may stand raw between quotes.
pub fn all_jsonable_check(v: &Vec<Vec<u8>>) -> (r: bool)
    ensures
        r == all_jsonable(v.deep_view()),
{
    let mut i: usize = 0;
    while i < v.len()
        invariant
            i <= v.len(),
            forall|j: int| 0 <= j < i ==> jsonable(#[trigger] v.deep_view()[j]),
        decreases v.len() - i,
    {
        if !jsonable_check(&v[i]) {
            proof {
                assert(v.deep_view()[i as int] == v@[i as int]@);
            }
            return false;
        }
        proof {
            assert(v.deep_view()[i as int] == v@[i as int]@);
        }
        i = i + 1;
    }
    true
}

/// Byte-string equality, decided byte by byte.
pub fn bytes_eq(a: &Vec<u8>, b: &Vec<u8>) -> (r: bool)
    ensures
        r == (a@ == b@),
{
    if a.len() != b.len() {
        return false;
    }
    let mut i: usize = 0;
    while i < a.len()
        invariant
            i <= a.len(),
            a.len() == b.len(),
            forall|j: int| 0 <= j < i ==> a@[j] == b@[j],
        decreases a.len() - i,
    {
        if a[i] != b[i] {
            return false;
        }
        i = i + 1;
    }
    proof {
        assert(a@ =~= b@);
    }
    true
}

/// Copy a byte string.
pub fn clone_bytes(a: &Vec<u8>) -> (r: Vec<u8>)
    ensures
        r@ == a@,
{
    let mut r: Vec<u8> = Vec::new();
    let mut i: usize = 0;
    while i < a.len()
        invariant
            i <= a.len(),
            r@ == a@.take(i as int),
        decreases a.len() - i,
    {
        r.push(a[i]);
        proof {
            assert(r@ =~= a@.take(i + 1));
        }
        i = i + 1;
    }
    proof {
        assert(a@.take(a@.len() as int) =~= a@);
    }
    r
}

/// Copy a component list.
pub fn clone_components(a: &Vec<Vec<u8>>) -> (r: Vec<Vec<u8>>)
    ensures
        r.deep_view() == a.deep_view(),
{
    let mut r: Vec<Vec<u8>> = Vec::new();
    let mut i: usize = 0;
    while i < a.len()
        invariant
            i <= a.len(),
            r.deep_view() == a.deep_view().take(i as int),
        decreases a.len() - i,
    {
        let ghost pre = r.deep_view();
        let ghost prev = r@;
        proof {
            assert(pre.len() == i);
            assert(prev.len() == i);
        }
        r.push(clone_bytes(&a[i]));
        proof {
            assert(r@.len() == i + 1);
            assert forall|j: int| 0 <= j < i implies r.deep_view()[j] == a.deep_view()[j] by {
                assert(r@[j] == prev[j]);
                assert(r.deep_view()[j] == prev[j].deep_view());
                assert(prev[j].deep_view() == pre[j]);
                assert(pre[j] == a.deep_view().take(i as int)[j]);
            }
            assert(r.deep_view()[i as int] == a.deep_view()[i as int]);
            assert(r.deep_view() =~~= a.deep_view().take(i + 1));
        }
        i = i + 1;
    }
    proof {
        assert(a.deep_view().take(a.deep_view().len() as int) =~= a.deep_view());
    }
    r
}

impl Clone for AbsPath {
    fn clone(&self) -> (r: Self)
        ensures
            r@ == self@,
    {
        AbsPath { components: clone_components(&self.components) }
    }
}

impl Clone for RelPath {
    fn clone(&self) -> (r: Self)
        ensures
            r@ == self@,
    {
        RelPath { components: clone_components(&self.components) }
    }
}

/// The length of the longest common prefix of two component sequences.
pub open spec fn common_prefix_len(p: Seq<Seq<u8>>, r: Seq<Seq<u8>>) -> nat
    decreases p.len(),
{
    if p.len() == 0 || r.len() == 0 {
        0
    } else if p[0] == r[0] {
        1 + common_prefix_len(p.skip(1), r.skip(1))
    } else {
        0
    }
}

pub proof fn lemma_common_prefix_len(p: Seq<Seq<u8>>, r: Seq<Seq<u8>>)
    ensures
        common_prefix_len(p, r) <= p.len(),
        common_prefix_len(p, r) <= r.len(),
        forall|i: int| 0 <= i < common_prefix_len(p, r) ==> p[i] == r[i],
    decreases p.len(),
{
    if p.len() == 0 || r.len() == 0 {
    } else if p[0] == r[0] {
        lemma_common_prefix_len(p.skip(1), r.skip(1));
        assert forall|i: int| 0 <= i < common_prefix_len(p, r) implies p[i] == r[i] by {
            if i > 0 {
                assert(p.skip(1)[i - 1] == r.skip(1)[i - 1]);
            }
        }
    }
}

/// A count of matching leading components pins down `common_prefix_len`.
pub proof fn lemma_common_prefix_char(p: Seq<Seq<u8>>, r: Seq<Seq<u8>>, c: int)
    requires
        0 <= c <= p.len(),
        c <= r.len(),
        forall|i: int| 0 <= i < c ==> p[i] == r[i],
        c == p.len() || c == r.len() || p[c] != r[c],
    ensures
        c == common_prefix_len(p, r),
    decreases p.len(),
{
    if p.len() == 0 || r.len() == 0 {
    } else if c == 0 {
        if p.len() > 0 && r.len() > 0 {
            assert(p[0] != r[0]);
        }
    } else {
        assert(p[0] == r[0]);
        lemma_common_prefix_char(p.skip(1), r.skip(1), c - 1);
    }
}

/// `k` components of `..`.
pub open spec fn ups(k: nat) -> Seq<Seq<u8>> {
    Seq::new(k, |i: int| dotdot())
}

/// `p` expressed relative to `r`: climb out of what `r` has beyond the
/// common prefix, then descend into the rest of `p`.
pub open spec fn rel_spec(p: Seq<Seq<u8>>, r: Seq<Seq<u8>>) -> Seq<Seq<u8>> {
    let c = common_prefix_len(p, r) as int;
    ups((r.len() - c) as nat) + p.skip(c)
}

/// Express `path` relative to `root`, emitting one `..` per component of
/// `root` beyond the common prefix and then the remaining components of
/// `path`.
pub fn relative_to(path: &AbsPath, root: &AbsPath) -> (r: RelPath)
    ensures
        r@ == rel_spec(path@, root@),
{
    let pn = path.components.len();
    let rn = root.components.len();
    let mut c: usize = 0;
    while c < pn && c < rn && bytes_eq(&path.components[c], &root.components[c])
        invariant
            c <= pn,
            c <= rn,
            pn == path@.len(),
            rn == root@.len(),
            forall|j: int| 0 <= j < c ==> path@[j] == root@[j],
        decreases pn - c,
    {
        c = c + 1;
    }
    proof {
        lemma_common_prefix_char(path@, root@, c as int);
    }
    let mut out: Vec<Vec<u8>> = Vec::new();
    let mut k: usize = 0;
    while k < rn - c
        invariant
            k <= rn - c,
            c <= rn,
            rn == root@.len(),
            out.deep_view() == ups(k as nat),
        decreases rn - c - k,
    {
        let mut dd: Vec<u8> = Vec::new();
        dd.push(46u8);
        dd.push(46u8);
        proof {
            assert(dd@ =~= dotdot());
        }
        let ghost pre = out.deep_view();
        let ghost prev = out@;
        out.push(dd);
        proof {
            assert(out@.len() == k + 1);
            assert forall|j: int| 0 <= j < k implies out.deep_view()[j] == dotdot() by {
                assert(out@[j] == prev[j]);
                assert(pre[j] == prev[j]@);
                assert(pre[j] == ups(k as nat)[j]);
            }
            assert(out.deep_view()[k as int] == dd@);
            assert(out.deep_view() =~~= ups((k + 1) as nat));
        }
        k = k + 1;
    }
    let mut i: usize = c;
    while i < pn
        invariant
            c <= i <= pn,
            c <= rn,
            pn == path@.len(),
            rn == root@.len(),
            out.deep_view() == ups((rn - c) as nat) + path@.subrange(c as int, i as int),
        decreases pn - i,
    {
        let ghost pre = out.deep_view();
        let ghost prev = out@;
        out.push(clone_bytes(&path.components[i]));
        proof {
            assert(out@.len() == pre.len() + 1);
            assert forall|j: int| 0 <= j < pre.len() implies out.deep_view()[j] == pre[j] by {
                assert(out@[j] == prev[j]);
                assert(pre[j] == prev[j]@);
            }
            assert(out.deep_view()[pre.len() as int] == path@[i as int]);
            let ghost rhs = ups((rn - c) as nat) + path@.subrange(c as int, i + 1);
            assert(rhs.len() == pre.len() + 1);
            assert(out.deep_view().len() == rhs.len());
            assert forall|j: int| 0 <= j < rhs.len() implies out.deep_view()[j] == rhs[j] by {
                if j < rn - c {
                    assert(pre[j] == ups((rn - c) as nat)[j]);
                    assert(rhs[j] == ups((rn - c) as nat)[j]);
                } else if j < pre.len() {
                    assert(pre[j] == path@.subrange(c as int, i as int)[j - (rn - c)]);
                    assert(rhs[j] == path@.subrange(c as int, i + 1)[j - (rn - c)]);
                    assert(path@.subrange(c as int, i as int)[j - (rn - c)] == path@[c + j - (rn
                        - c)]);
                    assert(path@.subrange(c as int, i + 1)[j - (rn - c)] == path@[c + j - (rn
                        - c)]);
                } else {
                    assert(j == pre.len());
                    assert(rhs[j] == path@.subrange(c as int, i + 1)[i - c]);
                }
            }
            assert(out.deep_view() =~~= rhs);
            assert(out.deep_view() == rhs);
        }
        i = i + 1;
    }
    proof {
        assert(out.deep_view() =~= rel_spec(path@, root@));
    }
    RelPath { components: out }
}

/// Resolve a component sequence: each `..` removes the component before it,
/// if any; every other component is kept.
pub open spec fn normalize(s: Seq<Seq<u8>>) -> Seq<Seq<u8>>
    decreases s.len(),
{
    if s.len() == 0 {
        Seq::empty()
    } else {
        let prefix = normalize(s.drop_last());
        if s.last() == dotdot() {
            if prefix.len() == 0 {
                prefix
            } else {
                prefix.drop_last()
            }
        } else {
            prefix.push(s.last())
        }
    }
}

/// A sequence without `..` components normalizes to itself.
pub proof fn lemma_normalize_no_dots(s: Seq<Seq<u8>>)
    requires
        forall|i: int| 0 <= i < s.len() ==> s[i] != dotdot(),
    ensures
        normalize(s) == s,
    decreases s.len(),
{
    if s.len() > 0 {
        lemma_normalize_no_dots(s.drop_last());
        assert(normalize(s.drop_last()).push(s.last()) =~= s);
    }
}

/// A well-formed absolute component sequence normalizes to itself.
pub proof fn lemma_normalize_no_dots_abs(s: Seq<Seq<u8>>)
    requires
        wf_abs_seq(s),
    ensures
        normalize(s) == s,
{
    assert forall|i: int| 0 <= i < s.len() implies s[i] != dotdot() by {
        assert(wf_component(s[i]));
    }
    lemma_normalize_no_dots(s);
}

/// Appending `k` components of `..` to a `..`-free sequence drops its last
/// `k` components.
pub proof fn lemma_normalize_ups(a: Seq<Seq<u8>>, k: nat)
    requires
        forall|i: int| 0 <= i < a.len() ==> a[i] != dotdot(),
        k <= a.len(),
    ensures
        normalize(a + ups(k)) == a.take(a.len() - k),
    decreases k,
{
    if k == 0 {
        assert(a + ups(0) =~= a);
        lemma_normalize_no_dots(a);
        assert(a.take(a.len() as int) =~= a);
    } else {
        let t = a + ups(k);
        assert(t.last() == dotdot());
        assert(t.drop_last() =~= a + ups((k - 1) as nat));
        lemma_normalize_ups(a, (k - 1) as nat);
        assert(a.take(a.len() - (k - 1)).drop_last() =~= a.take(a.len() - k));
    }
}

/// Normalization passes a `..`-free suffix through unchanged.
pub proof fn lemma_normalize_append(a: Seq<Seq<u8>>, b: Seq<Seq<u8>>)
    requires
        forall|i: int| 0 <= i < b.len() ==> b[i] != dotdot(),
    ensures
        normalize(a + b) == normalize(a) + b,
    decreases b.len(),
{
    if b.len() == 0 {
        assert(a + b =~= a);
        assert(normalize(a) + b =~= normalize(a));
    } else {
        let t = a + b;
        assert(t.drop_last() =~= a + b.drop_last());
        lemma_normalize_append(a, b.drop_last());
        assert(t.last() == b.last());
        assert((normalize(a) + b.drop_last()).push(b.last()) =~= normalize(a) + b);
    }
}

/// Joining a root with a path expressed relative to it recovers the path:
/// for well-formed absolute `p` and `r`,
/// `normalize(r + rel_spec(p, r)) == p`.
pub proof fn lemma_relative_roundtrip(p: Seq<Seq<u8>>, r: Seq<Seq<u8>>)
    requires
        wf_abs_seq(p),
        wf_abs_seq(r),
    ensures
        normalize(r + rel_spec(p, r)) == p,
{
    lemma_common_prefix_len(p, r);
    let c = common_prefix_len(p, r) as int;
    let k = (r.len() - c) as nat;
    assert(r + rel_spec(p, r) =~= (r + ups(k)) + p.skip(c));
    assert forall|i: int| 0 <= i < r.len() implies r[i] != dotdot() by {
        assert(wf_component(r[i]));
    }
    assert forall|i: int| 0 <= i < p.skip(c).len() implies p.skip(c)[i] != dotdot() by {
        assert(p.skip(c)[i] == p[i + c]);
        assert(wf_component(p[i + c]));
    }
    lemma_normalize_append(r + ups(k), p.skip(c));
    lemma_normalize_ups(r, k);
    assert(r.take(c) =~= p.take(c));
    assert(normalize(r + ups(k)) + p.skip(c) =~= p);
}

/// Join a root with a relative path, resolving `..` components.
pub fn join_norm(root: &AbsPath, rel: &RelPath) -> (r: AbsPath)
    requires
        root.wf(),
        rel.wf(),
    ensures
        r@ == normalize(root@ + rel@),
        r.wf(),
{
    let mut out: Vec<Vec<u8>> = clone_components(&root.components);
    proof {
        assert(root@ + rel@.take(0) =~= root@);
        lemma_normalize_no_dots(root@);
    }
    let mut i: usize = 0;
    while i < rel.components.len()
        invariant
            i <= rel.components.len(),
            rel@.len() == rel.components.len(),
            root.wf(),
            rel.wf(),
            out.deep_view() == normalize(root@ + rel@.take(i as int)),
            wf_abs_seq(out.deep_view()),
        decreases rel.components.len() - i,
    {
        let ghost pre = out.deep_view();
        let ghost s = root@ + rel@.take(i as int);
        proof {
            assert((root@ + rel@.take(i + 1)).drop_last() =~= s);
            assert((root@ + rel@.take(i + 1)).last() == rel@[i as int]);
        }
        let is_dotdot = rel.components[i].len() == 2 && rel.components[i][0] == 46u8
            && rel.components[i][1] == 46u8;
        proof {
            assert(is_dotdot == (rel@[i as int] == dotdot())) by {
                if is_dotdot {
                    assert(rel@[i as int] =~= dotdot());
                } else {
                    if rel@[i as int] == dotdot() {
                        assert(rel.components@[i as int]@.len() == 2);
                        assert(rel.components@[i as int]@[0] == 46u8);
                        assert(rel.components@[i as int]@[1] == 46u8);
                    }
                }
            }
        }
        if is_dotdot {
            if out.len() > 0 {
                out.pop();
                proof {
                    assert(out.deep_view() =~= pre.drop_last());
                }
            } else {
                proof {
                    assert(out.deep_view() =~= pre);
                }
            }
        } else {
            out.push(clone_bytes(&rel.components[i]));
            proof {
                assert(wf_rel_component(rel@[i as int]));
                assert(out.deep_view() =~= pre.push(rel@[i as int]));
            }
        }
        i = i + 1;
    }
    proof {
        assert(rel@.take(rel@.len() as int) =~= rel@);
    }
    AbsPath { components: out }
}

/// The relative form of a well-formed absolute path against a
/// well-formed root has only well-formed components.
pub proof fn lemma_rel_spec_wf(p: Seq<Seq<u8>>, r: Seq<Seq<u8>>)
    requires
        wf_abs_seq(p),
        wf_abs_seq(r),
    ensures
        wf_rel_seq(rel_spec(p, r)),
{
    lemma_common_prefix_len(p, r);
    let c = common_prefix_len(p, r) as int;
    assert forall|i: int| 0 <= i < rel_spec(p, r).len() implies wf_rel_component(
        #[trigger] rel_spec(p, r)[i],
    ) by {
        if i < r.len() - c {
            assert(rel_spec(p, r)[i] == dotdot());
        } else {
            assert(rel_spec(p, r)[i] == p[i - (r.len() - c) + c]);
            assert(wf_component(p[i - (r.len() - c) + c]));
        }
    }
}

/// Joining `root` with `relative_to(path, root)` recovers `path` exactly.
pub fn join_relative(path: &AbsPath, root: &AbsPath) -> (r: AbsPath)
    requires
        path.wf(),
        root.wf(),
    ensures
        r@ == path@,
{
    let rel = relative_to(path, root);
    proof {
        lemma_rel_spec_wf(path@, root@);
        lemma_relative_roundtrip(path@, root@);
    }
    join_norm(root, &rel)
}

} // verus!
