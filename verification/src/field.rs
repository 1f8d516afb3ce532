//! The asset-field resolver: a nested field description (an external
//! reference, an optional field, an ordered sequence) is decoded against
//! the loader's answers and then built into the final value.
//!
//! Decoding is split in two: `decode_requests` lists the identifiers the
//! loader must resolve, in order, and `decode_resolve` assembles the
//! decoded tree from the loader's answers. The surrounding process drives
//! the loader (concurrently, in any completion order) and hands the
//! answers back as a table; the decoded tree depends only on the table,
//! never on completion order. `build` then maps the decoded tree to the
//! built value, short-circuiting on the first load error.

use vstd::prelude::*;

verus! {

broadcast use vstd::std_specs::vec::axiom_vec_index_decreases, vstd::std_specs::vec::axiom_vec_decreases_to_view, vstd::seq::axiom_seq_index_decreases, vstd::seq::axiom_seq_subrange_decreases;

/// The deserialized description of an asset field.
#[derive(Debug)]
pub enum Info {
    /// A reference to an external asset, by identifier.
    External(u128),
    /// An optional field that is absent.
    Absent,
    /// An optional field that is present.
    Present(Box<Info>),
    /// An ordered sequence of fields.
    Sequence(Vec<Info>),
}

/// Why the loader could not produce an asset.
#[derive(Debug)]
pub struct LoadError {
    pub message: Vec<u8>,
}

/// What the loader answered for one identifier.
pub type LoadOutcome = Result<Vec<u8>, LoadError>;

/// The loader's answers: identifier, answer pairs; the first pair for an
/// identifier counts.
pub struct LoadTable {
    pub entries: Vec<(u128, LoadOutcome)>,
}

/// The decoded representation of an asset field.
#[derive(Debug)]
pub enum Decoded {
    /// The loader's answer for an external reference; a load error
    /// surfaces at build time.
    External(LoadOutcome),
    Absent,
    Present(Box<Decoded>),
    Sequence(Vec<Decoded>),
}

/// The built value of an asset field.
#[derive(Debug)]
pub enum Built {
    External(Vec<u8>),
    Absent,
    Present(Box<Built>),
    Sequence(Vec<Built>),
}

/// Why a field could not be decoded.
#[derive(Debug)]
pub enum DecodeError {
    /// The loader's table holds no answer for this identifier.
    NotLoaded { uuid: u128 },
}

/// Why a field could not be built: a load error surfacing at build time.
#[derive(Debug)]
pub struct BuildError {
    pub message: Vec<u8>,
}

/// A loader answer, at the view level.
pub open spec fn outcome_v(o: LoadOutcome) -> Result<Seq<u8>, Seq<u8>> {
    match o {
        Result::Ok(b) => Result::Ok(b@),
        Result::Err(e) => Result::Err(e.message@),
    }
}

/// The table holds an answer for the identifier.
pub open spec fn table_has(t: Seq<(u128, LoadOutcome)>, u: u128) -> bool {
    exists|i: int| 0 <= i < t.len() && t[i].0 == u
}

/// The first answer for the identifier is `o`, at the view level.
pub open spec fn table_first(t: Seq<(u128, LoadOutcome)>, u: u128, o: LoadOutcome) -> bool {
    exists|i: int|
        {
            &&& 0 <= i < t.len()
            &&& t[i].0 == u
            &&& (forall|j: int| 0 <= j < i ==> t[j].0 != u)
            &&& outcome_v(t[i].1) == outcome_v(o)
        }
}

/// The identifiers a field description asks the loader for, in order.
pub open spec fn info_requests(info: Info) -> Seq<u128>
    decreases info,
{
    match info {
        Info::External(u) => seq![u],
        Info::Absent => Seq::empty(),
        Info::Present(b) => info_requests(*b),
        Info::Sequence(v) => info_requests_seq(v@),
    }
}

/// The identifiers a sequence of field descriptions asks for, in order.
pub open spec fn info_requests_seq(v: Seq<Info>) -> Seq<u128>
    decreases v,
{
    if v.len() == 0 {
        Seq::empty()
    } else {
        info_requests(v[0]) + info_requests_seq(v.skip(1))
    }
}

/// The table answers every identifier the description asks for.
pub open spec fn covered(info: Info, t: Seq<(u128, LoadOutcome)>) -> bool
    decreases info,
{
    match info {
        Info::External(u) => table_has(t, u),
        Info::Absent => true,
        Info::Present(b) => covered(*b, t),
        Info::Sequence(v) => forall|i: int| 0 <= i < v@.len() ==> covered(#[trigger] v@[i], t),
    }
}

/// The decoded tree mirrors the description, each external reference
/// resolved to the table's first answer for its identifier.
pub open spec fn decoded_matches(info: Info, t: Seq<(u128, LoadOutcome)>, d: Decoded) -> bool
    decreases info,
{
    match info {
        Info::External(u) => d matches Decoded::External(slot) && table_first(t, u, slot),
        Info::Absent => d matches Decoded::Absent,
        Info::Present(b) => d matches Decoded::Present(db) && decoded_matches(*b, t, *db),
        Info::Sequence(v) => d matches Decoded::Sequence(dv) && dv@.len() == v@.len() && (forall|
            i: int,
        |
            0 <= i < v@.len() ==> decoded_matches(#[trigger] v@[i], t, dv@[i])),
    }
}

/// An identifier asked for by one element is asked for by the sequence.
pub proof fn lemma_requests_seq_contains(v: Seq<Info>, i: int, u: u128)
    requires
        0 <= i < v.len(),
        info_requests(v[i]).contains(u),
    ensures
        info_requests_seq(v).contains(u),
    decreases v.len(),
{
    if i == 0 {
        let j = choose|j: int| 0 <= j < info_requests(v[0]).len() && info_requests(v[0])[j] == u;
        assert(info_requests_seq(v)[j] == u);
    } else {
        lemma_requests_seq_contains(v.skip(1), i - 1, u);
        let j = choose|j: int|
            0 <= j < info_requests_seq(v.skip(1)).len() && info_requests_seq(v.skip(1))[j] == u;
        assert(info_requests_seq(v)[info_requests(v[0]).len() + j] == u);
    }
}

/// Copy the identifiers a description asks for, in order.
#[verifier::loop_isolation(false)]
pub fn decode_requests(info: &Info) -> (r: Vec<u128>)
    ensures
        r@ == info_requests(*info),
    decreases info,
{
    match info {
        Info::External(u) => {
            let mut r: Vec<u128> = Vec::new();
            r.push(*u);
            proof {
                assert(r@ =~= info_requests(*info));
            }
            r
        },
        Info::Absent => {
            let r: Vec<u128> = Vec::new();
            proof {
                assert(r@ =~= info_requests(*info));
            }
            r
        },
        Info::Present(b) => decode_requests(b),
        Info::Sequence(v) => {
            let mut r: Vec<u128> = Vec::new();
            let mut i: usize = 0;
            while i < v.len()
                invariant
                    i <= v.len(),
                    r@ == info_requests_seq(v@.take(i as int)),
                decreases v.len() - i,
            {
                let mut e = decode_requests(&v[i]);
                let ghost pre = r@;
                r.append(&mut e);
                proof {
                    lemma_requests_seq_take(v@, i as int);
                    assert(r@ == pre + info_requests(v@[i as int]));
                }
                i = i + 1;
            }
            proof {
                assert(v@.take(v@.len() as int) =~= v@);
            }
            r
        },
    }
}

/// Extending the prefix by one element appends its requests.
pub proof fn lemma_requests_seq_take(v: Seq<Info>, i: int)
    requires
        0 <= i < v.len(),
    ensures
        info_requests_seq(v.take(i + 1)) == info_requests_seq(v.take(i)) + info_requests(v[i]),
    decreases i,
{
    if i == 0 {
        assert(v.take(1)[0] == v[0]);
        assert(v.take(1).skip(1) =~= Seq::<Info>::empty());
        assert(v.take(0) =~= Seq::<Info>::empty());
        assert(info_requests_seq(Seq::<Info>::empty()) == Seq::<u128>::empty());
        assert(info_requests_seq(v.take(1)) == info_requests(v[0]) + Seq::<u128>::empty());
        assert(info_requests(v[0]) + Seq::<u128>::empty() =~= info_requests(v[0]));
        assert(Seq::<u128>::empty() + info_requests(v[0]) =~= info_requests(v[0]));
    } else {
        lemma_requests_seq_take(v.skip(1), i - 1);
        assert(v.take(i + 1)[0] == v[0]);
        assert(v.take(i + 1).skip(1) =~= v.skip(1).take(i));
        assert(v.take(i).skip(1) =~= v.skip(1).take(i - 1));
        assert(v.take(i)[0] == v[0]);
        assert(v.skip(1)[i - 1] == v[i]);
        assert(info_requests_seq(v.take(i + 1)) == info_requests(v[0]) + (info_requests_seq(
            v.skip(1).take(i - 1),
        ) + info_requests(v[i])));
        assert(info_requests(v[0]) + (info_requests_seq(v.skip(1).take(i - 1)) + info_requests(
            v[i],
        )) =~= (info_requests(v[0]) + info_requests_seq(v.skip(1).take(i - 1))) + info_requests(
            v[i],
        ));
    }
}

/// Copy a loader answer.
fn clone_outcome(o: &LoadOutcome) -> (r: LoadOutcome)
    ensures
        outcome_v(r) == outcome_v(*o),
{
    match o {
        Result::Ok(b) => Result::Ok(crate::paths::clone_bytes(b)),
        Result::Err(e) => Result::Err(LoadError { message: crate::paths::clone_bytes(&e.message) }),
    }
}

/// Look up the table's first answer for an identifier.
pub fn table_lookup(t: &LoadTable, u: u128) -> (r: Option<LoadOutcome>)
    ensures
        r is Some <==> table_has(t.entries@, u),
        r is Some ==> table_first(t.entries@, u, r.unwrap()),
{
    let mut i: usize = 0;
    while i < t.entries.len()
        invariant
            i <= t.entries.len(),
            forall|j: int| 0 <= j < i ==> t.entries@[j].0 != u,
        decreases t.entries.len() - i,
    {
        if t.entries[i].0 == u {
            let o = clone_outcome(&t.entries[i].1);
            proof {
                assert(t.entries@[i as int].0 == u);
            }
            return Some(o);
        }
        i = i + 1;
    }
    None
}

/// Assemble the decoded tree from the loader's answers. Every identifier
/// answered, the tree mirrors the description in input order; a missing
/// answer is the one refusal, naming an identifier that was asked for.
#[verifier::loop_isolation(false)]
pub fn decode_resolve(info: &Info, table: &LoadTable) -> (r: Result<Decoded, DecodeError>)
    ensures
        r is Ok <==> covered(*info, table.entries@),
        r is Ok ==> decoded_matches(*info, table.entries@, r.unwrap()),
        r matches Result::Err(DecodeError::NotLoaded { uuid: missing }) ==> !table_has(
            table.entries@,
            missing,
        ) && info_requests(*info).contains(missing),
    decreases info,
{
    match info {
        Info::External(u) => match table_lookup(table, *u) {
            Option::Some(o) => Ok(Decoded::External(o)),
            Option::None => {
                proof {
                    assert(info_requests(*info)[0] == *u);
                }
                Err(DecodeError::NotLoaded { uuid: *u })
            },
        },
        Info::Absent => Ok(Decoded::Absent),
        Info::Present(b) => match decode_resolve(b, table) {
            Result::Ok(d) => Ok(Decoded::Present(Box::new(d))),
            Result::Err(e) => Err(e),
        },
        Info::Sequence(v) => {
            let mut out: Vec<Decoded> = Vec::new();
            let mut i: usize = 0;
            while i < v.len()
                invariant
                    i <= v.len(),
                    out@.len() == i,
                    forall|j: int| 0 <= j < i ==> covered(#[trigger] v@[j], table.entries@),
                    forall|j: int|
                        0 <= j < i ==> decoded_matches(#[trigger] v@[j], table.entries@, out@[j]),
                decreases v.len() - i,
            {
                match decode_resolve(&v[i], table) {
                    Result::Ok(d) => {
                        out.push(d);
                    },
                    Result::Err(e) => {
                        proof {
                            match e {
                                DecodeError::NotLoaded { uuid } => {
                                    lemma_requests_seq_contains(v@, i as int, uuid);
                                },
                            }
                        }
                        return Err(e);
                    },
                }
                i = i + 1;
            }
            Ok(Decoded::Sequence(out))
        },
    }
}

/// Every loader answer in the decoded tree succeeded.
pub open spec fn build_ok(d: Decoded) -> bool
    decreases d,
{
    match d {
        Decoded::External(o) => o is Ok,
        Decoded::Absent => true,
        Decoded::Present(b) => build_ok(*b),
        Decoded::Sequence(v) => forall|i: int| 0 <= i < v@.len() ==> build_ok(#[trigger] v@[i]),
    }
}

/// The built tree mirrors the decoded tree, each external reference
/// built to a copy of its loaded bytes.
pub open spec fn built_matches(d: Decoded, b: Built) -> bool
    decreases d,
{
    match d {
        Decoded::External(o) => o matches Result::Ok(bytes) && b matches Built::External(bb)
            && bb@ == bytes@,
        Decoded::Absent => b matches Built::Absent,
        Decoded::Present(db) => b matches Built::Present(bbx) && built_matches(*db, *bbx),
        Decoded::Sequence(dv) => b matches Built::Sequence(bv) && bv@.len() == dv@.len() && (forall|
            i: int,
        |
            0 <= i < dv@.len() ==> built_matches(#[trigger] dv@[i], bv@[i])),
    }
}

/// The first failed load in the tree, in element order.
pub open spec fn first_load_error(d: Decoded) -> Option<Seq<u8>>
    decreases d,
{
    match d {
        Decoded::External(o) => match o {
            Result::Ok(_) => Option::None,
            Result::Err(e) => Option::Some(e.message@),
        },
        Decoded::Absent => Option::None,
        Decoded::Present(b) => first_load_error(*b),
        Decoded::Sequence(v) => first_load_error_seq(v@),
    }
}

/// The first failed load among the elements, in order.
pub open spec fn first_load_error_seq(v: Seq<Decoded>) -> Option<Seq<u8>>
    decreases v,
{
    if v.len() == 0 {
        Option::None
    } else {
        match first_load_error(v[0]) {
            Option::Some(m) => Option::Some(m),
            Option::None => first_load_error_seq(v.skip(1)),
        }
    }
}

/// A tree builds exactly when no load in it failed.
pub proof fn lemma_build_ok_no_error(d: Decoded)
    ensures
        build_ok(d) <==> first_load_error(d) is None,
    decreases d,
{
    match d {
        Decoded::External(o) => {
        },
        Decoded::Absent => {
        },
        Decoded::Present(b) => {
            lemma_build_ok_no_error(*b);
        },
        Decoded::Sequence(v) => {
            lemma_build_ok_no_error_seq(v@);
        },
    }
}

/// Elements all build exactly when none holds a failed load.
pub proof fn lemma_build_ok_no_error_seq(v: Seq<Decoded>)
    ensures
        (forall|i: int| 0 <= i < v.len() ==> build_ok(#[trigger] v[i])) <==> first_load_error_seq(
            v,
        ) is None,
    decreases v,
{
    if v.len() > 0 {
        lemma_build_ok_no_error(v[0]);
        lemma_build_ok_no_error_seq(v.skip(1));
        assert forall|i: int|
            0 <= i < v.len() && (forall|j: int|
                0 <= j < v.skip(1).len() ==> build_ok(#[trigger] v.skip(1)[j])) && build_ok(
                v[0],
            ) implies build_ok(#[trigger] v[i]) by {
            if i > 0 {
                assert(v.skip(1)[i - 1] == v[i]);
                assert(build_ok(v.skip(1)[i - 1]));
            }
        }
        assert forall|j: int|
            (forall|i: int| 0 <= i < v.len() ==> build_ok(#[trigger] v[i])) && 0 <= j < v.skip(
                1,
            ).len() implies build_ok(#[trigger] v.skip(1)[j]) by {
            assert(v.skip(1)[j] == v[j + 1]);
        }
    }
}

/// Leading elements that build do not carry the first failed load.
pub proof fn lemma_first_error_skip(v: Seq<Decoded>, k: int)
    requires
        0 <= k <= v.len(),
        forall|j: int| 0 <= j < k ==> build_ok(#[trigger] v[j]),
    ensures
        first_load_error_seq(v) == first_load_error_seq(v.skip(k)),
    decreases k,
{
    if k == 0 {
        assert(v.skip(0) =~= v);
    } else {
        lemma_build_ok_no_error(v[0]);
        assert forall|j: int| 0 <= j < k - 1 implies build_ok(#[trigger] v.skip(1)[j]) by {
            assert(v.skip(1)[j] == v[j + 1]);
        }
        lemma_first_error_skip(v.skip(1), k - 1);
        assert(v.skip(1).skip(k - 1) =~= v.skip(k));
    }
}

/// Build the final field value from the decoded tree: absent fields lift
/// to absent values, sequences build element-wise in order, and the
/// first failed load, in element order, aborts the build and surfaces as
/// the build error.
#[verifier::loop_isolation(false)]
pub fn build(d: &Decoded) -> (r: Result<Built, BuildError>)
    ensures
        r is Ok <==> build_ok(*d),
        r is Ok ==> built_matches(*d, r.unwrap()),
        r matches Result::Err(e) ==> first_load_error(*d) == Option::Some(e.message@),
    decreases d,
{
    match d {
        Decoded::External(o) => match o {
            Result::Ok(bytes) => Ok(Built::External(crate::paths::clone_bytes(bytes))),
            Result::Err(e) => Err(BuildError { message: crate::paths::clone_bytes(&e.message) }),
        },
        Decoded::Absent => Ok(Built::Absent),
        Decoded::Present(b) => match build(b) {
            Result::Ok(bb) => Ok(Built::Present(Box::new(bb))),
            Result::Err(e) => Err(e),
        },
        Decoded::Sequence(v) => {
            let mut out: Vec<Built> = Vec::new();
            let mut i: usize = 0;
            while i < v.len()
                invariant
                    i <= v.len(),
                    out@.len() == i,
                    forall|j: int| 0 <= j < i ==> build_ok(#[trigger] v@[j]),
                    forall|j: int| 0 <= j < i ==> built_matches(#[trigger] v@[j], out@[j]),
                decreases v.len() - i,
            {
                match build(&v[i]) {
                    Result::Ok(bb) => {
                        out.push(bb);
                    },
                    Result::Err(e) => {
                        proof {
                            lemma_first_error_skip(v@, i as int);
                            assert(v@.skip(i as int)[0] == v@[i as int]);
                        }
                        return Err(e);
                    },
                }
                i = i + 1;
            }
            Ok(Built::Sequence(out))
        },
    }
}

/// Option lift: an absent optional field asks the loader for nothing and
/// decodes to the absent value, whatever the table holds; a present one
/// asks and decodes exactly as its inner field does.
pub proof fn lemma_option_lift(t: Seq<(u128, LoadOutcome)>, b: Box<Info>)
    ensures
        info_requests(Info::Absent) == Seq::<u128>::empty(),
        covered(Info::Absent, t),
        forall|d: Decoded| decoded_matches(Info::Absent, t, d) <==> d matches Decoded::Absent,
        info_requests(Info::Present(b)) == info_requests(*b),
        covered(Info::Present(b), t) == covered(*b, t),
{
}

/// Sequence ordering: a decoded sequence holds exactly one element per
/// description, in input order, the i-th decoded from the i-th
/// description.
pub proof fn lemma_sequence_order(v: Vec<Info>, t: Seq<(u128, LoadOutcome)>, dv: Vec<Decoded>)
    requires
        decoded_matches(Info::Sequence(v), t, Decoded::Sequence(dv)),
    ensures
        dv@.len() == v@.len(),
        forall|i: int| 0 <= i < v@.len() ==> decoded_matches(#[trigger] v@[i], t, dv@[i]),
{
}

/// Completion order does not matter: two tables that give the same first
/// answer to every identifier decode every description alike.
pub proof fn lemma_decode_order_independent(
    info: Info,
    t1: Seq<(u128, LoadOutcome)>,
    t2: Seq<(u128, LoadOutcome)>,
    d: Decoded,
)
    requires
        forall|u: u128| table_has(t1, u) <==> table_has(t2, u),
        forall|u: u128, o: LoadOutcome| table_first(t1, u, o) <==> table_first(t2, u, o),
    ensures
        covered(info, t1) <==> covered(info, t2),
        decoded_matches(info, t1, d) <==> decoded_matches(info, t2, d),
    decreases info,
{
    match info {
        Info::External(u) => {
        },
        Info::Absent => {
        },
        Info::Present(b) => {
            match d {
                Decoded::Present(db) => {
                    lemma_decode_order_independent(*b, t1, t2, *db);
                },
                _ => {
                    lemma_decode_order_independent(*b, t1, t2, d);
                },
            }
        },
        Info::Sequence(v) => {
            match d {
                Decoded::Sequence(dv) => {
                    assert forall|i: int| 0 <= i < v@.len() implies (covered(
                        #[trigger] v@[i],
                        t1,
                    ) <==> covered(v@[i], t2)) by {
                        lemma_decode_order_independent(v@[i], t1, t2, d);
                    }
                    if dv@.len() == v@.len() {
                        assert forall|i: int| 0 <= i < v@.len() implies (decoded_matches(
                            #[trigger] v@[i],
                            t1,
                            dv@[i],
                        ) <==> decoded_matches(v@[i], t2, dv@[i])) by {
                            lemma_decode_order_independent(v@[i], t1, t2, dv@[i]);
                        }
                    }
                },
                _ => {
                    assert forall|i: int| 0 <= i < v@.len() implies (covered(
                        #[trigger] v@[i],
                        t1,
                    ) <==> covered(v@[i], t2)) by {
                        lemma_decode_order_independent(v@[i], t1, t2, d);
                    }
                },
            }
        },
    }
}

} // verus!
