//! Identifiers and versions: random 128-bit asset identifiers, their
//! hyphenated text form, and the millisecond version token derived from a
//! file modification time.

use vstd::prelude::*;

verus! {

/// A file modification time, as the duration since the Unix epoch.
#[derive(Clone, Copy, Debug, PartialEq, Eq, Structural)]
pub struct Mtime {
    pub secs: u64,
    pub nanos: u32,
}

/// Strict order on modification times: seconds first, then nanoseconds.
pub open spec fn mtime_lt(a: Mtime, b: Mtime) -> bool {
    a.secs < b.secs || (a.secs == b.secs && a.nanos < b.nanos)
}

/// The whole milliseconds a modification time holds.
pub open spec fn millis_of(m: Mtime) -> int {
    m.secs * 1000 + m.nanos / 1_000_000
}

/// The version token of a modification time: its milliseconds since the
/// epoch, truncated to 64 bits.
pub open spec fn version_of(m: Mtime) -> u64 {
    (millis_of(m) % 0x1_0000_0000_0000_0000) as u64
}

/// Compare two modification times.
pub fn mtime_before(a: &Mtime, b: &Mtime) -> (r: bool)
    ensures
        r == mtime_lt(*a, *b),
{
    a.secs < b.secs || (a.secs == b.secs && a.nanos < b.nanos)
}

/// The version exposed to callers for a native file with modification time
/// `m`: whole milliseconds since the epoch, truncated to 64 bits.
pub fn version_from_systime(m: Mtime) -> (r: u64)
    ensures
        r == version_of(m),
{
    let ms: u128 = (m.secs as u128) * 1000 + ((m.nanos / 1_000_000) as u128);
    (ms % 0x1_0000_0000_0000_0000) as u64
}

/// Rewriting a file strictly later yields a strictly larger version, as long
/// as the clock resolution shows the difference in whole milliseconds and
/// the millisecond count still fits the 64-bit token.
pub proof fn lemma_version_monotonic(a: Mtime, b: Mtime)
    requires
        millis_of(a) < millis_of(b),
        millis_of(b) < 0x1_0000_0000_0000_0000,
    ensures
        version_of(a) < version_of(b),
{
}

/// Relies on `uuid::Uuid::new_v4` and `uuid::Uuid::as_u128`: a freshly
/// drawn random version-4 identifier, returned as its 128-bit value.
/// Nothing is promised of the value; callers treat every outcome alike.
#[verifier::external_body]
pub(crate) fn new_v4_bits() -> u128 {
    uuid::Uuid::new_v4().as_u128()
}

/// Sixteen to the power `k`.
pub open spec fn p16(k: nat) -> int
    decreases k,
{
    if k == 0 {
        1
    } else {
        16 * p16((k - 1) as nat)
    }
}

pub proof fn lemma_p16_pos(k: nat)
    ensures
        p16(k) >= 1,
    decreases k,
{
    if k > 0 {
        lemma_p16_pos((k - 1) as nat);
    }
}

/// The lower-case hex digit for a value below sixteen.
pub open spec fn hex_digit(n: u8) -> u8 {
    if n < 10 {
        (48 + n) as u8
    } else {
        (87 + n) as u8
    }
}

/// The 32 hex nibbles of a 128-bit value, most significant first.
pub open spec fn nibbles_of(u: u128) -> Seq<u8> {
    Seq::new(32, |i: int| ((u as int / p16((31 - i) as nat)) % 16) as u8)
}

/// The position of the hex digit that feeds byte `i` of the hyphenated
/// form, skipping the four hyphens.
pub open spec fn hyph_index(i: int) -> int {
    if i < 8 {
        i
    } else if i < 13 {
        i - 1
    } else if i < 18 {
        i - 2
    } else if i < 23 {
        i - 3
    } else {
        i - 4
    }
}

/// The hyphenated text form of an identifier: 32 lower-case hex digits in
/// the 8-4-4-4-12 grouping, separated by `-`.
pub open spec fn hyphenated_of(u: u128) -> Seq<u8> {
    Seq::new(
        36,
        |i: int|
            if i == 8 || i == 13 || i == 18 || i == 23 {
                45u8
            } else {
                hex_digit(nibbles_of(u)[hyph_index(i)])
            },
    )
}

/// Append the `k` trailing hex nibbles of `u`, most significant first.
fn push_nibbles(u: u128, k: usize, out: &mut Vec<u8>)
    requires
        k <= 32,
    ensures
        final(out)@ == old(out)@ + Seq::new(k as nat, |i: int| ((u as int / p16((k - 1 - i) as nat)) % 16) as u8),
    decreases k,
{
    if k > 0 {
        push_nibbles(u / 16, k - 1, out);
        let n: u8 = (u % 16) as u8;
        out.push(n);
        proof {
            let s = Seq::new(k as nat, |i: int| ((u as int / p16((k - 1 - i) as nat)) % 16) as u8);
            let s1 = Seq::new(
                (k - 1) as nat,
                |i: int| (((u / 16) as int / p16((k - 2 - i) as nat)) % 16) as u8,
            );
            assert forall|i: int| 0 <= i < k - 1 implies s1[i] == s[i] by {
                lemma_p16_pos((k - 2 - i) as nat);
                vstd::arithmetic::div_mod::lemma_div_denominator(
                    u as int,
                    16,
                    p16((k - 2 - i) as nat),
                );
                assert(p16((k - 1 - i) as nat) == 16 * p16((k - 2 - i) as nat));
            }
            assert(s[k - 1] == ((u as int / p16(0)) % 16) as u8);
            assert(s1.push(n) =~= s);
            assert(out@ =~= old(out)@ + s);
        }
    } else {
        proof {
            assert(out@ =~= old(out)@ + Seq::<u8>::empty());
        }
    }
}

/// Render an identifier in its hyphenated text form.
pub fn hyphenated(u: u128) -> (r: Vec<u8>)
    ensures
        r@ == hyphenated_of(u),
{
    let mut h: Vec<u8> = Vec::new();
    push_nibbles(u, 32, &mut h);
    proof {
        assert(h@ =~= nibbles_of(u));
    }
    let mut out: Vec<u8> = Vec::new();
    let mut i: usize = 0;
    while i < 36
        invariant
            i <= 36,
            h@ == nibbles_of(u),
            out@ == hyphenated_of(u).take(i as int),
        decreases 36 - i,
    {
        if i == 8 || i == 13 || i == 18 || i == 23 {
            out.push(45u8);
        } else {
            let j: usize = if i < 8 {
                i
            } else if i < 13 {
                i - 1
            } else if i < 18 {
                i - 2
            } else if i < 23 {
                i - 3
            } else {
                i - 4
            };
            let n = h[j];
            proof {
                assert(n < 16);
            }
            let d: u8 = if n < 10 {
                48 + n
            } else {
                87 + n
            };
            out.push(d);
        }
        proof {
            assert(out@ =~= hyphenated_of(u).take(i + 1));
        }
        i = i + 1;
    }
    proof {
        assert(hyphenated_of(u).take(36) =~= hyphenated_of(u));
    }
    out
}

/// Every byte of the hyphenated form is a hyphen or a lower-case hex
/// digit; in particular it is never a path separator.
pub proof fn lemma_hyph_byte(u: u128, i: int)
    requires
        0 <= i < 36,
    ensures
        hyphenated_of(u)[i] == 45u8 || (48u8 <= hyphenated_of(u)[i] <= 57u8) || (97u8
            <= hyphenated_of(u)[i] <= 102u8),
{
}

/// The value of a nibble sequence read most significant first.
pub open spec fn nibval(s: Seq<u8>) -> int
    decreases s.len(),
{
    if s.len() == 0 {
        0
    } else {
        nibval(s.drop_last()) * 16 + s.last()
    }
}

/// Reading back the nibbles of `u` recovers `u`.
pub proof fn lemma_nibval_nibbles(u: u128, k: nat)
    requires
        k <= 32,
    ensures
        nibval(nibbles_of(u).take(k as int)) == u as int / p16((32 - k) as nat),
    decreases k,
{
    if k == 0 {
        assert(nibbles_of(u).take(0) =~= Seq::<u8>::empty());
        lemma_p16_32();
        assert(u < 0x1_0000_0000_0000_0000_0000_0000_0000_0000);
        vstd::arithmetic::div_mod::lemma_basic_div(u as int, p16(32));
    } else {
        lemma_nibval_nibbles(u, (k - 1) as nat);
        let t = nibbles_of(u).take(k as int);
        assert(t.drop_last() =~= nibbles_of(u).take(k - 1));
        assert(t.last() == ((u as int / p16((32 - k) as nat)) % 16) as u8);
        let x = u as int / p16((32 - k) as nat);
        lemma_p16_pos((32 - k) as nat);
        vstd::arithmetic::div_mod::lemma_div_denominator(u as int, p16((32 - k) as nat), 16);
        vstd::arithmetic::mul::lemma_mul_is_commutative(p16((32 - k) as nat), 16);
        assert(p16((33 - k) as nat) == 16 * p16((32 - k) as nat));
        assert(x / 16 == u as int / p16((33 - k) as nat));
        assert(x == (x / 16) * 16 + x % 16) by {
            vstd::arithmetic::div_mod::lemma_fundamental_div_mod(x, 16);
        }
    }
}

/// A nibble sequence's value is nonnegative and below sixteen to its
/// length.
pub proof fn lemma_nibval_bounds(s: Seq<u8>)
    requires
        forall|i: int| 0 <= i < s.len() ==> s[i] < 16,
    ensures
        0 <= nibval(s) < p16(s.len()),
    decreases s.len(),
{
    if s.len() == 0 {
    } else {
        assert forall|i: int| 0 <= i < s.drop_last().len() implies s.drop_last()[i] < 16 by {
            assert(s.drop_last()[i] == s[i]);
        }
        lemma_nibval_bounds(s.drop_last());
        assert(s.last() < 16);
    }
}

/// Each digit of a nibble sequence is recovered from its value.
pub proof fn lemma_nibval_digit(s: Seq<u8>, j: int)
    requires
        forall|i: int| 0 <= i < s.len() ==> s[i] < 16,
        0 <= j < s.len(),
    ensures
        (nibval(s) / p16((s.len() - 1 - j) as nat)) % 16 == s[j],
    decreases s.len(),
{
    assert forall|i: int| 0 <= i < s.drop_last().len() implies s.drop_last()[i] < 16 by {
        assert(s.drop_last()[i] == s[i]);
    }
    lemma_nibval_bounds(s.drop_last());
    let d = nibval(s.drop_last());
    if j == s.len() - 1 {
        assert(p16(0) == 1);
        vstd::arithmetic::div_mod::lemma_div_basics(nibval(s));
        vstd::arithmetic::div_mod::lemma_mod_multiples_vanish(d, s.last() as int, 16);
        vstd::arithmetic::div_mod::lemma_small_mod(s.last() as nat, 16);
    } else {
        lemma_nibval_digit(s.drop_last(), j);
        assert(s.drop_last()[j] == s[j]);
        vstd::arithmetic::div_mod::lemma_fundamental_div_mod_converse(
            nibval(s),
            16,
            d,
            s.last() as int,
        );
        assert(nibval(s) / 16 == d);
        let k = (s.len() - 1 - j) as nat;
        lemma_p16_pos((k - 1) as nat);
        vstd::arithmetic::div_mod::lemma_div_denominator(nibval(s), 16, p16((k - 1) as nat));
        assert(p16(k) == 16 * p16((k - 1) as nat));
        assert(nibval(s) / p16(k) == d / p16((k - 1) as nat));
        assert(s.drop_last().len() - 1 - j == k - 1);
    }
}

/// The value a hex digit stands for, if the byte is a lower-case hex digit.
pub fn hex_val(b: u8) -> (r: Option<u8>)
    ensures
        r is Some ==> r.unwrap() < 16 && hex_digit(r.unwrap()) == b,
        forall|d: u8| d < 16 && hex_digit(d) == b ==> r == Some(d),
{
    if 48 <= b && b <= 57 {
        Some(b - 48)
    } else if 97 <= b && b <= 102 {
        Some(b - 87)
    } else {
        None
    }
}

/// Read an identifier back from its hyphenated text form.
pub fn parse_hyphenated(s: &Vec<u8>) -> (r: Option<u128>)
    ensures
        forall|u: u128| s@ == hyphenated_of(u) ==> r == Some(u),
        r matches Option::Some(u) ==> s@ == hyphenated_of(u),
{
    if s.len() != 36 {
        proof {
            assert forall|u: u128| s@ != hyphenated_of(u) by {
                assert(hyphenated_of(u).len() == 36);
            }
        }
        return None;
    }
    let mut ds: Vec<u8> = Vec::new();
    let mut i: usize = 0;
    while i < 36
        invariant
            i <= 36,
            s@.len() == 36,
            ds@.len() == i - dashes_before(i as int),
            forall|m: int| 0 <= m < ds@.len() ==> ds@[m] < 16,
            forall|m: int|
                0 <= m < ds@.len() ==> s@[spec_digit_pos(m)] == hex_digit(ds@[m]),
            forall|j: int|
                0 <= j < i && (j == 8 || j == 13 || j == 18 || j == 23) ==> s@[j] == 45u8,
        decreases 36 - i,
    {
        if i == 8 || i == 13 || i == 18 || i == 23 {
            if s[i] != 45u8 {
                proof {
                    assert forall|u: u128| s@ != hyphenated_of(u) by {
                        assert(hyphenated_of(u)[i as int] == 45u8);
                    }
                }
                return None;
            }
        } else {
            match hex_val(s[i]) {
                Option::Some(d) => {
                    ds.push(d);
                    proof {
                        assert(spec_digit_pos(ds@.len() - 1) == i as int);
                    }
                },
                Option::None => {
                    proof {
                        assert forall|u: u128| s@ != hyphenated_of(u) by {
                            assert(hyphenated_of(u)[i as int] == hex_digit(
                                nibbles_of(u)[hyph_index(i as int)],
                            ));
                            assert(nibbles_of(u)[hyph_index(i as int)] < 16);
                        }
                    }
                    return None;
                },
            }
        }
        i = i + 1;
    }
    let mut acc: u128 = 0;
    let mut m: usize = 0;
    proof {
        assert(ds@.len() == 32);
    }
    while m < 32
        invariant
            m <= 32,
            ds@.len() == 32,
            forall|j: int| 0 <= j < 32 ==> ds@[j] < 16,
            acc as int == nibval(ds@.take(m as int)),
            (acc as int) < p16(m as nat),
        decreases 32 - m,
    {
        proof {
            lemma_p16_pos(m as nat);
            lemma_p16_pos((m + 1) as nat);
            lemma_p16_32();
            lemma_p16_grows((m + 1) as nat, 32);
            assert(ds@.take(m + 1).drop_last() =~= ds@.take(m as int));
            assert(ds@.take(m + 1).last() == ds@[m as int]);
        }
        acc = acc * 16 + (ds[m] as u128);
        m = m + 1;
    }
    proof {
        assert(ds@.take(32) =~= ds@);
        lemma_nibval_bounds(ds@);
        lemma_p16_32();
        assert forall|j: int| 0 <= j < 32 implies nibbles_of(acc)[j] == ds@[j] by {
            lemma_nibval_digit(ds@, j);
            assert(ds@.len() - 1 - j == 31 - j);
            assert(nibbles_of(acc)[j] == ((acc as int / p16((31 - j) as nat)) % 16) as u8);
        }
        assert forall|i: int| 0 <= i < 36 implies s@[i] == hyphenated_of(acc)[i] by {
            if i == 8 || i == 13 || i == 18 || i == 23 {
                assert(s@[i] == 45u8);
            } else {
                let m = hyph_index(i);
                assert(0 <= m < 32);
                assert(spec_digit_pos(m) == i);
                assert(s@[spec_digit_pos(m)] == hex_digit(ds@[m]));
                assert(hyphenated_of(acc)[i] == hex_digit(nibbles_of(acc)[m]));
            }
        }
        assert(s@ =~= hyphenated_of(acc));
        assert forall|u: u128| s@ == hyphenated_of(u) implies acc == u by {
            assert forall|j: int| 0 <= j < 32 implies ds@[j] == nibbles_of(u)[j] by {
                let pos = spec_digit_pos(j);
                assert(s@[pos] == hex_digit(ds@[j]));
                assert(hyphenated_of(u)[pos] == hex_digit(nibbles_of(u)[j]));
                assert(nibbles_of(u)[j] < 16);
                assert(ds@[j] < 16);
            }
            assert(ds@ =~= nibbles_of(u));
            lemma_nibval_nibbles(u, 32);
            assert(nibval(nibbles_of(u).take(32)) == u as int / p16(0));
        }
    }
    Some(acc)
}

/// How many hyphens precede byte `i` of the hyphenated form.
pub open spec fn dashes_before(i: int) -> int {
    (if i > 8 { 1int } else { 0int }) + (if i > 13 { 1int } else { 0int }) + (if i > 18 {
        1int
    } else {
        0int
    }) + (if i > 23 { 1int } else { 0int })
}

/// The byte position of hex digit `m` in the hyphenated form.
pub open spec fn spec_digit_pos(m: int) -> int {
    if m < 8 {
        m
    } else if m < 12 {
        m + 1
    } else if m < 16 {
        m + 2
    } else if m < 20 {
        m + 3
    } else {
        m + 4
    }
}

/// Sixteen to the thirty-second power, spelled out.
pub proof fn lemma_p16_32()
    ensures
        p16(32) == 0x1_0000_0000_0000_0000_0000_0000_0000_0000,
{
    reveal_with_fuel(p16, 33);
}

/// `p16` is monotone.
pub proof fn lemma_p16_grows(a: nat, b: nat)
    requires
        a <= b,
    ensures
        p16(a) <= p16(b),
    decreases b,
{
    if a < b {
        lemma_p16_grows(a, (b - 1) as nat);
        lemma_p16_pos((b - 1) as nat);
    }
}

} // verus!
