//! The versioned textual scene format: a serializer that pins every byte of
//! the output, and a strict parser that accepts exactly the serializer's
//! output and recovers exactly the snapshot it came from.
//!
//! Numbers are written in decimal without leading zeros, negative numbers
//! with a leading minus sign, tags as `0` or `1`.

use vstd::prelude::*;
use crate::scene::{EntityRec, Graph, Snapshot, load_result, snapshot_of, wf_entity, wf_entries};
use crate::scene::MAX_ID;

verus! {

/// Largest numeric magnitude the format carries; identifier and coordinate
/// bounds of the scene both lie within it.
pub const NUM_MAX: u64 = 1_000_000_000_000;

/// Decimal digit bytes `'0'` through `'9'`.
pub open spec fn is_digit(b: u8) -> bool {
    48 <= b <= 57
}

/// The decimal digits of `n`, most significant first, without leading zeros.
pub open spec fn dec_digits(n: nat) -> Seq<u8>
    decreases n,
{
    if n < 10 {
        seq![(48 + n) as u8]
    } else {
        dec_digits(n / 10) + seq![(48 + n % 10) as u8]
    }
}

/// The numeric value of a digit string, most significant digit first.
pub open spec fn dec_val(s: Seq<u8>) -> int
    decreases s.len(),
{
    if s.len() == 0 {
        0
    } else {
        dec_val(s.drop_last()) * 10 + (s.last() - 48)
    }
}

/// The digits of `n` are digits, at least one, and only `0` itself starts
/// with a zero digit.
proof fn lemma_dec_digits_shape(n: nat)
    ensures
        dec_digits(n).len() >= 1,
        forall|i: int| 0 <= i < dec_digits(n).len() ==> is_digit(#[trigger] dec_digits(n)[i]),
        dec_digits(n)[0] == 48 ==> n == 0,
    decreases n,
{
    if n >= 10 {
        lemma_dec_digits_shape(n / 10);
        assert(dec_digits(n)[0] == dec_digits(n / 10)[0]);
    }
}

/// Reading the digits of `n` back yields `n`.
proof fn lemma_dec_val_dec_digits(n: nat)
    ensures
        dec_val(dec_digits(n)) == n,
    decreases n,
{
    if n < 10 {
        assert(dec_val(Seq::<u8>::empty()) == 0);
        assert(dec_digits(n).drop_last() =~= Seq::<u8>::empty());
    } else {
        lemma_dec_val_dec_digits(n / 10);
        lemma_dec_digits_shape(n / 10);
        assert(dec_digits(n).drop_last() =~= dec_digits(n / 10));
        assert(dec_digits(n).last() == (48 + n % 10) as u8);
    }
}

/// The value of a digit string is never negative.
proof fn lemma_dec_val_nonneg(s: Seq<u8>)
    requires
        forall|i: int| 0 <= i < s.len() ==> is_digit(#[trigger] s[i]),
    ensures
        dec_val(s) >= 0,
    decreases s.len(),
{
    if s.len() > 0 {
        assert(forall|i: int| 0 <= i < s.drop_last().len() ==> #[trigger] s.drop_last()[i]
            == s[i]);
        lemma_dec_val_nonneg(s.drop_last());
    }
}

/// A digit string that does not start with a zero digit has value at least 1.
proof fn lemma_dec_val_pos(s: Seq<u8>)
    requires
        s.len() >= 1,
        forall|i: int| 0 <= i < s.len() ==> is_digit(#[trigger] s[i]),
        s[0] != 48,
    ensures
        dec_val(s) >= 1,
    decreases s.len(),
{
    if s.len() == 1 {
        assert(dec_val(Seq::<u8>::empty()) == 0);
        assert(s.drop_last() =~= Seq::<u8>::empty());
    } else {
        assert(forall|i: int| 0 <= i < s.drop_last().len() ==> #[trigger] s.drop_last()[i]
            == s[i]);
        lemma_dec_val_pos(s.drop_last());
        lemma_dec_val_nonneg(s);
    }
}

/// A nonempty digit string without a leading zero is exactly the digits of
/// its own value: the format's numbers decode to one number only.
proof fn lemma_digits_to_dec(s: Seq<u8>)
    requires
        s.len() >= 1,
        forall|i: int| 0 <= i < s.len() ==> is_digit(#[trigger] s[i]),
        s[0] == 48 ==> s.len() == 1,
    ensures
        dec_val(s) >= 0,
        dec_digits(dec_val(s) as nat) == s,
    decreases s.len(),
{
    lemma_dec_val_nonneg(s);
    if s.len() == 1 {
        assert(dec_val(Seq::<u8>::empty()) == 0);
        assert(s.drop_last() =~= Seq::<u8>::empty());
        assert(s.last() == s[0]);
        assert(dec_val(s) == s[0] - 48);
        assert(dec_digits(dec_val(s) as nat) =~= s);
    } else {
        let dl = s.drop_last();
        assert(forall|i: int| 0 <= i < dl.len() ==> #[trigger] dl[i] == s[i]);
        lemma_digits_to_dec(dl);
        lemma_dec_val_pos(dl);
        let v = dec_val(dl);
        let d = s.last() - 48;
        assert(dec_val(s) == v * 10 + d);
        assert(v * 10 + d >= 10);
        vstd::arithmetic::div_mod::lemma_fundamental_div_mod_converse(v * 10 + d, 10, v, d);
        assert(dec_digits(dec_val(s) as nat) == dec_digits(v as nat) + seq![(48 + d) as u8]);
        assert(dec_digits(dec_val(s) as nat) =~= s);
    }
}

/// A prefix of a digit string never exceeds the whole string's value.
proof fn lemma_dec_val_prefix(s: Seq<u8>, k: int)
    requires
        forall|i: int| 0 <= i < s.len() ==> is_digit(#[trigger] s[i]),
        0 <= k <= s.len(),
    ensures
        dec_val(s.take(k)) <= dec_val(s),
    decreases s.len() - k,
{
    if k == s.len() {
        assert(s.take(k) =~= s);
    } else {
        lemma_dec_val_prefix(s, k + 1);
        assert(forall|i: int| 0 <= i < k ==> #[trigger] s.take(k)[i] == s[i]);
        lemma_dec_val_nonneg(s.take(k));
        assert(s.take(k + 1).drop_last() =~= s.take(k));
        assert(dec_val(s.take(k + 1)) == dec_val(s.take(k)) * 10 + (s[k] - 48));
    }
}

/// The digits of `n` stand at position `i` of `s`, followed by the end of `s`
/// or by a byte that is no digit.
pub open spec fn dec_at(s: Seq<u8>, i: int, n: nat) -> bool {
    &&& 0 <= i
    &&& i + dec_digits(n).len() <= s.len()
    &&& s.subrange(i, i + dec_digits(n).len()) == dec_digits(n)
    &&& (i + dec_digits(n).len() == s.len() || !is_digit(s[i + dec_digits(n).len()]))
}

/// A scanned digit run that starts where the digits of `n` stand is a prefix
/// of those digits.
proof fn lemma_run_prefix(s: Seq<u8>, start: int, j: int, n: nat)
    requires
        dec_at(s, start, n),
        start <= j <= s.len(),
        forall|k: int| start <= k < j ==> is_digit(#[trigger] s[k]),
    ensures
        j <= start + dec_digits(n).len(),
        s.subrange(start, j) == dec_digits(n).take(j - start),
{
    lemma_dec_digits_shape(n);
    let dd = dec_digits(n);
    assert(forall|k: int| 0 <= k < dd.len() ==> #[trigger] s[start + k] == s.subrange(
        start,
        start + dd.len(),
    )[k]);
    if j > start + dd.len() {
        assert(is_digit(s[start + dd.len()]));
        assert(false);
    }
    assert(s.subrange(start, j) =~= dd.take(j - start));
}

/// A maximal digit run that starts where the digits of `n` stand is exactly
/// those digits.
proof fn lemma_run_exact(s: Seq<u8>, start: int, j: int, n: nat)
    requires
        dec_at(s, start, n),
        start <= j <= s.len(),
        forall|k: int| start <= k < j ==> is_digit(#[trigger] s[k]),
        j == s.len() || !is_digit(s[j]),
    ensures
        j == start + dec_digits(n).len(),
        s.subrange(start, j) == dec_digits(n),
        dec_val(s.subrange(start, j)) == n,
{
    lemma_run_prefix(s, start, j, n);
    lemma_dec_digits_shape(n);
    let dd = dec_digits(n);
    if j < start + dd.len() {
        assert(s.subrange(start, start + dd.len())[j - start] == s[j]);
        assert(is_digit(dd[j - start]));
        assert(false);
    }
    assert(dd.take(j - start) =~= dd);
    lemma_dec_val_dec_digits(n);
}

/// Reads one decimal number without a leading zero, greedily, and accepts a
/// value only up to `NUM_MAX`. Returns the value and the position after its
/// last digit. Succeeds exactly on the output of the serializer's number form.
fn parse_u64(bytes: &Vec<u8>, start: usize) -> (r: Option<(u64, usize)>)
    requires
        start <= bytes@.len(),
    ensures
        r matches Some(p) ==> {
            &&& start < p.1 <= bytes@.len()
            &&& p.0 <= NUM_MAX
            &&& bytes@.subrange(start as int, p.1 as int) == dec_digits(p.0 as nat)
            &&& (p.1 == bytes@.len() || !is_digit(bytes@[p.1 as int]))
        },
        forall|n: u64|
            n <= NUM_MAX && dec_at(bytes@, start as int, n as nat) ==> (r matches Some(p) && p.0
                == n && p.1 == start + dec_digits(n as nat).len()),
{
    let len = bytes.len();
    if start >= len || bytes[start] < 48 || bytes[start] > 57 {
        proof {
            assert forall|n: u64| n <= NUM_MAX && dec_at(bytes@, start as int, n as nat)
                implies false by {
                lemma_dec_digits_shape(n as nat);
                assert(bytes@.subrange(
                    start as int,
                    start + dec_digits(n as nat).len(),
                )[0] == bytes@[start as int]);
            }
        }
        return None;
    }
    if bytes[start] == 48 {
        if start + 1 == len || bytes[start + 1] < 48 || bytes[start + 1] > 57 {
            proof {
                assert(bytes@.subrange(start as int, start as int + 1) =~= dec_digits(0));
                assert forall|n: u64| n <= NUM_MAX && dec_at(bytes@, start as int, n as nat)
                    implies n == 0 by {
                    lemma_dec_digits_shape(n as nat);
                    assert(bytes@.subrange(
                        start as int,
                        start + dec_digits(n as nat).len(),
                    )[0] == bytes@[start as int]);
                }
            }
            return Some((0, start + 1));
        } else {
            proof {
                assert forall|n: u64| n <= NUM_MAX && dec_at(bytes@, start as int, n as nat)
                    implies false by {
                    lemma_dec_digits_shape(n as nat);
                    assert(bytes@.subrange(
                        start as int,
                        start + dec_digits(n as nat).len(),
                    )[0] == bytes@[start as int]);
                    assert(n == 0);
                    assert(dec_digits(0).len() == 1);
                    assert(is_digit(bytes@[start as int + 1]));
                }
            }
            return None;
        }
    }
    let mut acc: u64 = (bytes[start] - 48) as u64;
    let mut j: usize = start + 1;
    proof {
        let one = bytes@.subrange(start as int, start as int + 1);
        assert(dec_val(Seq::<u8>::empty()) == 0);
        assert(one.drop_last() =~= Seq::<u8>::empty());
        assert(one.last() == bytes@[start as int]);
        assert(acc as int == dec_val(bytes@.subrange(start as int, j as int)));
    }
    while j < len && 48 <= bytes[j] && bytes[j] <= 57
        invariant
            start < j <= len,
            len == bytes@.len(),
            is_digit(bytes@[start as int]),
            bytes@[start as int] != 48,
            forall|k: int| start <= k < j ==> is_digit(#[trigger] bytes@[k]),
            acc as int == dec_val(bytes@.subrange(start as int, j as int)),
            acc <= NUM_MAX * 10 + 9,
        decreases len - j,
    {
        if acc > NUM_MAX {
            proof {
                assert forall|n: u64| n <= NUM_MAX && dec_at(bytes@, start as int, n as nat)
                    implies false by {
                    lemma_run_prefix(bytes@, start as int, j as int, n as nat);
                    lemma_dec_digits_shape(n as nat);
                    lemma_dec_val_prefix(dec_digits(n as nat), j - start);
                    lemma_dec_val_dec_digits(n as nat);
                }
            }
            return None;
        }
        let d = bytes[j] - 48;
        acc = acc * 10 + d as u64;
        proof {
            assert(bytes@.subrange(start as int, j as int + 1).drop_last() =~= bytes@.subrange(
                start as int,
                j as int,
            ));
        }
        j = j + 1;
    }
    if acc > NUM_MAX {
        proof {
            assert forall|n: u64| n <= NUM_MAX && dec_at(bytes@, start as int, n as nat)
                implies false by {
                lemma_run_prefix(bytes@, start as int, j as int, n as nat);
                lemma_dec_digits_shape(n as nat);
                lemma_dec_val_prefix(dec_digits(n as nat), j - start);
                lemma_dec_val_dec_digits(n as nat);
            }
        }
        return None;
    }
    proof {
        let run = bytes@.subrange(start as int, j as int);
        assert(run[0] == bytes@[start as int]);
        assert(forall|k: int| 0 <= k < run.len() ==> #[trigger] run[k] == bytes@[start + k]);
        lemma_digits_to_dec(run);
        assert(bytes@.subrange(start as int, j as int) == dec_digits(acc as nat));
        assert forall|n: u64| n <= NUM_MAX && dec_at(bytes@, start as int, n as nat)
            implies n == acc && j == start + dec_digits(n as nat).len() by {
            lemma_run_exact(bytes@, start as int, j as int, n as nat);
        }
    }
    Some((acc, j))
}

/// A signed number: a minus sign before the digits when negative, the bare
/// digits otherwise.
pub open spec fn ser_i64(v: int) -> Seq<u8> {
    if v < 0 {
        seq![45u8] + dec_digits((-v) as nat)
    } else {
        dec_digits(v as nat)
    }
}

/// The signed number `v` stands at position `i` of `s`, followed by the end
/// of `s` or by a byte that is no digit.
pub open spec fn int_at(s: Seq<u8>, i: int, v: int) -> bool {
    &&& 0 <= i
    &&& i + ser_i64(v).len() <= s.len()
    &&& s.subrange(i, i + ser_i64(v).len()) == ser_i64(v)
    &&& (i + ser_i64(v).len() == s.len() || !is_digit(s[i + ser_i64(v).len()]))
}

/// Appends the decimal digits of `n`.
fn push_u64(v: &mut Vec<u8>, n: u64)
    ensures
        final(v)@ == old(v)@ + dec_digits(n as nat),
    decreases n,
{
    if n < 10 {
        v.push((48 + n) as u8);
        assert(v@ =~= old(v)@ + dec_digits(n as nat));
    } else {
        push_u64(v, n / 10);
        v.push((48 + n % 10) as u8);
        assert(v@ =~= old(v)@ + dec_digits(n as nat));
    }
}

/// Appends the signed decimal form of `x`.
fn push_i64(v: &mut Vec<u8>, x: i64)
    requires
        -(NUM_MAX as int) <= x <= NUM_MAX as int,
    ensures
        final(v)@ == old(v)@ + ser_i64(x as int),
{
    if x < 0 {
        v.push(45);
        push_u64(v, (-x) as u64);
        assert(v@ =~= old(v)@ + ser_i64(x as int));
    } else {
        push_u64(v, x as u64);
    }
}

/// Reads one signed decimal number: the digit form of `parse_u64`, with an
/// optional leading minus sign that must be followed by a nonzero value.
fn parse_i64(bytes: &Vec<u8>, start: usize) -> (r: Option<(i64, usize)>)
    requires
        start <= bytes@.len(),
    ensures
        r matches Some(p) ==> {
            &&& start < p.1 <= bytes@.len()
            &&& -(NUM_MAX as int) <= p.0 <= NUM_MAX as int
            &&& bytes@.subrange(start as int, p.1 as int) == ser_i64(p.0 as int)
            &&& (p.1 == bytes@.len() || !is_digit(bytes@[p.1 as int]))
        },
        forall|x: i64|
            -(NUM_MAX as int) <= x <= NUM_MAX as int && int_at(bytes@, start as int, x as int)
                ==> (r matches Some(p) && p.0 == x && p.1 == start + ser_i64(x as int).len()),
{
    let len = bytes.len();
    if start < len && bytes[start] == 45 {
        let r1 = parse_u64(bytes, start + 1);
        proof {
            assert forall|x: i64|
                -(NUM_MAX as int) <= x <= NUM_MAX as int && int_at(bytes@, start as int, x as int)
                implies x < 0 && dec_at(bytes@, start as int + 1, (-x) as nat) by {
                if x >= 0 {
                    lemma_dec_digits_shape(x as nat);
                    assert(bytes@.subrange(
                        start as int,
                        start + ser_i64(x as int).len(),
                    )[0] == bytes@[start as int]);
                    assert(false);
                } else {
                    let sv = ser_i64(x as int);
                    let dd = dec_digits((-x) as nat);
                    assert(forall|k: int| 0 <= k < sv.len() ==> #[trigger] bytes@[start + k]
                        == sv[k]);
                    assert(forall|k: int| 0 <= k < dd.len() ==> sv[1 + k] == dd[k]);
                    assert(bytes@.subrange(start as int + 1, start as int + 1 + dd.len())
                        =~= dd);
                }
            }
        }
        match r1 {
            Some((n, j)) => {
                if n == 0 {
                    proof {
                        assert forall|x: i64|
                            -(NUM_MAX as int) <= x <= NUM_MAX as int && int_at(
                                bytes@,
                                start as int,
                                x as int,
                            ) implies false by {
                            lemma_dec_digits_shape((-x) as nat);
                        }
                    }
                    None
                } else {
                    proof {
                        assert(bytes@.subrange(start as int, j as int) =~= seq![45u8]
                            + dec_digits(n as nat));
                    }
                    Some((-(n as i64), j))
                }
            },
            None => {
                proof {
                    assert forall|x: i64|
                        -(NUM_MAX as int) <= x <= NUM_MAX as int && int_at(
                            bytes@,
                            start as int,
                            x as int,
                        ) implies false by {}
                }
                None
            },
        }
    } else {
        let r1 = parse_u64(bytes, start);
        proof {
            assert forall|x: i64|
                -(NUM_MAX as int) <= x <= NUM_MAX as int && int_at(bytes@, start as int, x as int)
                implies x >= 0 && dec_at(bytes@, start as int, x as nat) by {
                if x < 0 {
                    let sv = ser_i64(x as int);
                    assert(bytes@.subrange(start as int, start + sv.len())[0] == bytes@[start as int]);
                    assert(sv[0] == 45);
                    assert(false);
                }
            }
        }
        match r1 {
            Some((n, j)) => Some((n as i64, j)),
            None => None,
        }
    }
}

/// A tag as one byte: `1` when set, `0` when not.
pub open spec fn ser_flag(b: bool) -> Seq<u8> {
    if b {
        seq![49u8]
    } else {
        seq![48u8]
    }
}

/// Reads one tag byte.
fn parse_flag(bytes: &Vec<u8>, start: usize) -> (r: Option<(bool, usize)>)
    requires
        start <= bytes@.len(),
    ensures
        r matches Some(p) ==> p.1 == start + 1 && p.1 <= bytes@.len() && bytes@.subrange(
            start as int,
            p.1 as int,
        ) == ser_flag(p.0),
        forall|b: bool|
            start + 1 <= bytes@.len() && bytes@.subrange(start as int, start as int + 1)
                == ser_flag(b) ==> (r matches Some(p) && p.0 == b && p.1 == start + 1),
{
    if start < bytes.len() {
        let c = bytes[start];
        proof {
            assert(bytes@.subrange(start as int, start as int + 1)[0] == bytes@[start as int]);
            assert(bytes@.subrange(start as int, start as int + 1) =~= seq![c]);
        }
        if c == 48 {
            Some((false, start + 1))
        } else if c == 49 {
            Some((true, start + 1))
        } else {
            None
        }
    } else {
        None
    }
}

/// One snapshot entry as a line of text: `e`, the identifier, the two tags,
/// and the three coordinates, space-separated and newline-terminated.
#[verifier::opaque]
pub open spec fn ser_entry(e: EntityRec) -> Seq<u8> {
    seq![101u8, 32u8] + dec_digits(e.id as nat) + seq![32u8] + ser_flag(e.stuff) + seq![32u8]
        + ser_flag(e.save_me) + seq![32u8] + ser_i64(e.x as int) + seq![32u8] + ser_i64(e.y as int)
        + seq![32u8] + ser_i64(e.z as int) + seq![10u8]
}

/// The line for entry `e` stands at position `i` of `s`.
pub open spec fn entry_at(s: Seq<u8>, i: int, e: EntityRec) -> bool {
    &&& 0 <= i
    &&& i + ser_entry(e).len() <= s.len()
    &&& s.subrange(i, i + ser_entry(e).len()) == ser_entry(e)
}

/// Where each field of the line for `e` stands, when that line stands at
/// position `i` of `s`: the fixed bytes, the numbers with their terminators,
/// and the tag bytes.
#[verifier::rlimit(100)]
#[verifier::spinoff_prover]
proof fn lemma_entry_fields(s: Seq<u8>, i: int, e: EntityRec)
    requires
        wf_entity(e),
        entry_at(s, i, e),
    ensures
        ({
            let o1 = i + 2 + dec_digits(e.id as nat).len();
            let o6 = o1 + 5;
            let o8 = o6 + ser_i64(e.x as int).len() + 1;
            let o10 = o8 + ser_i64(e.y as int).len() + 1;
            &&& s[i] == 101
            &&& s[i + 1] == 32
            &&& dec_at(s, i + 2, e.id as nat)
            &&& s[o1] == 32
            &&& s.subrange(o1 + 1, o1 + 2) == ser_flag(e.stuff)
            &&& s[o1 + 2] == 32
            &&& s.subrange(o1 + 3, o1 + 4) == ser_flag(e.save_me)
            &&& s[o1 + 4] == 32
            &&& int_at(s, o6, e.x as int)
            &&& s[o8 - 1] == 32
            &&& int_at(s, o8, e.y as int)
            &&& s[o10 - 1] == 32
            &&& int_at(s, o10, e.z as int)
            &&& s[o10 + ser_i64(e.z as int).len()] == 10
            &&& i + ser_entry(e).len() == o10 + ser_i64(e.z as int).len() + 1
        }),
{
    reveal(ser_entry);
    let t = ser_entry(e);
    let ld = dec_digits(e.id as nat).len() as int;
    let lx = ser_i64(e.x as int).len() as int;
    let ly = ser_i64(e.y as int).len() as int;
    let lz = ser_i64(e.z as int).len() as int;
    lemma_dec_digits_shape(e.id as nat);
    assert(forall|k: int| 0 <= k < t.len() ==> #[trigger] s[i + k] == s.subrange(
        i,
        i + t.len(),
    )[k]);
    let o1 = i + 2 + ld;
    let o6 = o1 + 5;
    let o8 = o6 + lx + 1;
    let o10 = o8 + ly + 1;
    assert(t.len() == 2 + ld + 1 + 1 + 1 + 1 + 1 + lx + 1 + ly + 1 + lz + 1);
    assert(t[0] == 101 && t[1] == 32);
    assert(forall|k: int| 0 <= k < ld ==> t[2 + k] == dec_digits(e.id as nat)[k]);
    assert(s.subrange(i + 2, i + 2 + ld) =~= dec_digits(e.id as nat));
    assert(t[2 + ld] == 32);
    assert(t[2 + ld + 1] == ser_flag(e.stuff)[0]);
    assert(s.subrange(o1 + 1, o1 + 2) =~= ser_flag(e.stuff));
    assert(t[2 + ld + 2] == 32);
    assert(t[2 + ld + 3] == ser_flag(e.save_me)[0]);
    assert(s.subrange(o1 + 3, o1 + 4) =~= ser_flag(e.save_me));
    assert(t[2 + ld + 4] == 32);
    assert(forall|k: int| 0 <= k < lx ==> t[2 + ld + 5 + k] == ser_i64(e.x as int)[k]);
    assert(s.subrange(o6, o6 + lx) =~= ser_i64(e.x as int));
    assert(t[2 + ld + 5 + lx] == 32);
    assert(forall|k: int| 0 <= k < ly ==> t[2 + ld + 5 + lx + 1 + k] == ser_i64(e.y as int)[k]);
    assert(s.subrange(o8, o8 + ly) =~= ser_i64(e.y as int));
    assert(t[2 + ld + 5 + lx + 1 + ly] == 32);
    assert(forall|k: int| 0 <= k < lz ==> t[2 + ld + 5 + lx + 1 + ly + 1 + k] == ser_i64(
        e.z as int,
    )[k]);
    assert(s.subrange(o10, o10 + lz) =~= ser_i64(e.z as int));
    assert(t[2 + ld + 5 + lx + 1 + ly + 1 + lz] == 10);
}

/// Reads one entry line, strictly: exactly the serializer's form, with the
/// identifier below its bound.
#[verifier::rlimit(100)]
#[verifier::spinoff_prover]
fn parse_entry(bytes: &Vec<u8>, start: usize) -> (r: Option<(EntityRec, usize)>)
    requires
        start <= bytes@.len(),
    ensures
        r matches Some(p) ==> {
            &&& start < p.1 <= bytes@.len()
            &&& wf_entity(p.0)
            &&& bytes@.subrange(start as int, p.1 as int) == ser_entry(p.0)
        },
        forall|e: EntityRec|
            wf_entity(e) && entry_at(bytes@, start as int, e) ==> (r matches Some(p) && p.0 == e
                && p.1 == start + ser_entry(e).len()),
{
    let ghost s = bytes@;
    let len = bytes.len();
    if start >= len || bytes[start] != 101 {
        proof {
            assert forall|e: EntityRec| wf_entity(e) && entry_at(s, start as int, e)
                implies false by {
                lemma_entry_fields(s, start as int, e);
            }
        }
        return None;
    }
    if start + 1 >= len || bytes[start + 1] != 32 {
        proof {
            assert forall|e: EntityRec| wf_entity(e) && entry_at(s, start as int, e)
                implies false by {
                lemma_entry_fields(s, start as int, e);
            }
        }
        return None;
    }
    let rid = parse_u64(bytes, start + 2);
    proof {
        assert forall|e: EntityRec| wf_entity(e) && entry_at(s, start as int, e)
            implies dec_at(s, start as int + 2, e.id as nat) && e.id <= NUM_MAX by {
            lemma_entry_fields(s, start as int, e);
        }
    }
    let (id, j1) = match rid {
        Some(p) => p,
        None => {
            proof {
                assert forall|e: EntityRec| wf_entity(e) && entry_at(s, start as int, e)
                    implies false by {
                    lemma_entry_fields(s, start as int, e);
                }
            }
            return None;
        },
    };
    if id >= MAX_ID || j1 >= len || bytes[j1] != 32 {
        proof {
            assert forall|e: EntityRec| wf_entity(e) && entry_at(s, start as int, e)
                implies false by {
                lemma_entry_fields(s, start as int, e);
            }
        }
        return None;
    }
    let rst = parse_flag(bytes, j1 + 1);
    proof {
        assert forall|e: EntityRec| wf_entity(e) && entry_at(s, start as int, e)
            implies s.subrange(j1 + 1, j1 + 1 + 1) == ser_flag(e.stuff) by {
            lemma_entry_fields(s, start as int, e);
        }
    }
    let (stuff, j2) = match rst {
        Some(p) => p,
        None => {
            proof {
                assert forall|e: EntityRec| wf_entity(e) && entry_at(s, start as int, e)
                    implies false by {
                    lemma_entry_fields(s, start as int, e);
                }
            }
            return None;
        },
    };
    if j2 >= len || bytes[j2] != 32 {
        proof {
            assert forall|e: EntityRec| wf_entity(e) && entry_at(s, start as int, e)
                implies false by {
                lemma_entry_fields(s, start as int, e);
            }
        }
        return None;
    }
    let rsv = parse_flag(bytes, j2 + 1);
    proof {
        assert forall|e: EntityRec| wf_entity(e) && entry_at(s, start as int, e)
            implies s.subrange(j2 + 1, j2 + 1 + 1) == ser_flag(e.save_me) by {
            lemma_entry_fields(s, start as int, e);
        }
    }
    let (save_me, j3) = match rsv {
        Some(p) => p,
        None => {
            proof {
                assert forall|e: EntityRec| wf_entity(e) && entry_at(s, start as int, e)
                    implies false by {
                    lemma_entry_fields(s, start as int, e);
                }
            }
            return None;
        },
    };
    if j3 >= len || bytes[j3] != 32 {
        proof {
            assert forall|e: EntityRec| wf_entity(e) && entry_at(s, start as int, e)
                implies false by {
                lemma_entry_fields(s, start as int, e);
            }
        }
        return None;
    }
    let rx = parse_i64(bytes, j3 + 1);
    proof {
        assert forall|e: EntityRec| wf_entity(e) && entry_at(s, start as int, e)
            implies int_at(s, j3 + 1, e.x as int) by {
            lemma_entry_fields(s, start as int, e);
        }
    }
    let (x, j4) = match rx {
        Some(p) => p,
        None => {
            proof {
                assert forall|e: EntityRec| wf_entity(e) && entry_at(s, start as int, e)
                    implies false by {
                    lemma_entry_fields(s, start as int, e);
                }
            }
            return None;
        },
    };
    if j4 >= len || bytes[j4] != 32 {
        proof {
            assert forall|e: EntityRec| wf_entity(e) && entry_at(s, start as int, e)
                implies false by {
                lemma_entry_fields(s, start as int, e);
            }
        }
        return None;
    }
    let ry = parse_i64(bytes, j4 + 1);
    proof {
        assert forall|e: EntityRec| wf_entity(e) && entry_at(s, start as int, e)
            implies int_at(s, j4 + 1, e.y as int) by {
            lemma_entry_fields(s, start as int, e);
        }
    }
    let (y, j5) = match ry {
        Some(p) => p,
        None => {
            proof {
                assert forall|e: EntityRec| wf_entity(e) && entry_at(s, start as int, e)
                    implies false by {
                    lemma_entry_fields(s, start as int, e);
                }
            }
            return None;
        },
    };
    if j5 >= len || bytes[j5] != 32 {
        proof {
            assert forall|e: EntityRec| wf_entity(e) && entry_at(s, start as int, e)
                implies false by {
                lemma_entry_fields(s, start as int, e);
            }
        }
        return None;
    }
    let rz = parse_i64(bytes, j5 + 1);
    proof {
        assert forall|e: EntityRec| wf_entity(e) && entry_at(s, start as int, e)
            implies int_at(s, j5 + 1, e.z as int) by {
            lemma_entry_fields(s, start as int, e);
        }
    }
    let (z, j6) = match rz {
        Some(p) => p,
        None => {
            proof {
                assert forall|e: EntityRec| wf_entity(e) && entry_at(s, start as int, e)
                    implies false by {
                    lemma_entry_fields(s, start as int, e);
                }
            }
            return None;
        },
    };
    if j6 >= len || bytes[j6] != 10 {
        proof {
            assert forall|e: EntityRec| wf_entity(e) && entry_at(s, start as int, e)
                implies false by {
                lemma_entry_fields(s, start as int, e);
            }
        }
        return None;
    }
    let built = EntityRec { id, stuff, save_me, x, y, z };
    proof {
        lemma_entry_assemble(
            s,
            start as int,
            built,
            j1 as int,
            j2 as int,
            j3 as int,
            j4 as int,
            j5 as int,
            j6 as int,
        );
        assert forall|e: EntityRec| wf_entity(e) && entry_at(s, start as int, e) implies built == e
            && j6 + 1 == start + ser_entry(e).len() by {
            lemma_entry_fields(s, start as int, e);
        }
    }
    Some((built, j6 + 1))
}

/// Reassembles a parsed line: bytes that hold each field in place, with the
/// separators between them, are exactly the serialized form of the entry.
#[verifier::rlimit(100)]
#[verifier::spinoff_prover]
proof fn lemma_entry_assemble(
    s: Seq<u8>,
    start: int,
    e: EntityRec,
    j1: int,
    j2: int,
    j3: int,
    j4: int,
    j5: int,
    j6: int,
)
    requires
        0 <= start,
        start + 2 <= j1,
        j2 == j1 + 2,
        j3 == j2 + 2,
        j3 + 1 <= j4,
        j4 + 1 <= j5,
        j5 + 1 <= j6,
        j6 + 1 <= s.len(),
        s[start] == 101,
        s[start + 1] == 32,
        s.subrange(start + 2, j1) == dec_digits(e.id as nat),
        s[j1] == 32,
        s.subrange(j1 + 1, j2) == ser_flag(e.stuff),
        s[j2] == 32,
        s.subrange(j2 + 1, j3) == ser_flag(e.save_me),
        s[j3] == 32,
        s.subrange(j3 + 1, j4) == ser_i64(e.x as int),
        s[j4] == 32,
        s.subrange(j4 + 1, j5) == ser_i64(e.y as int),
        s[j5] == 32,
        s.subrange(j5 + 1, j6) == ser_i64(e.z as int),
        s[j6] == 10,
    ensures
        s.subrange(start, j6 + 1) == ser_entry(e),
        entry_at(s, start, e),
        j6 + 1 == start + ser_entry(e).len(),
{
    reveal(ser_entry);
    assert(j1 == start + 2 + dec_digits(e.id as nat).len());
    assert(j4 == j3 + 1 + ser_i64(e.x as int).len());
    assert(j5 == j4 + 1 + ser_i64(e.y as int).len());
    assert(j6 == j5 + 1 + ser_i64(e.z as int).len());
    assert(s.subrange(start, j6 + 1) =~= ser_entry(e)) by {
        assert(forall|k: int| start + 2 <= k < j1 ==> #[trigger] s[k] == dec_digits(
            e.id as nat,
        )[k - (start + 2)]);
        assert(forall|k: int| j1 + 1 <= k < j2 ==> #[trigger] s[k] == ser_flag(e.stuff)[k - (j1
            + 1)]);
        assert(forall|k: int| j2 + 1 <= k < j3 ==> #[trigger] s[k] == ser_flag(e.save_me)[k - (j2
            + 1)]);
        assert(forall|k: int| j3 + 1 <= k < j4 ==> #[trigger] s[k] == ser_i64(e.x as int)[k - (j3
            + 1)]);
        assert(forall|k: int| j4 + 1 <= k < j5 ==> #[trigger] s[k] == ser_i64(e.y as int)[k - (j4
            + 1)]);
        assert(forall|k: int| j5 + 1 <= k < j6 ==> #[trigger] s[k] == ser_i64(e.z as int)[k - (j5
            + 1)]);
    }
}

/// The fixed first line of every scene file: the format's name and version.
pub open spec fn header() -> Seq<u8> {
    seq![115u8, 99u8, 101u8, 110u8, 101u8, 32u8, 118u8, 49u8, 10u8]
}

/// The lines of a snapshot's entries, in order.
pub open spec fn ser_entries(es: Seq<EntityRec>) -> Seq<u8>
    decreases es.len(),
{
    if es.len() == 0 {
        Seq::empty()
    } else {
        ser_entry(es[0]) + ser_entries(es.skip(1))
    }
}

/// The full textual form of a snapshot: the header line, then one line per
/// entry.
pub open spec fn spec_serialize(es: Seq<EntityRec>) -> Seq<u8> {
    header() + ser_entries(es)
}

/// Serializing one more entry appends exactly that entry's line.
proof fn lemma_ser_entries_push(es: Seq<EntityRec>, e: EntityRec)
    ensures
        ser_entries(es.push(e)) == ser_entries(es) + ser_entry(e),
    decreases es.len(),
{
    if es.len() == 0 {
        assert(es.push(e).skip(1) =~= Seq::<EntityRec>::empty());
        assert(ser_entries(Seq::<EntityRec>::empty()) == Seq::<u8>::empty());
        assert(es.push(e)[0] == e);
        assert(ser_entries(es.push(e)) == ser_entry(e) + Seq::<u8>::empty());
        assert(ser_entries(es.push(e)) =~= ser_entries(es) + ser_entry(e));
    } else {
        assert(es.push(e).skip(1) =~= es.skip(1).push(e));
        lemma_ser_entries_push(es.skip(1), e);
        assert(es.push(e)[0] == es[0]);
        assert(ser_entries(es.push(e)) == ser_entry(es[0]) + ser_entries(es.skip(1).push(e)));
        assert(ser_entries(es.push(e)) == ser_entry(es[0]) + (ser_entries(es.skip(1))
            + ser_entry(e)));
        assert(ser_entries(es) == ser_entry(es[0]) + ser_entries(es.skip(1)));
        assert(ser_entries(es.push(e)) =~= ser_entries(es) + ser_entry(e));
    }
}

/// The lines of a snapshot split at any entry boundary.
proof fn lemma_ser_entries_split(es: Seq<EntityRec>, k: int)
    requires
        0 <= k <= es.len(),
    ensures
        ser_entries(es) == ser_entries(es.take(k)) + ser_entries(es.skip(k)),
    decreases k,
{
    if k == 0 {
        assert(es.take(0) =~= Seq::<EntityRec>::empty());
        assert(es.skip(0) =~= es);
        assert(ser_entries(es) =~= ser_entries(es.take(0)) + ser_entries(es.skip(0)));
    } else {
        lemma_ser_entries_split(es.skip(1), k - 1);
        assert(es.skip(1).take(k - 1) =~= es.take(k).skip(1));
        assert(es.skip(1).skip(k - 1) =~= es.skip(k));
        assert(es.take(k)[0] == es[0]);
        assert(es.take(k).len() == k);
        assert(ser_entries(es) =~= ser_entries(es.take(k)) + ser_entries(es.skip(k)));
    }
}

/// Appends the line for one entry.
fn push_entry(v: &mut Vec<u8>, e: EntityRec)
    requires
        wf_entity(e),
    ensures
        final(v)@ == old(v)@ + ser_entry(e),
{
    v.push(101);
    v.push(32);
    push_u64(v, e.id);
    v.push(32);
    if e.stuff {
        v.push(49);
    } else {
        v.push(48);
    }
    v.push(32);
    if e.save_me {
        v.push(49);
    } else {
        v.push(48);
    }
    v.push(32);
    push_i64(v, e.x);
    v.push(32);
    push_i64(v, e.y);
    v.push(32);
    push_i64(v, e.z);
    v.push(10);
    proof {
        reveal(ser_entry);
        assert(v@ =~= old(v)@ + ser_entry(e));
    }
}

/// Serializes a snapshot to its textual scene form. The output is a pure
/// function of the snapshot: saving the same snapshot twice gives two
/// byte-identical results.
pub fn serialize_snapshot(snap: &Snapshot) -> (r: Vec<u8>)
    requires
        snap.wf(),
    ensures
        r@ == spec_serialize(snap.entries@),
{
    let ghost es = snap.entries@;
    let mut out: Vec<u8> = Vec::new();
    out.push(115);
    out.push(99);
    out.push(101);
    out.push(110);
    out.push(101);
    out.push(32);
    out.push(118);
    out.push(49);
    out.push(10);
    proof {
        assert(out@ =~= header());
        assert(es.take(0) =~= Seq::<EntityRec>::empty());
        assert(out@ =~= spec_serialize(es.take(0)));
    }
    let n = snap.entries.len();
    let mut i: usize = 0;
    while i < n
        invariant
            i <= n,
            n == es.len(),
            snap.entries@ == es,
            snap.wf(),
            out@ == spec_serialize(es.take(i as int)),
        decreases n - i,
    {
        let e = snap.entries[i];
        push_entry(&mut out, e);
        proof {
            lemma_ser_entries_push(es.take(i as int), e);
            assert(es.take(i as int + 1) =~= es.take(i as int).push(e));
            assert(out@ =~= spec_serialize(es.take(i as int + 1)));
        }
        i = i + 1;
    }
    proof {
        assert(es.take(n as int) =~= es);
    }
    out
}

/// Parses a textual scene, strictly: it returns a snapshot exactly when the
/// bytes are the serialized form of one, and then returns exactly the
/// snapshot they serialize. On any other input it returns nothing, and a
/// failed load stays a silent no-op.
#[verifier::rlimit(100)]
#[verifier::spinoff_prover]
pub fn parse_snapshot(bytes: &Vec<u8>) -> (r: Option<Snapshot>)
    ensures
        r matches Some(s) ==> s.wf() && bytes@ == spec_serialize(s.entries@),
        forall|es: Seq<EntityRec>|
            wf_entries(es) && bytes@ == spec_serialize(es) ==> (r matches Some(s) && s.entries@
                == es),
{
    let ghost sq = bytes@;
    let len = bytes.len();
    proof {
        assert forall|es: Seq<EntityRec>| wf_entries(es) && sq == spec_serialize(es)
            implies sq.len() >= 9 && sq[0] == 115 && sq[1] == 99 && sq[2] == 101 && sq[3] == 110
            && sq[4] == 101 && sq[5] == 32 && sq[6] == 118 && sq[7] == 49 && sq[8] == 10 by {
            assert(forall|k: int| 0 <= k < 9 ==> #[trigger] spec_serialize(es)[k] == header()[k]);
        }
    }
    if len < 9 {
        return None;
    }
    if bytes[0] != 115 || bytes[1] != 99 || bytes[2] != 101 || bytes[3] != 110 || bytes[4] != 101
        || bytes[5] != 32 || bytes[6] != 118 || bytes[7] != 49 || bytes[8] != 10 {
        return None;
    }
    let mut out: Vec<EntityRec> = Vec::new();
    let mut i: usize = 9;
    proof {
        assert(sq.subrange(0, 9) =~= header());
        assert(sq.subrange(0, 9) =~= header() + ser_entries(out@));
    }
    while i < len
        invariant
            9 <= i <= len,
            len == bytes@.len(),
            bytes@ == sq,
            wf_entries(out@),
            sq.subrange(0, i as int) == header() + ser_entries(out@),
            i as int == 9 + ser_entries(out@).len(),
            forall|es: Seq<EntityRec>|
                wf_entries(es) && sq == spec_serialize(es) ==> out@.len() <= es.len() && out@
                    == es.take(out@.len() as int),
        decreases len - i,
    {
        let ghost k = out@.len() as int;
        proof {
            assert forall|es: Seq<EntityRec>| wf_entries(es) && sq == spec_serialize(es)
                implies k < es.len() && wf_entity(es[k]) && entry_at(sq, i as int, es[k]) by {
                lemma_ser_entries_split(es, k);
                assert(ser_entries(es.take(k)) == ser_entries(out@));
                let rest = ser_entries(es.skip(k));
                assert(forall|m: int| 0 <= m < sq.len() - 9 ==> #[trigger] sq[9 + m]
                    == ser_entries(es)[m]);
                if k == es.len() {
                    assert(es.skip(k) =~= Seq::<EntityRec>::empty());
                    assert(sq.len() == i as int);
                    assert(false);
                }
                assert(es.skip(k)[0] == es[k]);
                assert(es.skip(k).skip(1) =~= es.skip(k + 1));
                assert(rest == ser_entry(es[k]) + ser_entries(es.skip(k + 1)));
                assert(forall|m: int| 0 <= m < rest.len() ==> #[trigger] sq[i as int + m]
                    == rest[m]);
                assert(i as int + ser_entry(es[k]).len() <= sq.len());
                assert(sq.subrange(i as int, i as int + ser_entry(es[k]).len()) =~= ser_entry(
                    es[k],
                ));
            }
        }
        let pe = parse_entry(bytes, i);
        match pe {
            None => {
                return None;
            },
            Some((e, j)) => {
                proof {
                    lemma_ser_entries_push(out@, e);
                    assert(sq.subrange(0, j as int) =~= sq.subrange(0, i as int) + sq.subrange(
                        i as int,
                        j as int,
                    ));
                    assert(sq.subrange(0, j as int) =~= header() + ser_entries(out@.push(e)));
                    assert forall|es: Seq<EntityRec>| wf_entries(es) && sq == spec_serialize(es)
                        implies out@.push(e).len() <= es.len() && out@.push(e) == es.take(
                        out@.push(e).len() as int,
                    ) by {
                        assert(entry_at(sq, i as int, es[k]));
                        assert(e == es[k]);
                        assert(out@.push(e) =~= es.take(k + 1));
                    }
                }
                out.push(e);
                i = j;
            },
        }
    }
    proof {
        assert(sq.subrange(0, len as int) =~= sq);
        assert(sq == spec_serialize(out@));
        assert forall|es: Seq<EntityRec>| wf_entries(es) && sq == spec_serialize(es) implies out@
            == es by {
            let k = out@.len() as int;
            if k < es.len() {
                lemma_ser_entries_split(es, k);
                assert(ser_entries(es.take(k)) == ser_entries(out@));
                assert(es.skip(k)[0] == es[k]);
                assert(ser_entries(es.skip(k)) == ser_entry(es[k]) + ser_entries(
                    es.skip(k).skip(1),
                ));
                lemma_entry_len(es[k]);
                assert(ser_entries(es).len() > ser_entries(out@).len());
                assert(false);
            }
            assert(es.take(k) =~= es);
        }
    }
    Some(Snapshot { entries: out })
}

/// Every entry line has at least its fixed bytes.
proof fn lemma_entry_len(e: EntityRec)
    ensures
        ser_entry(e).len() >= 2,
{
    reveal(ser_entry);
}

/// The synchronous half of a save trigger: captures the snapshot of the
/// marked entities and serializes it. The bytes are a pure function of the
/// graph's marked entities, so two saves with no intervening change are
/// byte-identical.
pub fn save_scene(g: &Graph) -> (r: Vec<u8>)
    requires
        g.wf(),
    ensures
        r@ == spec_serialize(snapshot_of(g.entities@)),
{
    let snap = g.snapshot();
    serialize_snapshot(&snap)
}

/// A whole load trigger, once the bytes are in hand: parses them and, when
/// they are a scene with room left in the graph, loads it additively. Returns
/// whether anything was loaded; on malformed bytes, or when the scene does
/// not fit, the graph stays exactly as it was — a silent no-op.
pub fn load_scene(g: &mut Graph, bytes: &Vec<u8>) -> (loaded: bool)
    requires
        old(g).wf(),
    ensures
        final(g).wf(),
        !loaded ==> *final(g) == *old(g),
        loaded ==> (exists|es: Seq<EntityRec>|
            {
                &&& wf_entries(es)
                &&& bytes@ == #[trigger] spec_serialize(es)
                &&& old(g).next_id + es.len() <= MAX_ID
                &&& final(g).entities@ == load_result(old(g).entities@, old(g).next_id, es)
                &&& final(g).next_id == old(g).next_id + es.len()
            }),
        forall|es: Seq<EntityRec>|
            wf_entries(es) && bytes@ == #[trigger] spec_serialize(es) && old(g).next_id + es.len()
                <= MAX_ID ==> loaded && final(g).entities@ == load_result(
                old(g).entities@,
                old(g).next_id,
                es,
            ),
{
    let snap = match parse_snapshot(bytes) {
        None => {
            return false;
        },
        Some(s) => s,
    };
    if !g.can_load(&snap) {
        return false;
    }
    g.load_snapshot(&snap);
    true
}

} // verus!
