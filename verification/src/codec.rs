//! The codec's numeric layer: canonical decimal forms of `u32` and `i8`
//! values, their printers and parsers, and the sequence lemmas the
//! message-level encoding builds on.
//!
//! The parsers accept exactly the canonical forms — no leading zeros, no
//! out-of-range values — so parsing is a two-sided inverse of printing.

use vstd::prelude::*;
use vstd::arithmetic::div_mod::{lemma_fundamental_div_mod, lemma_fundamental_div_mod_converse};

verus! {

/// A decimal digit byte, `'0'` through `'9'`.
pub open spec fn is_digit(c: u8) -> bool {
    48 <= c && c <= 57
}

pub open spec fn all_digits(s: Seq<u8>) -> bool {
    forall|i: int| 0 <= i < s.len() ==> is_digit(#[trigger] s[i])
}

/// The canonical decimal digits of `n`, most significant first.
pub open spec fn dec_digits(n: nat) -> Seq<u8>
    decreases n,
{
    if n < 10 {
        seq![(48 + n) as u8]
    } else {
        dec_digits(n / 10).push((48 + n % 10) as u8)
    }
}

/// The number a digit string denotes.
pub open spec fn dec_val(s: Seq<u8>) -> int
    decreases s.len(),
{
    if s.len() == 0 {
        0
    } else {
        dec_val(s.drop_last()) * 10 + (s.last() - 48)
    }
}

/// A digit string in canonical form: nonempty, no leading zero.
pub open spec fn canonical_dec(s: Seq<u8>) -> bool {
    &&& s.len() > 0
    &&& all_digits(s)
    &&& (s.len() > 1 ==> s[0] != 48)
}

/// The printed form of every number is canonical and denotes that number.
pub proof fn lemma_dec_digits_ok(n: nat)
    ensures
        canonical_dec(dec_digits(n)),
        dec_val(dec_digits(n)) == n,
        dec_digits(n)[0] == 48 <==> n == 0,
    decreases n,
{
    if n < 10 {
        let s = dec_digits(n);
        assert(s =~= seq![(48 + n) as u8]);
        assert(dec_val(s.drop_last()) == 0);
    } else {
        lemma_dec_digits_ok(n / 10);
        lemma_fundamental_div_mod(n as int, 10);
        let p = dec_digits(n / 10);
        let s = dec_digits(n);
        assert(s == p.push((48 + n % 10) as u8));
        assert(s.drop_last() =~= p);
        assert(dec_val(s) == dec_val(p) * 10 + (s.last() - 48));
        assert(all_digits(s)) by {
            assert(forall|i: int| 0 <= i < p.len() ==> s[i] == p[i]);
        }
        assert(s[0] == p[0]);
        assert(n / 10 >= 1);
    }
}

/// A digit string with a nonzero leading digit denotes a positive number.
proof fn lemma_dec_val_pos(s: Seq<u8>)
    requires
        all_digits(s),
        s.len() > 0,
        s[0] != 48,
    ensures
        dec_val(s) >= 1,
    decreases s.len(),
{
    if s.len() == 1 {
        assert(dec_val(s.drop_last()) == 0);
    } else {
        assert(s.drop_last()[0] == s[0]);
        assert(all_digits(s.drop_last())) by {
            assert(forall|i: int| 0 <= i < s.len() - 1 ==> s.drop_last()[i] == s[i]);
        }
        lemma_dec_val_pos(s.drop_last());
    }
}

/// A digit string denotes a nonnegative number.
proof fn lemma_dec_val_nonneg(s: Seq<u8>)
    requires
        all_digits(s),
    ensures
        dec_val(s) >= 0,
    decreases s.len(),
{
    if s.len() > 0 {
        assert(all_digits(s.drop_last())) by {
            assert(forall|i: int| 0 <= i < s.len() - 1 ==> s.drop_last()[i] == s[i]);
        }
        lemma_dec_val_nonneg(s.drop_last());
    }
}

/// Printing the number a canonical digit string denotes gives that string back.
pub proof fn lemma_canonical_roundtrip(s: Seq<u8>)
    requires
        canonical_dec(s),
    ensures
        dec_val(s) >= 0,
        dec_digits(dec_val(s) as nat) == s,
    decreases s.len(),
{
    lemma_dec_val_nonneg(s);
    if s.len() == 1 {
        assert(dec_val(s.drop_last()) == 0);
        assert(dec_val(s) == s[0] - 48);
        assert(dec_digits((s[0] - 48) as nat) =~= s);
    } else {
        let p = s.drop_last();
        assert(p[0] == s[0]);
        assert(all_digits(p)) by {
            assert(forall|i: int| 0 <= i < p.len() ==> p[i] == s[i]);
        }
        lemma_canonical_roundtrip(p);
        lemma_dec_val_pos(p);
        let d = s.last() - 48;
        let v = dec_val(s);
        assert(v == dec_val(p) * 10 + d);
        assert(v >= 10) by {
            assert(dec_val(p) >= 1);
        }
        lemma_fundamental_div_mod_converse(v, 10, dec_val(p), d);
        assert(dec_digits(v as nat) == dec_digits(dec_val(p) as nat).push((48 + v % 10) as u8));
        assert(dec_digits(v as nat) =~= s);
    }
}

/// A digit string denotes at least as much as any of its prefixes.
proof fn lemma_dec_val_prefix(s: Seq<u8>, j: int)
    requires
        all_digits(s),
        0 <= j <= s.len(),
    ensures
        dec_val(s.take(j)) <= dec_val(s),
    decreases s.len() - j,
{
    if j == s.len() {
        assert(s.take(j) =~= s);
    } else {
        lemma_dec_val_prefix(s, j + 1);
        let t = s.take(j + 1);
        assert(t.drop_last() =~= s.take(j));
        assert(all_digits(s.take(j))) by {
            assert(forall|i: int| 0 <= i < j ==> s.take(j)[i] == s[i]);
        }
        lemma_dec_val_nonneg(s.take(j));
        assert(dec_val(t) == dec_val(s.take(j)) * 10 + (t.last() - 48));
        assert(dec_val(s.take(j)) * 10 >= dec_val(s.take(j))) by {
            assert(dec_val(s.take(j)) >= 0);
        }
    }
}

/// Appends the canonical decimal form of `n`.
pub fn push_u32(v: &mut Vec<u8>, n: u32)
    ensures
        final(v)@ == old(v)@ + dec_digits(n as nat),
    decreases n,
{
    if n < 10 {
        v.push(48 + n as u8);
        assert(final(v)@ =~= old(v)@ + dec_digits(n as nat));
    } else {
        push_u32(v, n / 10);
        v.push(48 + (n % 10) as u8);
        assert(final(v)@ =~= old(v)@ + dec_digits(n as nat));
    }
}

/// Parses `b[from..to]` as the canonical decimal form of a `u32`; rejects
/// anything else, including leading zeros and out-of-range values.
pub fn parse_u32_range(b: &[u8], from: usize, to: usize) -> (r: Option<u32>)
    requires
        from <= to <= b@.len(),
    ensures
        forall|n: u32| (r == Some(n)) <==> b@.subrange(from as int, to as int) == dec_digits(
            n as nat,
        ),
{
    let ghost s = b@.subrange(from as int, to as int);
    if from == to {
        proof {
            assert forall|n: u32| s != dec_digits(n as nat) by {
                lemma_dec_digits_ok(n as nat);
            }
        }
        return None;
    }
    if b[from] == 48 {
        if from + 1 == to {
            proof {
                assert(s =~= dec_digits(0));
                assert forall|n: u32| s == dec_digits(n as nat) implies n == 0 by {
                    lemma_dec_digits_ok(n as nat);
                    assert(dec_val(s) == n);
                    assert(dec_val(dec_digits(0)) == 0) by {
                        lemma_dec_digits_ok(0);
                    }
                }
            }
            return Some(0);
        } else {
            proof {
                assert forall|n: u32| s != dec_digits(n as nat) by {
                    if s == dec_digits(n as nat) {
                        lemma_dec_digits_ok(n as nat);
                        assert(s.len() > 1 && s[0] == 48);
                    }
                }
            }
            return None;
        }
    }
    let mut i = from;
    let mut val: u32 = 0;
    proof {
        assert(dec_val(b@.subrange(from as int, from as int)) == 0);
    }
    while i < to
        invariant
            from <= i <= to <= b@.len(),
            s == b@.subrange(from as int, to as int),
            b@[from as int] != 48,
            all_digits(b@.subrange(from as int, i as int)),
            val == dec_val(b@.subrange(from as int, i as int)),
        decreases to - i,
    {
        let c = b[i];
        if c < 48 || c > 57 {
            proof {
                assert forall|n: u32| s != dec_digits(n as nat) by {
                    if s == dec_digits(n as nat) {
                        lemma_dec_digits_ok(n as nat);
                        assert(is_digit(s[i - from]));
                    }
                }
            }
            return None;
        }
        let d = (c - 48) as u32;
        if val > (u32::MAX - d) / 10 {
            proof {
                let t = b@.subrange(from as int, i + 1);
                assert(t.drop_last() =~= b@.subrange(from as int, i as int));
                assert(dec_val(t) == val * 10 + d);
                assert(val * 10 + d > u32::MAX) by {
                    assert(val >= (u32::MAX - d) / 10 + 1);
                    assert((u32::MAX - d) / 10 * 10 + 10 > u32::MAX - d) by {
                        lemma_fundamental_div_mod((u32::MAX - d) as int, 10);
                    }
                    assert(val * 10 >= ((u32::MAX - d) / 10 + 1) * 10) by (nonlinear_arith)
                        requires
                            val >= (u32::MAX - d) / 10 + 1,
                    ;
                }
                assert forall|n: u32| s != dec_digits(n as nat) by {
                    if s == dec_digits(n as nat) {
                        lemma_dec_digits_ok(n as nat);
                        assert(dec_val(s) == n);
                        lemma_dec_val_prefix(s, i + 1 - from);
                        assert(s.take(i + 1 - from) =~= t);
                        assert(n >= dec_val(t));
                    }
                }
            }
            return None;
        }
        proof {
            let t = b@.subrange(from as int, i + 1);
            assert(t.drop_last() =~= b@.subrange(from as int, i as int));
            assert(all_digits(t)) by {
                assert(forall|k: int| 0 <= k < t.len() - 1 ==> t[k] == b@.subrange(
                    from as int,
                    i as int,
                )[k]);
            }
            assert(val * 10 + d <= u32::MAX) by {
                assert((u32::MAX - d) / 10 * 10 <= u32::MAX - d) by {
                    lemma_fundamental_div_mod((u32::MAX - d) as int, 10);
                }
                assert(val * 10 <= (u32::MAX - d) / 10 * 10) by (nonlinear_arith)
                    requires
                        0 <= val <= (u32::MAX - d) / 10,
                ;
            }
        }
        val = val * 10 + d;
        i = i + 1;
    }
    proof {
        assert(s =~= b@.subrange(from as int, i as int));
        assert(canonical_dec(s));
        lemma_canonical_roundtrip(s);
        assert(dec_digits(val as nat) == s);
        assert forall|n: u32| s == dec_digits(n as nat) implies n == val by {
            lemma_dec_digits_ok(n as nat);
            assert(dec_val(s) == n);
        }
    }
    Some(val)
}

/// The canonical decimal form of a signed value: a minus sign for negative
/// values, then the digits of the magnitude.
pub open spec fn i8_dec(v: int) -> Seq<u8> {
    if v < 0 {
        seq![45u8] + dec_digits((-v) as nat)
    } else {
        dec_digits(v as nat)
    }
}

/// Two concatenations with a shared prefix have equal tails.
pub proof fn lemma_concat_cancel(a: Seq<u8>, b: Seq<u8>, c: Seq<u8>)
    requires
        a + b == a + c,
    ensures
        b == c,
{
    assert((a + b).skip(a.len() as int) =~= b);
    assert((a + c).skip(a.len() as int) =~= c);
}

/// Splitting a byte string at a separator that occurs in neither half is
/// unambiguous.
pub proof fn lemma_split_unique(x1: Seq<u8>, y1: Seq<u8>, x2: Seq<u8>, y2: Seq<u8>, sep: u8)
    requires
        x1 + seq![sep] + y1 == x2 + seq![sep] + y2,
        forall|i: int| 0 <= i < x1.len() ==> x1[i] != sep,
        forall|i: int| 0 <= i < x2.len() ==> x2[i] != sep,
    ensures
        x1 == x2,
        y1 == y2,
{
    let l = x1 + seq![sep] + y1;
    let r = x2 + seq![sep] + y2;
    assert(l.len() == r.len());
    if x1.len() < x2.len() {
        assert(l[x1.len() as int] == sep);
        assert(r[x1.len() as int] == x2[x1.len() as int]);
        assert(false);
    }
    if x2.len() < x1.len() {
        assert(r[x2.len() as int] == sep);
        assert(l[x2.len() as int] == x1[x2.len() as int]);
        assert(false);
    }
    assert(l.take(x1.len() as int) =~= x1);
    assert(r.take(x2.len() as int) =~= x2);
    assert(l.skip(x1.len() as int + 1) =~= y1);
    assert(r.skip(x2.len() as int + 1) =~= y2);
}

/// Appends the canonical decimal form of a signed value.
pub fn push_i8(v: &mut Vec<u8>, n: i8)
    ensures
        final(v)@ == old(v)@ + i8_dec(n as int),
{
    let wide: i32 = n as i32;
    if wide < 0 {
        v.push(45);
        push_u32(v, (-wide) as u32);
        assert(final(v)@ =~= old(v)@ + i8_dec(n as int));
    } else {
        push_u32(v, wide as u32);
    }
}

/// Parses `b[from..to]` as the canonical decimal form of an `i8`.
pub fn parse_i8_range(b: &[u8], from: usize, to: usize) -> (r: Option<i8>)
    requires
        from <= to <= b@.len(),
    ensures
        forall|n: i8| (r == Some(n)) <==> b@.subrange(from as int, to as int) == i8_dec(n as int),
{
    let ghost s = b@.subrange(from as int, to as int);
    if from < to && b[from] == 45 {
        let parsed = parse_u32_range(b, from + 1, to);
        let ghost tail = b@.subrange(from + 1, to as int);
        proof {
            assert forall|n: i8| n < 0 implies (s == i8_dec(n as int) <==> tail == dec_digits(
                (-n) as nat,
            )) by {
                if tail == dec_digits((-n) as nat) {
                    assert(s =~= seq![45u8] + tail);
                }
                if s == i8_dec(n as int) {
                    assert(tail =~= s.subrange(1, s.len() as int));
                    assert(i8_dec(n as int).subrange(1, s.len() as int) =~= dec_digits(
                        (-n) as nat,
                    ));
                }
            }
            assert forall|n: i8| n >= 0 implies s != i8_dec(n as int) by {
                if s == i8_dec(n as int) {
                    lemma_dec_digits_ok(n as nat);
                    assert(is_digit(s[0]));
                }
            }
        }
        match parsed {
            Some(mag) if 1 <= mag && mag <= 128 => {
                let r: i8 = (-(mag as i32)) as i8;
                proof {
                    assert(tail == dec_digits(mag as nat));
                    assert(r < 0 && -(r as int) == mag);
                    assert forall|n: i8| s == i8_dec(n as int) implies n == r by {
                        assert(n < 0);
                        assert(dec_digits((-n) as nat) == dec_digits(mag as nat));
                        lemma_dec_digits_ok((-n) as nat);
                        lemma_dec_digits_ok(mag as nat);
                        assert(-n == mag);
                    }
                }
                Some(r)
            },
            _ => {
                proof {
                    assert forall|n: i8| s != i8_dec(n as int) by {
                        if s == i8_dec(n as int) {
                            assert(n < 0);
                            assert(tail == dec_digits((-n) as nat));
                            let mag_n = (-n) as nat;
                            assert(1 <= mag_n <= 128);
                            assert(parsed == Some((-n) as u32));
                        }
                    }
                }
                None
            },
        }
    } else {
        let parsed = parse_u32_range(b, from, to);
        proof {
            assert forall|n: i8| n < 0 implies s != i8_dec(n as int) by {
                if s == i8_dec(n as int) {
                    assert(s.len() >= 1);
                    assert(s[0] == 45);
                    assert(s[0] == b@[from as int]);
                    assert(false);
                }
            }
        }
        match parsed {
            Some(mag) if mag <= 127 => {
                proof {
                    assert forall|n: i8| s == i8_dec(n as int) implies n == mag by {
                        assert(n >= 0);
                        assert(dec_digits(n as nat) == dec_digits(mag as nat));
                        lemma_dec_digits_ok(n as nat);
                        lemma_dec_digits_ok(mag as nat);
                    }
                }
                Some(mag as i8)
            },
            _ => {
                proof {
                    assert forall|n: i8| s != i8_dec(n as int) by {
                        if s == i8_dec(n as int) {
                            assert(n >= 0);
                            assert(s == dec_digits(n as nat));
                            assert(parsed == Some(n as u32));
                        }
                    }
                }
                None
            },
        }
    }
}

} // verus!
