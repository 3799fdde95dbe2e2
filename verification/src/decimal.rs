//! ASCII decimal numerals: what a run of digits denotes, how a number is
//! written, and that reading undoes writing.

use vstd::prelude::*;
use vstd::slice::slice_subrange;

verus! {

/// The byte of the digit `0`; the other digits follow it in order.
pub const ZERO: u8 = 48;

/// The byte of the digit `9`.
pub const NINE: u8 = 57;

/// The byte of the minus sign.
pub const MINUS: u8 = 45;

/// `b` is one of the ASCII digits `0` to `9`.
pub open spec fn is_digit(b: u8) -> bool {
    ZERO <= b && b <= NINE
}

/// Every byte of `s` is an ASCII digit.
pub open spec fn all_digits(s: Seq<u8>) -> bool {
    forall|i: int| 0 <= i < s.len() ==> is_digit(#[trigger] s[i])
}

/// The number that the digits of `s` denote in base ten, the first digit
/// being the most significant. Meaningful where `all_digits(s)`.
pub open spec fn digits_value(s: Seq<u8>) -> nat
    decreases s.len(),
{
    if s.len() == 0 {
        0
    } else {
        digits_value(s.drop_last()) * 10 + (s.last() - ZERO) as nat
    }
}

/// The value of an unsigned numeral: one or more digits and nothing else.
pub open spec fn unsigned_value(s: Seq<u8>) -> Option<nat> {
    if s.len() > 0 && all_digits(s) {
        Some(digits_value(s))
    } else {
        None
    }
}

/// The value of a signed numeral: an unsigned numeral, or `-` followed by one.
pub open spec fn signed_value(s: Seq<u8>) -> Option<int> {
    if s.len() > 0 && s[0] == MINUS {
        match unsigned_value(s.skip(1)) {
            Some(v) => Some(-(v as int)),
            None => None,
        }
    } else {
        match unsigned_value(s) {
            Some(v) => Some(v as int),
            None => None,
        }
    }
}

/// The shortest numeral of `n`: no leading zero, except for zero itself.
pub open spec fn decimal(n: nat) -> Seq<u8>
    decreases n,
{
    if n < 10 {
        seq![(ZERO + n) as u8]
    } else {
        decimal(n / 10).push((ZERO + n % 10) as u8)
    }
}

/// The numeral of an integer: `-` before the numeral of a negative number's
/// magnitude.
pub open spec fn signed_decimal(i: int) -> Seq<u8> {
    if i < 0 {
        seq![MINUS] + decimal((-i) as nat)
    } else {
        decimal(i as nat)
    }
}

/// A longer run of digits denotes at least as much as any of its prefixes.
pub proof fn lemma_prefix_value_is_smaller(s: Seq<u8>, k: int)
    requires
        all_digits(s),
        0 <= k <= s.len(),
    ensures
        digits_value(s.take(k)) <= digits_value(s),
    decreases s.len(),
{
    if k == s.len() {
        assert(s.take(k) =~= s);
    } else {
        assert(s.drop_last().take(k) =~= s.take(k));
        lemma_prefix_value_is_smaller(s.drop_last(), k);
    }
}

/// A numeral as `decimal` writes it is made of digits and denotes the number
/// it was written for.
pub proof fn lemma_decimal_round_trip(n: nat)
    ensures
        decimal(n).len() > 0,
        all_digits(decimal(n)),
        unsigned_value(decimal(n)) == Some(n),
    decreases n,
{
    if n < 10 {
        let s = decimal(n);
        assert(s.drop_last() =~= Seq::<u8>::empty());
        assert(digits_value(s.drop_last()) == 0);
    } else {
        lemma_decimal_round_trip(n / 10);
        let s = decimal(n);
        assert(s.drop_last() =~= decimal(n / 10));
        assert(s.last() == (ZERO + n % 10) as u8);
    }
}

/// Reading a signed numeral as `signed_decimal` writes it gives the integer back.
pub proof fn lemma_signed_decimal_round_trip(i: int)
    ensures
        signed_decimal(i).len() > 0,
        signed_value(signed_decimal(i)) == Some(i),
{
    if i < 0 {
        let m = (-i) as nat;
        lemma_decimal_round_trip(m);
        let s = signed_decimal(i);
        assert(s.skip(1) =~= decimal(m));
    } else {
        lemma_decimal_round_trip(i as nat);
        assert(is_digit(decimal(i as nat)[0]));
    }
}

/// A numeral that `signed_decimal` writes is made of digits and, at most,
/// a minus sign.
pub proof fn lemma_signed_decimal_bytes(i: int)
    ensures
        forall|k: int|
            0 <= k < signed_decimal(i).len() ==> is_digit(#[trigger] signed_decimal(i)[k])
                || signed_decimal(i)[k] == MINUS,
{
    if i < 0 {
        lemma_decimal_round_trip((-i) as nat);
        let d = decimal((-i) as nat);
        assert forall|k: int| 0 <= k < signed_decimal(i).len() implies is_digit(
            #[trigger] signed_decimal(i)[k],
        ) || signed_decimal(i)[k] == MINUS by {
            if k > 0 {
                assert(signed_decimal(i)[k] == d[k - 1]);
                assert(is_digit(d[k - 1]));
            }
        }
    } else {
        lemma_decimal_round_trip(i as nat);
        let d = decimal(i as nat);
        assert forall|k: int| 0 <= k < signed_decimal(i).len() implies is_digit(
            #[trigger] signed_decimal(i)[k],
        ) || signed_decimal(i)[k] == MINUS by {
            assert(is_digit(d[k]));
        }
    }
}

/// Reads an unsigned numeral that fits in 64 bits.
///
/// `None` where `s` is not an unsigned numeral, or denotes more than
/// `u64::MAX`.
pub fn parse_u64(s: &[u8]) -> (r: Option<u64>)
    ensures
        r == match unsigned_value(s@) {
            Some(v) => if v <= u64::MAX {
                Some(v as u64)
            } else {
                None
            },
            None => None,
        },
{
    let n = s.len();
    if n == 0 {
        return None;
    }
    let mut acc: u64 = 0;
    let mut i: usize = 0;
    while i < n
        invariant
            n == s@.len(),
            0 <= i <= n,
            all_digits(s@.take(i as int)),
            acc == digits_value(s@.take(i as int)),
        decreases n - i,
    {
        let b = s[i];
        if b < ZERO || b > NINE {
            assert(!is_digit(s@[i as int]));
            return None;
        }
        let d: u64 = (b - ZERO) as u64;
        proof {
            let t = s@.take(i + 1);
            assert(t.drop_last() =~= s@.take(i as int));
            assert(t.last() == b);
            assert(digits_value(t) == acc * 10 + d);
            assert forall|k: int| 0 <= k < t.len() implies is_digit(#[trigger] t[k]) by {
                if k < i {
                    assert(is_digit(s@.take(i as int)[k]));
                }
            }
        }
        let next = match acc.checked_mul(10) {
            Some(m) => m.checked_add(d),
            None => None,
        };
        match next {
            Some(v) => {
                acc = v;
            },
            None => {
                proof {
                    if all_digits(s@) {
                        lemma_prefix_value_is_smaller(s@, i + 1);
                    }
                }
                return None;
            },
        }
        i += 1;
    }
    assert(s@.take(n as int) =~= s@);
    Some(acc)
}

/// Reads a signed numeral that fits in 64 bits.
///
/// `None` where `s` is not a signed numeral, or denotes a value outside
/// `i64::MIN ..= i64::MAX`.
pub fn parse_i64(s: &[u8]) -> (r: Option<i64>)
    ensures
        r == match signed_value(s@) {
            Some(v) => if i64::MIN <= v <= i64::MAX {
                Some(v as i64)
            } else {
                None
            },
            None => None,
        },
{
    let n = s.len();
    if n > 0 && s[0] == MINUS {
        let digits = slice_subrange(s, 1, n);
        assert(digits@ =~= s@.skip(1));
        match parse_u64(digits) {
            Some(m) => {
                if m < 0x8000_0000_0000_0000 {
                    Some(-(m as i64))
                } else if m == 0x8000_0000_0000_0000 {
                    Some(i64::MIN)
                } else {
                    None
                }
            },
            None => None,
        }
    } else {
        match parse_u64(s) {
            Some(m) => {
                if m <= 0x7fff_ffff_ffff_ffff {
                    Some(m as i64)
                } else {
                    None
                }
            },
            None => None,
        }
    }
}

/// Appends the numeral of `v` to `out`.
pub fn push_u64(out: &mut Vec<u8>, v: u64)
    ensures
        final(out)@ == old(out)@ + decimal(v as nat),
    decreases v,
{
    if v >= 10 {
        push_u64(out, v / 10);
    }
    let digit: u8 = ZERO + (v % 10) as u8;
    out.push(digit);
    assert(final(out)@ =~= old(out)@ + decimal(v as nat));
}

/// Appends the signed numeral of `v` to `out`.
pub fn push_i64(out: &mut Vec<u8>, v: i64)
    ensures
        final(out)@ == old(out)@ + signed_decimal(v as int),
{
    if v < 0 {
        out.push(MINUS);
        let magnitude: u64 = if v == i64::MIN {
            0x8000_0000_0000_0000
        } else {
            (-v) as u64
        };
        push_u64(out, magnitude);
        assert(final(out)@ =~= old(out)@ + signed_decimal(v as int));
    } else {
        push_u64(out, v as u64);
    }
}

} // verus!
