//! Decimal integer literals: an optional sign, then digits and nothing else.

use vstd::prelude::*;
use vstd::string::StringSliceAdditionalSpecFns;

verus! {

/// Whether `b` is one of the bytes `0` to `9`.
pub open spec fn is_digit(b: u8) -> bool {
    48 <= b <= 57
}

/// Whether every byte of `s` is a decimal digit.
pub open spec fn all_digits(s: Seq<u8>) -> bool {
    forall|i: int| 0 <= i < s.len() ==> is_digit(#[trigger] s[i])
}

/// The number that the decimal digits `s` write.
pub open spec fn digits_value(s: Seq<u8>) -> nat
    decreases s.len(),
{
    if s.len() == 0 {
        0
    } else {
        (digits_value(s.drop_last()) * 10 + (s.last() - 48)) as nat
    }
}

/// The magnitude that `s` writes, if `s` is one digit or more, and digits
/// only.
pub open spec fn magnitude(s: Seq<u8>) -> Option<nat> {
    if s.len() > 0 && all_digits(s) {
        Some(digits_value(s))
    } else {
        None
    }
}

/// The value of an unsigned literal: digits, with `+` allowed in front.
pub open spec fn unsigned_literal(s: Seq<u8>) -> Option<nat> {
    if s.len() > 0 && s[0] == 43 {
        magnitude(s.skip(1))
    } else {
        magnitude(s)
    }
}

/// The value of a signed literal: digits, with `+` or `-` allowed in front.
pub open spec fn signed_literal(s: Seq<u8>) -> Option<int> {
    if s.len() > 0 && s[0] == 45 {
        match magnitude(s.skip(1)) {
            Some(m) => Some(-(m as int)),
            None => None,
        }
    } else {
        match unsigned_literal(s) {
            Some(m) => Some(m as int),
            None => None,
        }
    }
}

/// A number does not shrink when digits are written behind it.
pub proof fn lemma_digits_value_grows(s: Seq<u8>, k: int)
    requires
        0 <= k <= s.len(),
        all_digits(s),
    ensures
        digits_value(s.take(k)) <= digits_value(s),
    decreases s.len() - k,
{
    if k == s.len() {
        assert(s.take(k) =~= s);
    } else {
        lemma_digits_value_grows(s, k + 1);
        assert(s.take(k + 1).drop_last() =~= s.take(k));
        assert(is_digit(s[k]));
        assert(s.take(k + 1).last() == s[k]);
    }
}

/// Reads the digits of `bytes` from index `from` on as a number up to
/// `limit`. `None` where there is no digit, where another byte stands among
/// them, or where the number is over `limit`.
fn parse_magnitude(bytes: &[u8], from: usize, limit: u64) -> (r: Option<u64>)
    requires
        from <= bytes@.len(),
    ensures
        r == match magnitude(bytes@.skip(from as int)) {
            Some(m) => if m <= limit {
                Some(m as u64)
            } else {
                None
            },
            None => None,
        },
{
    let len: usize = bytes.len();
    let ghost digits = bytes@.skip(from as int);
    if from == len {
        return None;
    }
    let mut acc: u64 = 0;
    let mut i: usize = from;
    proof {
        assert(digits.take(0) =~= Seq::<u8>::empty());
    }
    while i < len
        invariant
            len == bytes@.len(),
            from <= i <= len,
            from < len,
            digits == bytes@.skip(from as int),
            all_digits(digits.take(i - from)),
            acc == digits_value(digits.take(i - from)),
            acc <= limit,
        decreases len - i,
    {
        let b: u8 = bytes[i];
        let ghost seen = digits.take(i - from);
        let ghost next = digits.take(i + 1 - from);
        proof {
            assert(next.drop_last() =~= seen);
            assert(next.last() == b);
            assert(digits[i - from] == b);
        }
        if b < 48 || b > 57 {
            return None;
        }
        let d: u64 = (b - 48) as u64;
        if d > limit || acc > (limit - d) / 10 {
            proof {
                assert(acc * 10 + d > limit);
                assert(digits_value(next) > limit);
                if all_digits(digits) {
                    lemma_digits_value_grows(digits, i + 1 - from);
                }
            }
            return None;
        }
        acc = acc * 10 + d;
        i += 1;
        proof {
            assert forall|k: int| 0 <= k < next.len() implies is_digit(#[trigger] next[k]) by {
                if k < seen.len() {
                    assert(next[k] == seen[k]);
                }
            }
        }
    }
    proof {
        assert(digits.take(len - from) =~= digits);
    }
    Some(acc)
}

/// Reads `text` as an unsigned literal that fits `usize`.
pub fn parse_usize(text: &str) -> (r: Option<usize>)
    ensures
        r == match unsigned_literal(text.spec_bytes()) {
            Some(m) => if m <= usize::MAX {
                Some(m as usize)
            } else {
                None
            },
            None => None,
        },
{
    let bytes = text.as_bytes();
    let from: usize = if bytes.len() > 0 && bytes[0] == 43 { 1 } else { 0 };
    proof {
        assert(bytes@.skip(0) =~= bytes@);
    }
    match parse_magnitude(bytes, from, usize::MAX as u64) {
        Some(m) => Some(m as usize),
        None => None,
    }
}

/// Reads `text` as a signed literal that fits `i64`.
pub fn parse_i64(text: &str) -> (r: Option<i64>)
    ensures
        r == match signed_literal(text.spec_bytes()) {
            Some(v) => if i64::MIN <= v <= i64::MAX {
                Some(v as i64)
            } else {
                None
            },
            None => None,
        },
{
    let bytes = text.as_bytes();
    if bytes.len() > 0 && bytes[0] == 45 {
        match parse_magnitude(bytes, 1, 0x8000_0000_0000_0000u64) {
            Some(m) => {
                if m == 0x8000_0000_0000_0000u64 {
                    Some(i64::MIN)
                } else {
                    Some(-(m as i64))
                }
            },
            None => None,
        }
    } else {
        let from: usize = if bytes.len() > 0 && bytes[0] == 43 { 1 } else { 0 };
        proof {
            assert(bytes@.skip(0) =~= bytes@);
        }
        match parse_magnitude(bytes, from, 0x7fff_ffff_ffff_ffffu64) {
            Some(m) => Some(m as i64),
            None => None,
        }
    }
}

} // verus!
