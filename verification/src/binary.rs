//! Binary numbers written as strings of `0` and `1`, and their sum.

use crate::text::{ascii_bytes, ascii_chars, ascii_string, is_ascii_bytes};
use vstd::arithmetic::power2::{lemma_pow2_pos, lemma_pow2_unfold, pow2};
use vstd::prelude::*;

verus! {

/// Whether `s` is made of the digits `0` and `1` only.
pub open spec fn is_binary(s: Seq<char>) -> bool {
    forall|i: int| 0 <= i < s.len() ==> (#[trigger] s[i] == '0' || s[i] == '1')
}

/// The number that a row of bits writes, the most significant bit first.
pub open spec fn bits_value(bits: Seq<bool>) -> nat
    decreases bits.len(),
{
    if bits.len() == 0 {
        0
    } else {
        2 * bits_value(bits.drop_last()) + if bits.last() {
            1nat
        } else {
            0nat
        }
    }
}

/// The bits of a string of binary digits.
pub open spec fn bits_of(s: Seq<char>) -> Seq<bool> {
    Seq::new(s.len(), |i: int| s[i] == '1')
}

/// The number that the binary digits `s` write.
pub open spec fn binary_value(s: Seq<char>) -> nat {
    bits_value(bits_of(s))
}

/// The longer of two lengths.
pub open spec fn longer(a: nat, b: nat) -> nat {
    if a >= b {
        a
    } else {
        b
    }
}

/// Bit `k` of `bits`, counted from the least significant one; bits that
/// `bits` does not have are zero.
spec fn bit(bits: Seq<bool>, k: nat) -> bool {
    k < bits.len() && bits[bits.len() - 1 - k]
}

/// What bit `k` is worth.
spec fn worth(set: bool, k: nat) -> nat {
    if set {
        pow2(k)
    } else {
        0
    }
}

/// The number that the `k` least significant bits of `bits` write.
spec fn low_value(bits: Seq<bool>, k: nat) -> nat
    decreases k,
{
    if k == 0 {
        0
    } else {
        low_value(bits, (k - 1) as nat) + worth(bit(bits, (k - 1) as nat), (k - 1) as nat)
    }
}

/// The bits that a row of digit bytes stands for.
spec fn byte_bits(bytes: Seq<u8>) -> Seq<bool> {
    Seq::new(bytes.len(), |i: int| bytes[i] == 49)
}

proof fn lemma_low_value_same_bits(a: Seq<bool>, b: Seq<bool>, k: nat)
    requires
        forall|j: nat| j < k ==> bit(a, j) == bit(b, j),
    ensures
        low_value(a, k) == low_value(b, k),
    decreases k,
{
    if k > 0 {
        lemma_low_value_same_bits(a, b, (k - 1) as nat);
    }
}

proof fn lemma_low_value_below(bits: Seq<bool>, k: nat)
    ensures
        low_value(bits, k) < pow2(k),
    decreases k,
{
    lemma_pow2_pos(k);
    if k > 0 {
        lemma_low_value_below(bits, (k - 1) as nat);
        lemma_pow2_unfold(k);
    }
}

proof fn lemma_low_value_push(bits: Seq<bool>, last: bool, k: nat)
    ensures
        low_value(bits.push(last), k + 1) == 2 * low_value(bits, k) + worth(last, 0),
    decreases k,
{
    let longer = bits.push(last);
    if k == 0 {
        assert(bit(longer, 0) == last);
        assert(low_value(longer, 0) == 0);
        assert(low_value(longer, 1) == low_value(longer, 0) + worth(bit(longer, 0), 0));
    } else {
        lemma_low_value_push(bits, last, (k - 1) as nat);
        lemma_pow2_unfold(k);
        assert(bit(longer, k) == bit(bits, (k - 1) as nat));
        assert(low_value(longer, k + 1) == low_value(longer, k) + worth(bit(longer, k), k));
    }
}

proof fn lemma_low_value_all(bits: Seq<bool>, k: nat)
    requires
        k >= bits.len(),
    ensures
        low_value(bits, k) == bits_value(bits),
    decreases bits.len(), k,
{
    if k > bits.len() {
        lemma_low_value_all(bits, (k - 1) as nat);
    } else if k > 0 {
        let front = bits.drop_last();
        lemma_low_value_all(front, (k - 1) as nat);
        lemma_low_value_push(front, bits.last(), (k - 1) as nat);
        assert(front.push(bits.last()) =~= bits);
        lemma_pow2_unfold(1);
        assert(pow2(0) == 1) by {
            vstd::arithmetic::power2::lemma2_to64();
        }
    }
}

/// A binary number, held as its digits.
pub struct Binary {
    pub value: String,
}

impl Binary {
    /// A binary number from its digits; refuses a string with anything but
    /// `0` and `1` in it.
    pub fn build(str: String) -> (r: Result<Binary, &'static str>)
        ensures
            match r {
                Ok(number) => is_binary(str@) && number.value@ == str@,
                Err(reason) => !is_binary(str@) && reason@
                    == "Invalid String, only '0', '1' are supported"@,
            },
    {
        if Self::is_valid(str.as_str()) {
            return Ok(Binary { value: str });
        }
        Err("Invalid String, only '0', '1' are supported")
    }

    /// The digits of the number, as they are written.
    pub fn to_string(&self) -> (digits: String)
        ensures
            digits@ == self.value@,
    {
        self.value.clone()
    }

    /// Whether `str` is made of the digits `0` and `1` only.
    pub fn is_valid(str: &str) -> (valid: bool)
        ensures
            valid == is_binary(str@),
    {
        match ascii_bytes(str) {
            None => false,
            Some(bytes) => {
                let mut i: usize = 0;
                while i < bytes.len()
                    invariant
                        i <= bytes@.len(),
                        bytes@.len() == str@.len(),
                        ascii_chars(bytes@) == str@,
                        is_binary(str@.take(i as int)),
                    decreases bytes@.len() - i,
                {
                    let b: u8 = bytes[i];
                    proof {
                        assert(str@[i as int] == bytes@[i as int] as char);
                    }
                    if b != 48 && b != 49 {
                        return false;
                    }
                    i += 1;
                    proof {
                        assert forall|k: int| 0 <= k < i implies (#[trigger] str@.take(i as int)[k]
                            == '0' || str@.take(i as int)[k] == '1') by {
                            if k < i - 1 {
                                assert(str@.take(i - 1)[k] == str@[k]);
                            }
                        }
                    }
                }
                proof {
                    assert(str@.take(i as int) =~= str@);
                }
                true
            },
        }
    }

    /// The sum of two binary numbers, written without a leading zero that the
    /// operands did not bring: as long as the longer operand, and one digit
    /// longer where the sum needs it. Of operands that are not binary
    /// numbers only this is promised: that the result is one.
    pub fn add(a: &Binary, b: &Binary) -> (sum: Binary)
        ensures
            is_binary(sum.value@),
            is_binary(a.value@) && is_binary(b.value@) ==> {
                let width = longer(a.value@.len(), b.value@.len());
                let total = binary_value(a.value@) + binary_value(b.value@);
                &&& binary_value(sum.value@) == total
                &&& sum.value@.len() == if total >= pow2(width) {
                    width + 1
                } else {
                    width
                }
            },
    {
        let xs = a.value.as_str().as_bytes();
        let ys = b.value.as_str().as_bytes();
        let ghost valid = is_binary(a.value@) && is_binary(b.value@);
        proof {
            if valid {
                crate::text::lemma_ascii_text_bytes(a.value@);
                crate::text::lemma_ascii_text_bytes(b.value@);
                assert(byte_bits(xs@) =~= bits_of(a.value@)) by {
                    assert forall|i: int| 0 <= i < xs@.len() implies (xs@[i] == 49) == (a.value@[i]
                        == '1') by {
                        assert(ascii_chars(xs@)[i] == a.value@[i]);
                    }
                }
                assert(byte_bits(ys@) =~= bits_of(b.value@)) by {
                    assert forall|i: int| 0 <= i < ys@.len() implies (ys@[i] == 49) == (b.value@[i]
                        == '1') by {
                        assert(ascii_chars(ys@)[i] == b.value@[i]);
                    }
                }
                assert forall|i: int| 0 <= i < xs@.len() implies (#[trigger] xs@[i] == 48 || xs@[i]
                    == 49) by {
                    assert(ascii_chars(xs@)[i] == a.value@[i]);
                    assert(a.value@[i] == '0' || a.value@[i] == '1');
                }
                assert forall|i: int| 0 <= i < ys@.len() implies (#[trigger] ys@[i] == 48 || ys@[i]
                    == 49) by {
                    assert(ascii_chars(ys@)[i] == b.value@[i]);
                    assert(b.value@[i] == '0' || b.value@[i] == '1');
                }
            }
        }
        let width: usize = if xs.len() >= ys.len() { xs.len() } else { ys.len() };
        let mut sum: Vec<u8> = Vec::new();
        sum.resize(width, 48u8);
        let mut carry: bool = false;
        let mut k: usize = 0;
        while k < width
            invariant
                k <= width,
                sum@.len() == width,
                xs@.len() <= width,
                ys@.len() <= width,
                forall|i: int| 0 <= i < width ==> (#[trigger] sum@[i] == 48 || sum@[i] == 49),
                valid ==> forall|i: int| 0 <= i < xs@.len() ==> (#[trigger] xs@[i] == 48 || xs@[i]
                    == 49),
                valid ==> forall|i: int| 0 <= i < ys@.len() ==> (#[trigger] ys@[i] == 48 || ys@[i]
                    == 49),
                valid ==> low_value(byte_bits(sum@), k as nat) + worth(carry, k as nat)
                    == low_value(byte_bits(xs@), k as nat) + low_value(byte_bits(ys@), k as nat),
            decreases width - k,
        {
            let byte_a: u8 = if k < xs.len() { xs[xs.len() - 1 - k] } else { 48 };
            let byte_b: u8 = if k < ys.len() { ys[ys.len() - 1 - k] } else { 48 };
            let ghost before = sum@;
            let ghost carry_in = carry;
            let digit: u8 = if byte_a == byte_b {
                if carry {
                    if byte_a == 48 {
                        carry = false;
                    }
                    49
                } else {
                    if byte_a == 49 {
                        carry = true;
                    }
                    48
                }
            } else if carry {
                48
            } else {
                49
            };
            sum.set(width - 1 - k, digit);
            proof {
                if valid {
                    let kn = k as nat;
                    lemma_pow2_unfold((k + 1) as nat);
                    assert forall|j: nat| j < kn implies bit(byte_bits(before), j) == bit(
                        byte_bits(sum@),
                        j,
                    ) by {}
                    lemma_low_value_same_bits(byte_bits(before), byte_bits(sum@), kn);
                    assert(bit(byte_bits(sum@), kn) == (digit == 49));
                    assert(bit(byte_bits(xs@), kn) == (byte_a == 49));
                    assert(bit(byte_bits(ys@), kn) == (byte_b == 49));
                    assert(low_value(byte_bits(sum@), (k + 1) as nat) == low_value(
                        byte_bits(sum@),
                        kn,
                    ) + worth(digit == 49, kn));
                    assert(low_value(byte_bits(xs@), (k + 1) as nat) == low_value(
                        byte_bits(xs@),
                        kn,
                    ) + worth(byte_a == 49, kn));
                    assert(low_value(byte_bits(ys@), (k + 1) as nat) == low_value(
                        byte_bits(ys@),
                        kn,
                    ) + worth(byte_b == 49, kn));
                }
            }
            k += 1;
        }
        let ghost body = sum@;
        if carry {
            sum.insert(0, 49u8);
        }
        proof {
            assert(is_ascii_bytes(sum@)) by {
                assert forall|i: int| 0 <= i < sum@.len() implies #[trigger] sum@[i] < 128 by {
                    if carry && i > 0 {
                        assert(sum@[i] == body[i - 1]);
                    }
                }
            }
            assert forall|i: int| 0 <= i < sum@.len() implies (#[trigger] ascii_chars(sum@)[i]
                == '0' || ascii_chars(sum@)[i] == '1') by {
                if carry && i > 0 {
                    assert(sum@[i] == body[i - 1]);
                }
                assert(sum@[i] == 48 || sum@[i] == 49);
            }
            if valid {
                let w = width as nat;
                let written = bits_of(ascii_chars(sum@));
                assert(written =~= byte_bits(sum@));
                lemma_low_value_all(byte_bits(xs@), w);
                lemma_low_value_all(byte_bits(ys@), w);
                lemma_low_value_below(byte_bits(body), w);
                if carry {
                    assert forall|j: nat| j < w implies bit(byte_bits(body), j) == bit(
                        byte_bits(sum@),
                        j,
                    ) by {
                        assert(sum@[sum@.len() - 1 - j] == body[body.len() - 1 - j]);
                    }
                    lemma_low_value_same_bits(byte_bits(body), byte_bits(sum@), w);
                    assert(bit(byte_bits(sum@), w));
                    assert(low_value(byte_bits(sum@), w + 1) == low_value(byte_bits(sum@), w)
                        + worth(true, w));
                    lemma_low_value_all(byte_bits(sum@), w + 1);
                } else {
                    lemma_low_value_all(byte_bits(sum@), w);
                }
            }
        }
        Binary { value: ascii_string(sum) }
    }
}

/// The two operands of an addition from the program's arguments, the
/// program's own name first. The first thing amiss is the one reported: the
/// first operand missing, then not binary, then the second one likewise.
pub fn parse_args(args: Vec<String>) -> (r: Result<(Binary, Binary), &'static str>)
    ensures
        match r {
            Ok((a, b)) => {
                &&& args@.len() >= 3
                &&& is_binary(args@[1]@) && a.value@ == args@[1]@
                &&& is_binary(args@[2]@) && b.value@ == args@[2]@
            },
            Err(reason) => if args@.len() < 2 {
                reason@ == "Dint't get an 'a' value"@
            } else if !is_binary(args@[1]@) {
                reason@ == "Invalid String, only '0', '1' are supported"@
            } else if args@.len() < 3 {
                reason@ == "Dint't get a 'b' value"@
            } else {
                !is_binary(args@[2]@) && reason@ == "Invalid String, only '0', '1' are supported"@
            },
        },
{
    if args.len() < 2 {
        return Err("Dint't get an 'a' value");
    }
    let a = match Binary::build(args[1].clone()) {
        Ok(a) => a,
        Err(reason) => {
            return Err(reason);
        },
    };
    if args.len() < 3 {
        return Err("Dint't get a 'b' value");
    }
    let b = match Binary::build(args[2].clone()) {
        Ok(b) => b,
        Err(reason) => {
            return Err(reason);
        },
    };
    Ok((a, b))
}

} // verus!
