//! Roman numerals and the numbers they write.

use crate::text::{ascii_bytes, ascii_chars, is_ascii_bytes, lemma_ascii_text_bytes};
use vstd::prelude::*;

verus! {

/// The longest numeral that `to_integer` takes: with a thousand at most for
/// each symbol, its value fits `u32`.
pub const MAX_SYMBOLS: usize = 4_294_967;

/// What a Roman symbol is worth; 0 for any other character.
pub open spec fn symbol_value(c: char) -> nat {
    if c == 'I' {
        1
    } else if c == 'V' {
        5
    } else if c == 'X' {
        10
    } else if c == 'L' {
        50
    } else if c == 'C' {
        100
    } else if c == 'D' {
        500
    } else if c == 'M' {
        1000
    } else {
        0
    }
}

/// Whether `c` is one of the seven Roman symbols, in upper case.
pub open spec fn is_symbol(c: char) -> bool {
    symbol_value(c) > 0
}

/// The upper-case form of an ASCII letter; any other character is left as it
/// is.
pub open spec fn ascii_upper(c: char) -> char {
    if 'a' <= c <= 'z' {
        ((c as u8) - 32) as char
    } else {
        c
    }
}

/// Whether `s` is made of Roman symbols only, in upper or lower case.
pub open spec fn is_roman(s: Seq<char>) -> bool {
    forall|i: int| 0 <= i < s.len() ==> is_symbol(ascii_upper(#[trigger] s[i]))
}

/// Whether `s` is made of upper-case Roman symbols only.
pub open spec fn is_upper_roman(s: Seq<char>) -> bool {
    forall|i: int| 0 <= i < s.len() ==> is_symbol(#[trigger] s[i])
}

/// The number that the symbols `s` write: a symbol that stands in front of
/// one worth more is taken away, every other symbol is added.
pub open spec fn roman_value(s: Seq<char>) -> int
    decreases s.len(),
{
    if s.len() == 0 {
        0
    } else {
        let worth = symbol_value(s[0]);
        let rest = s.drop_first();
        if rest.len() > 0 && worth < symbol_value(rest[0]) {
            roman_value(rest) - worth
        } else {
            roman_value(rest) + worth
        }
    }
}

/// The value of a numeral in upper case lies between what its first symbol
/// is worth and a thousand for each symbol.
pub proof fn lemma_roman_value_bounds(s: Seq<char>)
    requires
        is_upper_roman(s),
    ensures
        0 <= roman_value(s) <= 1000 * s.len(),
        s.len() > 0 ==> roman_value(s) >= symbol_value(s[0]),
    decreases s.len(),
{
    if s.len() > 0 {
        let rest = s.drop_first();
        assert(is_upper_roman(rest)) by {
            assert forall|i: int| 0 <= i < rest.len() implies is_symbol(#[trigger] rest[i]) by {
                assert(rest[i] == s[i + 1]);
            }
        }
        lemma_roman_value_bounds(rest);
        assert(is_symbol(s[0]));
        if rest.len() > 0 {
            assert(is_symbol(rest[0]));
        }
    }
}

/// The value of the byte of an upper-case Roman symbol; 0 for any other byte.
fn symbol_worth(b: u8) -> (worth: u32)
    requires
        b < 128,
    ensures
        worth == symbol_value(b as char),
{
    if b == 73 {
        1
    } else if b == 86 {
        5
    } else if b == 88 {
        10
    } else if b == 76 {
        50
    } else if b == 67 {
        100
    } else if b == 68 {
        500
    } else if b == 77 {
        1000
    } else {
        0
    }
}

/// A Roman numeral, held as its symbols.
pub struct RomanNumeral {
    numeral: String,
}

impl RomanNumeral {
    #[verifier::type_invariant]
    spec fn well_formed(self) -> bool {
        is_roman(self.numeral@)
    }

    /// The symbols of the numeral.
    pub closed spec fn symbols(self) -> Seq<char> {
        self.numeral@
    }

    /// A numeral from its symbols; refuses a string with anything but the
    /// seven symbols in it.
    pub fn build(string: String) -> (r: Result<RomanNumeral, &'static str>)
        ensures
            match r {
                Ok(roman) => is_roman(string@) && roman.symbols() == string@,
                Err(reason) => !is_roman(string@) && reason@
                    == "Only roman characters are supported 'I, V, X, L, C, D, M'"@,
            },
    {
        if Self::is_valid(string.as_str()) {
            return Ok(RomanNumeral { numeral: string });
        }
        return Err("Only roman characters are supported 'I, V, X, L, C, D, M'");
    }

    /// A numeral from the program's arguments, the program's own name first.
    pub fn build_from(args: Vec<String>) -> (r: Result<RomanNumeral, &'static str>)
        ensures
            match r {
                Ok(roman) => args@.len() >= 2 && is_roman(args@[1]@) && roman.symbols()
                    == args@[1]@,
                Err(reason) => if args@.len() < 2 {
                    reason@ == "Didn't get a roman string"@
                } else {
                    !is_roman(args@[1]@) && reason@
                        == "Only roman characters are supported 'I, V, X, L, C, D, M'"@
                },
            },
    {
        if args.len() < 2 {
            return Err("Didn't get a roman string");
        }
        Self::build(args[1].clone())
    }

    /// Whether `s` is made of Roman symbols only. Lower case is let through.
    pub fn is_valid(s: &str) -> (valid: bool)
        ensures
            valid == is_roman(s@),
    {
        match ascii_bytes(s) {
            None => {
                proof {
                    let i = choose|i: int| 0 <= i < s@.len() && !('\0' <= #[trigger] s@[i] <= '\u{7f}');
                    assert(!is_symbol(ascii_upper(s@[i])));
                }
                false
            },
            Some(bytes) => {
                let mut i: usize = 0;
                while i < bytes.len()
                    invariant
                        i <= bytes@.len(),
                        bytes@.len() == s@.len(),
                        ascii_chars(bytes@) == s@,
                        is_ascii_bytes(bytes@),
                        is_roman(s@.take(i as int)),
                    decreases bytes@.len() - i,
                {
                    let b: u8 = bytes[i];
                    let upper: u8 = if 97 <= b && b <= 122 { b - 32 } else { b };
                    proof {
                        assert(s@[i as int] == bytes@[i as int] as char);
                        assert(bytes@[i as int] < 128);
                        assert(ascii_upper(s@[i as int]) == upper as char);
                    }
                    if symbol_worth(upper) == 0 {
                        return false;
                    }
                    i += 1;
                    proof {
                        assert forall|k: int| 0 <= k < i implies is_symbol(
                            ascii_upper(#[trigger] s@.take(i as int)[k]),
                        ) by {
                            if k < i - 1 {
                                assert(s@.take(i - 1)[k] == s@[k]);
                            }
                        }
                    }
                }
                proof {
                    assert(s@.take(i as int) =~= s@);
                }
                true
            },
        }
    }

    /// Whether `to_integer` takes this numeral: it is in upper case and no
    /// longer than `MAX_SYMBOLS`.
    pub open spec fn convertible(self) -> bool {
        is_upper_roman(self.symbols()) && self.symbols().len() <= MAX_SYMBOLS
    }

    /// Whether `to_integer` takes this numeral.
    pub fn is_convertible(&self) -> (ok: bool)
        ensures
            ok == self.convertible(),
    {
        proof {
            use_type_invariant(self);
            assert forall|i: int| 0 <= i < self.numeral@.len() implies '\0'
                <= #[trigger] self.numeral@[i] <= '\u{7f}' by {
                assert(is_symbol(ascii_upper(self.numeral@[i])));
            }
            lemma_ascii_text_bytes(self.numeral@);
        }
        let bytes = self.numeral.as_str().as_bytes();
        if bytes.len() > MAX_SYMBOLS {
            return false;
        }
        let ghost s = self.numeral@;
        let mut i: usize = 0;
        while i < bytes.len()
            invariant
                i <= bytes@.len(),
                bytes@.len() == s.len(),
                s == self.numeral@,
                ascii_chars(bytes@) == s,
                is_ascii_bytes(bytes@),
                is_upper_roman(s.take(i as int)),
            decreases bytes@.len() - i,
        {
            let b: u8 = bytes[i];
            proof {
                assert(s[i as int] == bytes@[i as int] as char);
                assert(bytes@[i as int] < 128);
            }
            if symbol_worth(b) == 0 {
                proof {
                    assert(!is_symbol(s[i as int]));
                }
                return false;
            }
            i += 1;
            proof {
                assert forall|k: int| 0 <= k < i implies is_symbol(#[trigger] s.take(i as int)[k]) by {
                    if k < i - 1 {
                        assert(s.take(i - 1)[k] == s[k]);
                    }
                }
            }
        }
        proof {
            assert(s.take(i as int) =~= s);
        }
        true
    }

    /// The number that the numeral writes.
    pub fn to_integer(&self) -> (number: u32)
        requires
            self.convertible(),
        ensures
            number == roman_value(self.symbols()),
    {
        proof {
            assert forall|i: int| 0 <= i < self.numeral@.len() implies '\0'
                <= #[trigger] self.numeral@[i] <= '\u{7f}' by {
                assert(is_symbol(self.numeral@[i]));
            }
            lemma_ascii_text_bytes(self.numeral@);
        }
        let bytes = self.numeral.as_str().as_bytes();
        let ghost s = self.numeral@;
        let mut prev: u32 = 0;
        let mut result: u32 = 0;
        let mut i: usize = bytes.len();
        proof {
            assert(s.skip(i as int) =~= Seq::<char>::empty());
        }
        while i > 0
            invariant
                i <= bytes@.len(),
                bytes@.len() == s.len(),
                s.len() <= MAX_SYMBOLS,
                ascii_chars(bytes@) == s,
                is_ascii_bytes(bytes@),
                is_upper_roman(s),
                result == roman_value(s.skip(i as int)),
                prev == if i < s.len() {
                    symbol_value(s[i as int])
                } else {
                    0
                },
            decreases i,
        {
            i -= 1;
            let val: u32 = symbol_worth(bytes[i]);
            proof {
                let tail = s.skip(i as int);
                let rest = s.skip(i + 1);
                assert(tail.drop_first() =~= rest);
                assert(tail[0] == s[i as int]);
                assert(s[i as int] == bytes@[i as int] as char);
                assert(is_symbol(s[i as int]));
                assert(is_upper_roman(rest)) by {
                    assert forall|k: int| 0 <= k < rest.len() implies is_symbol(
                        #[trigger] rest[k],
                    ) by {
                        assert(rest[k] == s[i + 1 + k]);
                    }
                }
                lemma_roman_value_bounds(rest);
                if rest.len() > 0 {
                    assert(rest[0] == s[i + 1]);
                    assert(is_symbol(rest[0]));
                }
            }
            if val < prev {
                result -= val;
            } else {
                result += val;
            }
            prev = val;
        }
        proof {
            assert(s.skip(0) =~= s);
        }
        return result;
    }
}

} // verus!
