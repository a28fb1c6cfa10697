//! The cell decoder: from the raw bytes of a cell, as the tokenizer hands them
//! out, to the text or the number that the cell holds.

use crate::number::{parse_i64, signed_literal};
use crate::scanner::{ByteCell, CR, QUOTES};
use crate::text::text_from_utf8;
use vstd::prelude::*;
use vstd::utf8::{decode_utf8, valid_utf8};

verus! {

/// Why a cell could not be decoded.
#[derive(Debug, Clone, Copy, PartialEq, Eq, Structural)]
pub enum DecodeError {
    /// The bytes of the cell are not valid text.
    Encoding,
    /// The text of the cell is not a literal of the type asked for.
    Format,
}

impl DecodeError {
    /// What went wrong, in words.
    pub fn message(&self) -> (text: &'static str)
        ensures
            text@ == match *self {
                DecodeError::Encoding => "cell is not valid UTF-8"@,
                DecodeError::Format => "cell is not a valid number"@,
            },
    {
        match self {
            DecodeError::Encoding => "cell is not valid UTF-8",
            DecodeError::Format => "cell is not a valid number",
        }
    }
}

/// How much surrounds the content of a quoted cell.
#[derive(Debug, Clone, Copy, PartialEq, Eq, Structural)]
pub enum Trim {
    /// An opening and a closing quote.
    Quotes,
    /// An opening quote, and a closing quote with a carriage return behind it.
    QuotesAndCR,
}

impl Trim {
    /// The number of bytes that stand behind the content.
    pub open spec fn trailing(self) -> nat {
        match self {
            Trim::Quotes => 1,
            Trim::QuotesAndCR => 2,
        }
    }

    /// The number of bytes that stand behind the content.
    pub fn count(self) -> (n: usize)
        ensures
            n == self.trailing(),
    {
        match self {
            Trim::Quotes => 1,
            Trim::QuotesAndCR => 2,
        }
    }
}

/// The cell without the carriage return at its end, if it has one.
pub open spec fn strip_cr(raw: Seq<u8>) -> Seq<u8> {
    if raw.len() > 0 && raw.last() == CR {
        raw.drop_last()
    } else {
        raw
    }
}

/// The content of a quoted cell, given what follows its opening quote: two
/// quote bytes in a row stand for one, and the last byte, the closing quote,
/// is not content.
pub open spec fn collapse_quotes(tail: Seq<u8>) -> Seq<u8>
    decreases tail.len(),
{
    if tail.len() <= 1 {
        Seq::empty()
    } else if tail[0] == QUOTES && tail[1] == QUOTES {
        seq![QUOTES] + collapse_quotes(tail.skip(2))
    } else {
        seq![tail[0]] + collapse_quotes(tail.skip(1))
    }
}

/// What `normalize` leaves of `raw`: the content between the first byte and
/// the last `trailing` bytes, with doubled quotes collapsed. Nothing, where
/// `raw` is too short to hold both.
pub open spec fn quoted_content(raw: Seq<u8>, trailing: nat) -> Seq<u8> {
    if raw.len() < trailing + 1 {
        Seq::empty()
    } else {
        collapse_quotes(raw.subrange(1, raw.len() - trailing + 1))
    }
}

/// The bytes that a raw cell stands for: a carriage return at the end is
/// dropped first; a cell that then starts with a quote is a quoted cell and
/// gives its content, any other cell gives itself.
pub open spec fn decoded_bytes(raw: Seq<u8>) -> Seq<u8> {
    let cell = strip_cr(raw);
    if cell.len() > 0 && cell[0] == QUOTES {
        collapse_quotes(cell.skip(1))
    } else {
        cell
    }
}

/// A carriage return behind a cell does not show in what the cell decodes
/// to: the cell of a line that ends in CR LF decodes as it does where the
/// line ends in LF alone.
pub proof fn lemma_carriage_return_is_dropped(cell: Seq<u8>)
    requires
        cell.len() == 0 || cell.last() != CR,
    ensures
        decoded_bytes(cell.push(CR)) == decoded_bytes(cell),
{
    assert(cell.push(CR).drop_last() =~= cell);
}

/// Whether `decoded` is what decoding the raw cell `raw` gives: its text
/// where its decoded bytes are valid UTF-8, an encoding error where they are
/// not.
pub open spec fn is_decoding_of(raw: Seq<u8>, decoded: Result<String, DecodeError>) -> bool {
    match decoded {
        Ok(text) => valid_utf8(decoded_bytes(raw)) && text@ == decode_utf8(decoded_bytes(raw)),
        Err(e) => !valid_utf8(decoded_bytes(raw)) && e == DecodeError::Encoding,
    }
}

/// Whether `decoded` holds the decoding of each cell of `raw`, in order.
pub open spec fn is_record_decoding_of(
    raw: Seq<Seq<u8>>,
    decoded: Seq<Result<String, DecodeError>>,
) -> bool {
    &&& decoded.len() == raw.len()
    &&& forall|j: int| 0 <= j < raw.len() ==> is_decoding_of(raw[j], #[trigger] decoded[j])
}

/// Decodes raw cells.
pub struct CellParser {}

impl CellParser {
    /// The text of a cell: its decoded bytes, read as UTF-8.
    pub fn to_string(cell: Vec<u8>) -> (r: Result<String, DecodeError>)
        ensures
            r is Ok <==> valid_utf8(decoded_bytes(cell@)),
            r matches Ok(text) ==> text@ == decode_utf8(decoded_bytes(cell@)),
            r matches Err(e) ==> e == DecodeError::Encoding,
    {
        let mut cell = cell;
        let ghost raw = cell@;
        let len: usize = cell.len();
        if len > 0 && cell[0] == QUOTES {
            if cell[len - 1] == CR {
                Self::normalize(&mut cell, Trim::QuotesAndCR);
                proof {
                    assert(raw.drop_last().skip(1) =~= raw.subrange(1, len - 1));
                }
            } else {
                Self::normalize(&mut cell, Trim::Quotes);
                proof {
                    assert(raw.skip(1) =~= raw.subrange(1, len as int));
                    if len == 1 {
                        assert(collapse_quotes(raw.skip(1)) =~= Seq::<u8>::empty());
                    }
                }
            }
        } else if len > 0 && cell[len - 1] == CR {
            cell.pop();
            proof {
                assert(cell@ =~= raw.drop_last());
            }
        }
        assert(cell@ == decoded_bytes(raw));
        match text_from_utf8(cell) {
            Some(text) => {
                proof {
                    vstd::utf8::encode_utf8_decode_utf8(text@);
                }
                Ok(text)
            },
            None => Err(DecodeError::Encoding),
        }
    }

    /// The text of each cell of a record, in order. A cell that is not
    /// valid text fails alone: the cells around it are decoded all the same.
    pub fn decode_record(record: Vec<ByteCell>) -> (decoded: Vec<Result<String, DecodeError>>)
        ensures
            is_record_decoding_of(record.deep_view(), decoded@),
    {
        let ghost raw = record.deep_view();
        let mut decoded: Vec<Result<String, DecodeError>> = Vec::new();
        for cell in it: record
            invariant
                raw == record.deep_view(),
                decoded@.len() == it.index(),
                forall|j: int| 0 <= j < decoded@.len() ==> is_decoding_of(raw[j], #[trigger] decoded@[j]),
        {
            proof {
                assert(cell.deep_view() =~= cell@);
                assert(raw[it.index() as int] == cell@);
            }
            let text = Self::to_string(cell);
            decoded.push(text);
        }
        decoded
    }

    /// The integer that a cell holds: its text, read as a signed decimal
    /// literal of 64 bits.
    pub fn to_int(cell: Vec<u8>) -> (r: Result<i64, DecodeError>)
        ensures
            r == if !valid_utf8(decoded_bytes(cell@)) {
                Err::<i64, DecodeError>(DecodeError::Encoding)
            } else {
                match signed_literal(decoded_bytes(cell@)) {
                    Some(v) => if i64::MIN <= v <= i64::MAX {
                        Ok(v as i64)
                    } else {
                        Err(DecodeError::Format)
                    },
                    None => Err(DecodeError::Format),
                }
            },
    {
        let ghost bytes = decoded_bytes(cell@);
        match Self::to_string(cell) {
            Ok(text) => {
                proof {
                    vstd::utf8::decode_utf8_encode_utf8(bytes);
                }
                match parse_i64(text.as_str()) {
                    Some(v) => Ok(v),
                    None => Err(DecodeError::Format),
                }
            },
            Err(_) => Err(DecodeError::Encoding),
        }
    }

    /// Turns a quoted cell into its content, in place: the first byte and the
    /// last `n.count()` bytes go, and each doubled quote in between becomes
    /// one quote.
    pub fn normalize(cell: &mut Vec<u8>, n: Trim)
        ensures
            final(cell)@ == quoted_content(old(cell)@, n.trailing()),
    {
        let n: usize = n.count();
        let len: usize = cell.len();
        if len < n + 1 {
            cell.clear();
            return ;
        }
        let end: usize = len - n;
        let ghost raw = cell@;
        let ghost tail = raw.subrange(1, end + 1);
        let mut w: usize = 0;
        let mut r: usize = 1;
        proof {
            assert(cell@.take(0) + collapse_quotes(tail) =~= collapse_quotes(tail));
        }
        while r < end
            invariant
                1 <= end < len,
                len == raw.len(),
                cell@.len() == len,
                w < r <= end + 1,
                tail == raw.subrange(1, end + 1),
                forall|k: int| r <= k < len ==> cell@[k] == raw[k],
                cell@.take(w as int) + collapse_quotes(raw.subrange(r as int, end + 1))
                    == collapse_quotes(tail),
            decreases end + 1 - r,
        {
            let ghost rest = raw.subrange(r as int, end + 1);
            let ghost written = cell@.take(w as int);
            let b: u8 = cell[r];
            let doubled: bool = b == QUOTES && cell[r + 1] == QUOTES;
            cell.set(w, b);
            proof {
                assert(rest[0] == b);
                assert(rest[1] == raw[r + 1]);
                assert(cell@.take(w + 1) =~= written.push(b));
                if doubled {
                    assert(rest.skip(2) =~= raw.subrange(r + 2, end + 1));
                    assert(written.push(b) + collapse_quotes(rest.skip(2)) =~= written + (seq![
                        QUOTES,
                    ] + collapse_quotes(rest.skip(2))));
                } else {
                    assert(rest.skip(1) =~= raw.subrange(r + 1, end + 1));
                    assert(written.push(b) + collapse_quotes(rest.skip(1)) =~= written + (seq![b]
                        + collapse_quotes(rest.skip(1))));
                }
            }
            if doubled {
                r += 1;
            }
            w += 1;
            r += 1;
        }
        cell.truncate(w);
        proof {
            assert(collapse_quotes(raw.subrange(r as int, end + 1)) =~= Seq::<u8>::empty());
            assert(cell@ + Seq::<u8>::empty() =~= cell@);
        }
    }
}

} // verus!
