//! One line of delimited text, split into its cells. A line is a record that
//! has been cut out of the stream already: only the delimiter splits it, and
//! a terminator is looked for at its very end alone.

use crate::reader::CsvReader;
use crate::scanner::{quote_state, COMMA, LF, QUOTES};
use crate::text::{lemma_cut_at_ascii, utf8_string};
use vstd::prelude::*;
use vstd::slice::slice_subrange;
use vstd::slice::slice_to_vec;
use vstd::string::StringSliceAdditionalSpecFns;
use vstd::utf8::{encode_utf8, valid_utf8};

verus! {

/// The line without the terminator at its end, if it has one.
pub open spec fn strip_lf(line: Seq<u8>) -> Seq<u8> {
    if line.len() > 0 && line.last() == LF {
        line.drop_last()
    } else {
        line
    }
}

/// Whether the last byte of a non-empty `bytes` is a delimiter outside
/// quotes.
pub open spec fn ends_at_delimiter(bytes: Seq<u8>) -> bool
    recommends
        bytes.len() > 0,
{
    bytes.last() == COMMA && !quote_state(false, bytes.drop_last())
}

/// The cell that is unfinished at the end of `bytes`: everything after the
/// last delimiter outside quotes.
pub open spec fn open_field(bytes: Seq<u8>) -> Seq<u8>
    decreases bytes.len(),
{
    if bytes.len() == 0 {
        Seq::empty()
    } else if ends_at_delimiter(bytes) {
        Seq::empty()
    } else {
        open_field(bytes.drop_last()).push(bytes.last())
    }
}

/// The cells that a delimiter has closed in `bytes`, in order.
pub open spec fn closed_fields(bytes: Seq<u8>) -> Seq<Seq<u8>>
    decreases bytes.len(),
{
    if bytes.len() == 0 {
        Seq::empty()
    } else if ends_at_delimiter(bytes) {
        closed_fields(bytes.drop_last()).push(open_field(bytes.drop_last()))
    } else {
        closed_fields(bytes.drop_last())
    }
}

/// The cells of a line: those that a delimiter closes, then the one that the
/// end of the line closes. Quotes stay in the cells.
pub open spec fn line_fields(line: Seq<u8>) -> Seq<Seq<u8>> {
    let body = strip_lf(line);
    closed_fields(body).push(open_field(body))
}

/// Whether `cells` holds the text of each of `fields`, in order.
pub open spec fn spells(cells: Seq<String>, fields: Seq<Seq<u8>>) -> bool {
    &&& cells.len() == fields.len()
    &&& forall|k: int| 0 <= k < fields.len() ==> encode_utf8((#[trigger] cells[k])@) == fields[k]
}

impl CsvReader {
    /// Splits one line into its cells, as text. The terminator at the end
    /// of the line, if there is one, belongs to no cell.
    pub fn parse_line(line: &str) -> (cells: Vec<String>)
        ensures
            spells(cells@, line_fields(line.spec_bytes())),
    {
        let bytes = line.as_bytes();
        let len: usize = bytes.len();
        let end: usize = if len > 0 && bytes[len - 1] == LF { len - 1 } else { len };
        let ghost body = strip_lf(bytes@);
        let mut cells: Vec<String> = Vec::new();
        let mut skip: bool = false;
        let mut i: usize = 0;
        let mut j: usize = 0;
        proof {
            vstd::utf8::encode_utf8_valid_utf8(line@);
            assert(body =~= bytes@.take(end as int));
            assert(bytes@.skip(0) =~= bytes@);
            assert(bytes@.subrange(0, 0) =~= Seq::<u8>::empty());
            assert(body.take(0) =~= Seq::<u8>::empty());
        }
        while i < end
            invariant
                j <= i <= end <= len,
                len == bytes@.len(),
                body == bytes@.take(end as int),
                valid_utf8(bytes@.skip(j as int)),
                skip == quote_state(false, body.take(i as int)),
                bytes@.subrange(j as int, i as int) == open_field(body.take(i as int)),
                spells(cells@, closed_fields(body.take(i as int))),
            decreases end - i,
        {
            let b: u8 = bytes[i];
            let ghost seen = body.take(i as int);
            let ghost next = body.take(i + 1);
            let ghost done = cells@;
            proof {
                assert(next.drop_last() =~= seen);
                assert(next.last() == b);
            }
            if b == QUOTES {
                skip = !skip;
            }
            if !skip && b == COMMA {
                proof {
                    let suffix = bytes@.skip(j as int);
                    lemma_cut_at_ascii(suffix, i - j);
                    assert(suffix.take(i - j) =~= bytes@.subrange(j as int, i as int));
                    assert(suffix.skip(i - j + 1) =~= bytes@.skip(i + 1));
                }
                let cell = utf8_string(slice_to_vec(slice_subrange(bytes, j, i)));
                cells.push(cell);
                j = i + 1;
                proof {
                    assert(bytes@.subrange(j as int, i + 1) =~= Seq::<u8>::empty());
                    let fields = closed_fields(next);
                    assert forall|k: int| 0 <= k < fields.len() implies encode_utf8(
                        (#[trigger] cells@[k])@,
                    ) == fields[k] by {
                        if k < done.len() {
                            assert(cells@[k] == done[k]);
                        }
                    }
                }
            } else {
                proof {
                    assert(bytes@.subrange(j as int, i + 1) =~= bytes@.subrange(
                        j as int,
                        i as int,
                    ).push(b));
                }
            }
            i += 1;
        }
        proof {
            assert(body.take(end as int) =~= body);
            let suffix = bytes@.skip(j as int);
            if end < len {
                lemma_cut_at_ascii(suffix, end - j);
                assert(suffix.take(end - j) =~= bytes@.subrange(j as int, end as int));
            } else {
                assert(suffix =~= bytes@.subrange(j as int, end as int));
            }
        }
        let ghost done = cells@;
        let last = utf8_string(slice_to_vec(slice_subrange(bytes, j, end)));
        cells.push(last);
        proof {
            let fields = line_fields(bytes@);
            assert forall|k: int| 0 <= k < fields.len() implies encode_utf8((#[trigger] cells@[k])@)
                == fields[k] by {
                if k < done.len() {
                    assert(cells@[k] == done[k]);
                }
            }
        }
        cells
    }
}

} // verus!
