//! The byte scanner of the delimited-text tokenizer, and the mathematical
//! model of tokenization that the rest of the crate is stated over.
//!
//! The format is a byte stream with `,` between cells, `\n` after each record
//! and `"` around cells whose content may hold either of the two. A quote
//! byte flips the quote state; a delimiter or terminator met outside quotes is
//! a boundary. Quote bytes stay in the cells: unescaping is the decoder's job.

use vstd::prelude::*;
use vstd::slice::slice_subrange;
use vstd::slice::slice_to_vec;

verus! {

/// Record terminator.
pub const LF: u8 = 10;

/// Carriage return, tolerated in front of a record terminator.
pub const CR: u8 = 13;

/// Cell delimiter.
pub const COMMA: u8 = 44;

/// Quote character.
pub const QUOTES: u8 = 34;

/// The raw bytes of one cell.
pub type ByteCell = Vec<u8>;

/// What the tokenizer hands out: a completed cell, or the end of a record.
#[derive(Debug)]
pub enum YieldEvent {
    NewCell(ByteCell),
    NewLine,
}

/// The mathematical value of a `YieldEvent`.
pub ghost enum Boundary {
    Cell(Seq<u8>),
    Line,
}

impl View for YieldEvent {
    type V = Boundary;

    open spec fn view(&self) -> Boundary {
        match self {
            YieldEvent::NewCell(cell) => Boundary::Cell(cell@),
            YieldEvent::NewLine => Boundary::Line,
        }
    }
}

impl DeepView for YieldEvent {
    type V = Boundary;

    open spec fn deep_view(&self) -> Boundary {
        self@
    }
}

/// The quote state after `bytes`, when it was `inside` before them: every
/// quote byte flips it.
pub open spec fn quote_state(inside: bool, bytes: Seq<u8>) -> bool
    decreases bytes.len(),
{
    if bytes.len() == 0 {
        inside
    } else {
        quote_state(inside, bytes.drop_last()) != (bytes.last() == QUOTES)
    }
}

/// Whether byte `b`, met in quote state `inside`, ends the current cell.
pub open spec fn closes_cell(inside: bool, b: u8) -> bool {
    !inside && (b == COMMA || b == LF)
}

/// Whether the last byte of a non-empty `bytes` is a boundary, the quote
/// state having been `inside` before `bytes`.
pub open spec fn ends_at_boundary(inside: bool, bytes: Seq<u8>) -> bool
    recommends
        bytes.len() > 0,
{
    closes_cell(quote_state(inside, bytes.drop_last()), bytes.last())
}

/// The unfinished cell after `bytes` have gone by: `carry` was unfinished
/// before them and the quote state was `inside`. It is everything after the
/// last boundary.
pub open spec fn pending(carry: Seq<u8>, inside: bool, bytes: Seq<u8>) -> Seq<u8>
    decreases bytes.len(),
{
    if bytes.len() == 0 {
        carry
    } else if ends_at_boundary(inside, bytes) {
        Seq::empty()
    } else {
        pending(carry, inside, bytes.drop_last()).push(bytes.last())
    }
}

/// The events that `bytes` complete, in order: each boundary closes the cell
/// that was pending before it, and a terminator ends the record as well.
pub open spec fn events(carry: Seq<u8>, inside: bool, bytes: Seq<u8>) -> Seq<Boundary>
    decreases bytes.len(),
{
    if bytes.len() == 0 {
        Seq::empty()
    } else {
        let before = bytes.drop_last();
        let earlier = events(carry, inside, before);
        if !ends_at_boundary(inside, bytes) {
            earlier
        } else if bytes.last() == LF {
            earlier.push(Boundary::Cell(pending(carry, inside, before))).push(Boundary::Line)
        } else {
            earlier.push(Boundary::Cell(pending(carry, inside, before)))
        }
    }
}

/// The tokenization of a whole stream: the events its bytes complete, then
/// the cell that is left when the stream ends.
pub open spec fn tokenize(stream: Seq<u8>) -> Seq<Boundary> {
    events(Seq::empty(), false, stream).push(
        Boundary::Cell(pending(Seq::empty(), false, stream)),
    )
}

/// What one pass of the scanner found.
pub struct Scan<'a> {
    /// The boundaries met, in order.
    pub events: Vec<YieldEvent>,
    /// The unconsumed suffix: the bytes after the last boundary.
    pub rest: &'a [u8],
    /// The quote state at the end of the input.
    pub inside_quotes: bool,
}

/// Where a scan that is asked to resume at `resume` starts to look.
pub open spec fn scan_start(len: nat, resume: usize) -> int {
    if resume <= len {
        resume as int
    } else {
        len as int
    }
}

/// Walks `bytes` once from index `resume` on, in quote state `inside_quotes`
/// there. The bytes in front of `resume` are the cell that was left
/// unfinished before: they have been looked at already and are not looked at
/// again. A `resume` behind the end counts as the end.
pub fn scan<'a>(bytes: &'a [u8], resume: usize, inside_quotes: bool) -> (found: Scan<'a>)
    ensures
        ({
            let at = scan_start(bytes@.len(), resume);
            let carry = bytes@.take(at);
            let fresh = bytes@.skip(at);
            &&& found.events.deep_view() == events(carry, inside_quotes, fresh)
            &&& found.rest@ == pending(carry, inside_quotes, fresh)
            &&& found.inside_quotes == quote_state(inside_quotes, fresh)
        }),
{
    let len = bytes.len();
    let start: usize = if resume <= len { resume } else { len };
    let ghost carry = bytes@.take(start as int);
    let mut out: Vec<YieldEvent> = Vec::new();
    let mut inside = inside_quotes;
    let mut j: usize = 0;
    let mut i: usize = start;
    proof {
        assert(bytes@.subrange(start as int, i as int) =~= Seq::<u8>::empty());
        assert(bytes@.subrange(j as int, i as int) =~= carry);
        assert(out.deep_view() =~= Seq::<Boundary>::empty());
    }
    while i < len
        invariant
            len == bytes@.len(),
            start <= i <= len,
            j <= i,
            carry == bytes@.take(start as int),
            inside == quote_state(inside_quotes, bytes@.subrange(start as int, i as int)),
            out.deep_view() == events(carry, inside_quotes, bytes@.subrange(start as int, i as int)),
            bytes@.subrange(j as int, i as int) == pending(
                carry,
                inside_quotes,
                bytes@.subrange(start as int, i as int),
            ),
        decreases len - i,
    {
        let b = bytes[i];
        let ghost seen = bytes@.subrange(start as int, i as int);
        let ghost next = bytes@.subrange(start as int, i + 1);
        let ghost before = out.deep_view();
        proof {
            assert(next.drop_last() =~= seen);
            assert(next.last() == b);
        }
        if b == QUOTES {
            inside = !inside;
            proof {
                assert(bytes@.subrange(j as int, i + 1) =~= bytes@.subrange(j as int, i as int).push(b));
            }
        } else if !inside && (b == COMMA || b == LF) {
            let cell = slice_to_vec(slice_subrange(bytes, j, i));
            out.push(YieldEvent::NewCell(cell));
            proof {
                assert(out.deep_view() =~= before.push(Boundary::Cell(cell@)));
            }
            if b == LF {
                let ghost with_cell = out.deep_view();
                out.push(YieldEvent::NewLine);
                proof {
                    assert(out.deep_view() =~= with_cell.push(Boundary::Line));
                }
            }
            j = i + 1;
            proof {
                assert(bytes@.subrange(j as int, i + 1) =~= Seq::<u8>::empty());
            }
        } else {
            proof {
                assert(bytes@.subrange(j as int, i + 1) =~= bytes@.subrange(j as int, i as int).push(b));
            }
        }
        i += 1;
    }
    proof {
        assert(bytes@.subrange(start as int, len as int) =~= bytes@.skip(start as int));
    }
    Scan { events: out, rest: slice_subrange(bytes, j, len), inside_quotes: inside }
}

} // verus!
