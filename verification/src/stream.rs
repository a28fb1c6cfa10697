//! Laws of the tokenization model: how it composes over concatenation, why
//! the size of the chunks a stream arrives in cannot be seen in the output,
//! and why no byte is lost or made up on the way.

use crate::scanner::{
    ends_at_boundary, events, pending, quote_state, tokenize, Boundary, COMMA, LF,
};
use crate::records::records_of;
use vstd::prelude::*;

verus! {

/// The quote state after `a + b` is the state after `b`, entered in the
/// state that `a` leaves.
pub proof fn lemma_quote_state_concat(inside: bool, a: Seq<u8>, b: Seq<u8>)
    ensures
        quote_state(inside, a + b) == quote_state(quote_state(inside, a), b),
    decreases b.len(),
{
    if b.len() == 0 {
        assert(a + b =~= a);
    } else {
        assert((a + b).drop_last() =~= a + b.drop_last());
        lemma_quote_state_concat(inside, a, b.drop_last());
    }
}

/// Scanning `a + b` in one go leaves the same unfinished cell as scanning `a`
/// and then `b`, with the state that `a` leaves handed on.
pub proof fn lemma_pending_concat(carry: Seq<u8>, inside: bool, a: Seq<u8>, b: Seq<u8>)
    ensures
        pending(carry, inside, a + b) == pending(
            pending(carry, inside, a),
            quote_state(inside, a),
            b,
        ),
    decreases b.len(),
{
    if b.len() == 0 {
        assert(a + b =~= a);
    } else {
        assert((a + b).drop_last() =~= a + b.drop_last());
        lemma_quote_state_concat(inside, a, b.drop_last());
        lemma_pending_concat(carry, inside, a, b.drop_last());
    }
}

/// Scanning `a + b` in one go completes the events of `a`, then those of `b`
/// scanned with the state that `a` leaves.
pub proof fn lemma_events_concat(carry: Seq<u8>, inside: bool, a: Seq<u8>, b: Seq<u8>)
    ensures
        events(carry, inside, a + b) == events(carry, inside, a) + events(
            pending(carry, inside, a),
            quote_state(inside, a),
            b,
        ),
    decreases b.len(),
{
    let mid_carry = pending(carry, inside, a);
    let mid_inside = quote_state(inside, a);
    if b.len() == 0 {
        assert(a + b =~= a);
        assert(events(carry, inside, a) + Seq::<Boundary>::empty() =~= events(carry, inside, a));
    } else {
        let b0 = b.drop_last();
        assert((a + b).drop_last() =~= a + b0);
        lemma_quote_state_concat(inside, a, b0);
        lemma_pending_concat(carry, inside, a, b0);
        lemma_events_concat(carry, inside, a, b0);
        let head = events(carry, inside, a);
        let tail0 = events(mid_carry, mid_inside, b0);
        let cell = Boundary::Cell(pending(mid_carry, mid_inside, b0));
        if !ends_at_boundary(inside, a + b) {
        } else if b.last() == LF {
            assert((head + tail0).push(cell).push(Boundary::Line) =~= head + tail0.push(cell).push(
                Boundary::Line,
            ));
        } else {
            assert((head + tail0).push(cell) =~= head + tail0.push(cell));
        }
    }
}

/// The events completed while `chunks` arrive one after the other, each
/// scanned with the unfinished cell and the quote state that the one before
/// it left.
pub open spec fn chunk_events(carry: Seq<u8>, inside: bool, chunks: Seq<Seq<u8>>) -> Seq<Boundary>
    decreases chunks.len(),
{
    if chunks.len() == 0 {
        Seq::empty()
    } else {
        let first = chunks.first();
        events(carry, inside, first) + chunk_events(
            pending(carry, inside, first),
            quote_state(inside, first),
            chunks.drop_first(),
        )
    }
}

/// The cell left unfinished after `chunks` have arrived one after the other.
pub open spec fn chunk_pending(carry: Seq<u8>, inside: bool, chunks: Seq<Seq<u8>>) -> Seq<u8>
    decreases chunks.len(),
{
    if chunks.len() == 0 {
        carry
    } else {
        let first = chunks.first();
        chunk_pending(
            pending(carry, inside, first),
            quote_state(inside, first),
            chunks.drop_first(),
        )
    }
}

/// What a tokenizer emits for a stream that arrives as `chunks`: the events
/// of each chunk in turn, then the final cell.
pub open spec fn tokenize_chunks(chunks: Seq<Seq<u8>>) -> Seq<Boundary> {
    chunk_events(Seq::empty(), false, chunks).push(
        Boundary::Cell(chunk_pending(Seq::empty(), false, chunks)),
    )
}

/// Chunk by chunk or all at once: the events and the unfinished cell are
/// those of the concatenated bytes.
pub proof fn lemma_chunks_are_concatenation(carry: Seq<u8>, inside: bool, chunks: Seq<Seq<u8>>)
    ensures
        chunk_events(carry, inside, chunks) == events(carry, inside, chunks.flatten()),
        chunk_pending(carry, inside, chunks) == pending(carry, inside, chunks.flatten()),
    decreases chunks.len(),
{
    if chunks.len() == 0 {
    } else {
        let first = chunks.first();
        let others = chunks.drop_first();
        lemma_chunks_are_concatenation(
            pending(carry, inside, first),
            quote_state(inside, first),
            others,
        );
        lemma_events_concat(carry, inside, first, others.flatten());
        lemma_pending_concat(carry, inside, first, others.flatten());
    }
}

/// A stream tokenized as it arrives in chunks gives the tokenization of the
/// stream, whatever the chunks are.
pub proof fn lemma_tokenize_chunks(chunks: Seq<Seq<u8>>)
    ensures
        tokenize_chunks(chunks) == tokenize(chunks.flatten()),
{
    lemma_chunks_are_concatenation(Seq::empty(), false, chunks);
}

/// Chunk sizes are invisible: two ways of cutting the same stream into
/// chunks give the identical sequence of events, and so the identical
/// records.
pub proof fn lemma_chunking_is_invisible(first: Seq<Seq<u8>>, second: Seq<Seq<u8>>)
    requires
        first.flatten() == second.flatten(),
    ensures
        tokenize_chunks(first) == tokenize_chunks(second),
        records_of(tokenize_chunks(first)) == records_of(tokenize_chunks(second)),
{
    lemma_tokenize_chunks(first);
    lemma_tokenize_chunks(second);
}

/// The stream cut into chunks of `watermark` bytes, the last one shorter
/// where the length asks for it: what reads of that capacity deliver.
pub open spec fn chunked(stream: Seq<u8>, watermark: nat) -> Seq<Seq<u8>>
    decreases stream.len(),
{
    if watermark == 0 || stream.len() == 0 {
        Seq::empty()
    } else if stream.len() <= watermark {
        seq![stream]
    } else {
        seq![stream.take(watermark as int)] + chunked(stream.skip(watermark as int), watermark)
    }
}

/// Cutting a stream into chunks of a positive size and joining them again
/// gives the stream back.
pub proof fn lemma_chunked_flatten(stream: Seq<u8>, watermark: nat)
    requires
        watermark > 0,
    ensures
        chunked(stream, watermark).flatten() == stream,
    decreases stream.len(),
{
    if stream.len() == 0 {
        assert(chunked(stream, watermark).flatten() =~= stream);
    } else if stream.len() <= watermark {
        seq![stream].lemma_flatten_one_element();
        assert(seq![stream].first() == stream);
    } else {
        let head = stream.take(watermark as int);
        let tail = stream.skip(watermark as int);
        lemma_chunked_flatten(tail, watermark);
        let cut = seq![head] + chunked(tail, watermark);
        assert(cut.first() == head);
        assert(cut.drop_first() =~= chunked(tail, watermark));
        assert(head + tail =~= stream);
    }
}

/// Two watermarks, one output: the events of a stream read in chunks of one
/// positive size are those of the same stream read in chunks of another.
pub proof fn lemma_watermark_is_invisible(stream: Seq<u8>, first: nat, second: nat)
    requires
        first > 0,
        second > 0,
    ensures
        tokenize_chunks(chunked(stream, first)) == tokenize_chunks(chunked(stream, second)),
        tokenize_chunks(chunked(stream, first)) == tokenize(stream),
{
    lemma_chunked_flatten(stream, first);
    lemma_chunked_flatten(stream, second);
    lemma_tokenize_chunks(chunked(stream, first));
    lemma_tokenize_chunks(chunked(stream, second));
}

/// The bytes that a sequence of events stands for: each cell gives its raw
/// bytes, each end of record a terminator, and a cell that follows a cell
/// directly is set off from it by a delimiter.
pub open spec fn raw_bytes(found: Seq<Boundary>) -> Seq<u8>
    decreases found.len(),
{
    if found.len() == 0 {
        Seq::empty()
    } else {
        let earlier = found.drop_last();
        match found.last() {
            Boundary::Line => raw_bytes(earlier).push(LF),
            Boundary::Cell(cell) => {
                if earlier.len() > 0 && earlier.last() is Cell {
                    raw_bytes(earlier).push(COMMA) + cell
                } else {
                    raw_bytes(earlier) + cell
                }
            },
        }
    }
}

/// The events that `bytes` complete, with the cell that they leave
/// unfinished behind them, stand for exactly what has gone by: the cell that
/// was unfinished before, then `bytes`.
proof fn lemma_raw_bytes_of_prefix(carry: Seq<u8>, bytes: Seq<u8>)
    ensures
        raw_bytes(events(carry, false, bytes).push(Boundary::Cell(pending(carry, false, bytes))))
            == carry + bytes,
    decreases bytes.len(),
{
    let done = events(carry, false, bytes);
    let open = pending(carry, false, bytes);
    if bytes.len() == 0 {
        assert(done.push(Boundary::Cell(open)).drop_last() =~= done);
        assert(Seq::<u8>::empty() + carry =~= carry + bytes);
        assert(raw_bytes(done) =~= Seq::<u8>::empty());
    } else {
        let before = bytes.drop_last();
        let b = bytes.last();
        let done0 = events(carry, false, before);
        let open0 = pending(carry, false, before);
        lemma_raw_bytes_of_prefix(carry, before);
        let whole0 = done0.push(Boundary::Cell(open0));
        assert(whole0.drop_last() =~= done0);
        assert(carry + bytes =~= (carry + before).push(b));
        if !ends_at_boundary(false, bytes) {
            let whole = done0.push(Boundary::Cell(open0.push(b)));
            assert(whole.drop_last() =~= done0);
            if done0.len() > 0 && done0.last() is Cell {
                assert(raw_bytes(done0).push(COMMA) + open0.push(b) =~= (raw_bytes(done0).push(
                    COMMA,
                ) + open0).push(b));
            } else {
                assert(raw_bytes(done0) + open0.push(b) =~= (raw_bytes(done0) + open0).push(b));
            }
        } else if b == LF {
            let with_line = whole0.push(Boundary::Line);
            assert(with_line.drop_last() =~= whole0);
            let whole = with_line.push(Boundary::Cell(Seq::empty()));
            assert(whole.drop_last() =~= with_line);
            assert(raw_bytes(with_line) + Seq::<u8>::empty() =~= raw_bytes(with_line));
        } else {
            let whole = whole0.push(Boundary::Cell(Seq::empty()));
            assert(whole.drop_last() =~= whole0);
            assert(raw_bytes(whole0).push(COMMA) + Seq::<u8>::empty() =~= raw_bytes(whole0).push(
                COMMA,
            ));
        }
    }
}

/// Round trip: the raw bytes of all cells, with the delimiter and terminator
/// bytes that the events stand for, are the stream itself.
pub proof fn lemma_round_trip(stream: Seq<u8>)
    ensures
        raw_bytes(tokenize(stream)) == stream,
{
    lemma_raw_bytes_of_prefix(Seq::empty(), stream);
    assert(Seq::<u8>::empty() + stream =~= stream);
}

/// No byte is lost or doubled where a chunk ends: cut the stream at any
/// point, tokenize the two parts in turn, and the events still stand for the
/// stream, byte for byte.
pub proof fn lemma_split_keeps_every_byte(stream: Seq<u8>, at: int)
    requires
        0 <= at <= stream.len(),
    ensures
        tokenize_chunks(seq![stream.take(at), stream.skip(at)]) == tokenize(stream),
        raw_bytes(tokenize_chunks(seq![stream.take(at), stream.skip(at)])) == stream,
{
    let parts = seq![stream.take(at), stream.skip(at)];
    lemma_tokenize_chunks(parts);
    assert(parts.flatten() =~= stream) by {
        assert(parts.drop_first() =~= seq![stream.skip(at)]);
        seq![stream.skip(at)].lemma_flatten_one_element();
        assert(seq![stream.skip(at)].first() == stream.skip(at));
        assert(stream.take(at) + stream.skip(at) =~= stream);
    }
    lemma_round_trip(stream);
}

} // verus!
