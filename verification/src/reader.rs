//! The stream tokenizer: it takes a byte stream chunk by chunk, keeps what a
//! chunk leaves unfinished, and hands out the cells and record ends as they
//! are completed.

use crate::config::Config;
use crate::decoder::{is_record_decoding_of, CellParser, DecodeError};
use crate::records::{assemble, records_of};
use crate::scanner::{
    events, pending, quote_state, scan, tokenize, Boundary, ByteCell, YieldEvent,
};
use crate::stream::{lemma_events_concat, lemma_pending_concat, lemma_quote_state_concat};
use vstd::prelude::*;
use vstd::slice::slice_subrange;
use vstd::slice::slice_to_vec;

verus! {

/// The chunk capacity of a reader that was not given one: 8 KiB.
pub const DEFAULT_WATERMARK: usize = 8192;

/// A byte stream held in memory, read by filling a buffer.
pub struct ChunkSource {
    data: Vec<u8>,
    position: usize,
}

impl ChunkSource {
    #[verifier::type_invariant]
    spec fn well_formed(self) -> bool {
        self.position <= self.data@.len()
    }

    /// The bytes that have not been read yet.
    pub closed spec fn remaining(self) -> Seq<u8> {
        self.data@.skip(self.position as int)
    }

    /// A source that delivers `data`, from its first byte on.
    pub fn new(data: Vec<u8>) -> (source: ChunkSource)
        ensures
            source.remaining() == data@,
    {
        proof {
            assert(data@.skip(0) =~= data@);
        }
        ChunkSource { data, position: 0 }
    }

    /// Copies the next bytes of the stream to the front of `buffer`, as many
    /// as there are and as `buffer` has room for, and moves on behind them.
    /// Returns their number: 0 at the end of the stream.
    pub fn fill(&mut self, buffer: &mut Vec<u8>) -> (n: usize)
        ensures
            n == if old(self).remaining().len() <= old(buffer)@.len() {
                old(self).remaining().len()
            } else {
                old(buffer)@.len()
            },
            final(buffer)@ == old(self).remaining().take(n as int) + old(buffer)@.skip(n as int),
            final(self).remaining() == old(self).remaining().skip(n as int),
    {
        proof {
            use_type_invariant(&*self);
        }
        let start: usize = self.position;
        let len: usize = self.data.len();
        let left: usize = len - start;
        let n: usize = if left <= buffer.len() { left } else { buffer.len() };
        let ghost before = buffer@;
        let ghost rest = self.data@.skip(start as int);
        let mut i: usize = 0;
        proof {
            assert(buffer@ =~= rest.take(0) + before.skip(0));
        }
        while i < n
            invariant
                i <= n,
                n <= buffer@.len(),
                start + n <= len,
                len == self.data@.len(),
                start == self.position,
                buffer@.len() == before.len(),
                rest == self.data@.skip(start as int),
                buffer@ == rest.take(i as int) + before.skip(i as int),
            decreases n - i,
        {
            let b: u8 = self.data[start + i];
            buffer.set(i, b);
            i += 1;
            proof {
                assert(buffer@ =~= rest.take(i as int) + before.skip(i as int));
            }
        }
        self.position = start + n;
        proof {
            assert(self.data@.skip(start + n) =~= rest.skip(n as int));
        }
        n
    }
}

/// A tokenizer of delimited text. It is fed the chunks of a stream in order
/// and remembers the unfinished cell and the quote state between them, so
/// that a cell, quoted or not, may begin in one chunk and end in another.
pub struct CsvReader {
    watermark: usize,
    carry: Vec<u8>,
    between_quotes: bool,
    drained: bool,
    consumed: Ghost<Seq<u8>>,
}

impl CsvReader {
    #[verifier::type_invariant]
    spec fn well_formed(self) -> bool {
        &&& self.watermark > 0
        &&& self.between_quotes == quote_state(false, self.consumed@)
        &&& !self.drained ==> self.carry@ == pending(Seq::empty(), false, self.consumed@)
    }

    /// All bytes of the stream that the reader has been given so far.
    pub closed spec fn seen(self) -> Seq<u8> {
        self.consumed@
    }

    /// Whether the end of the stream has been reached and the last cell
    /// handed out.
    pub closed spec fn is_drained(self) -> bool {
        self.drained
    }

    /// The capacity of the chunks that the reader asks for.
    pub closed spec fn chunk_capacity(self) -> usize {
        self.watermark
    }

    /// The cell that is unfinished after the bytes seen so far.
    pub open spec fn carry_over(self) -> Seq<u8> {
        pending(Seq::empty(), false, self.seen())
    }

    /// Whether the bytes seen so far end inside a quoted cell.
    pub open spec fn inside_quotes(self) -> bool {
        quote_state(false, self.seen())
    }

    /// Everything the reader has handed out so far.
    pub open spec fn emitted(self) -> Seq<Boundary> {
        if self.is_drained() {
            tokenize(self.seen())
        } else {
            events(Seq::empty(), false, self.seen())
        }
    }

    /// The events that the reader has yet to hand out when `rest` is what is
    /// left of the stream: those of the whole stream but for the ones handed
    /// out already. None for a drained reader.
    pub open spec fn events_to_come(self, rest: Seq<u8>) -> Seq<Boundary> {
        if self.is_drained() {
            Seq::empty()
        } else {
            tokenize(self.seen() + rest).skip(self.emitted().len() as int)
        }
    }

    /// A reader at the start of a stream, with the chunk capacity of
    /// `config`, or the default one where `config` names none.
    pub fn build_from(config: Config) -> (reader: CsvReader)
        ensures
            reader.seen() == Seq::<u8>::empty(),
            !reader.is_drained(),
            reader.chunk_capacity() == match config.chunk_capacity() {
                Some(w) => w,
                None => DEFAULT_WATERMARK,
            },
            reader.chunk_capacity() > 0,
    {
        let watermark: usize = match config.watermark() {
            Some(w) => w,
            None => DEFAULT_WATERMARK,
        };
        CsvReader {
            watermark,
            carry: Vec::new(),
            between_quotes: false,
            drained: false,
            consumed: Ghost(Seq::empty()),
        }
    }

    /// The capacity of the chunks that the reader asks for.
    pub fn watermark(&self) -> (w: usize)
        ensures
            w == self.chunk_capacity(),
            w > 0,
    {
        proof {
            use_type_invariant(self);
        }
        self.watermark
    }

    /// Whether the end of the stream has been reached.
    pub fn drained(&self) -> (d: bool)
        ensures
            d == self.is_drained(),
    {
        self.drained
    }

    /// Takes the next chunk of the stream and returns the events that it
    /// completes. An empty chunk is the end of the stream: the unfinished
    /// cell is handed out as the last one and the reader is drained. A
    /// drained reader takes nothing and returns nothing.
    pub fn process_chunk(&mut self, chunk: &[u8]) -> (out: Vec<YieldEvent>)
        ensures
            final(self).chunk_capacity() == old(self).chunk_capacity(),
            final(self).is_drained() == (old(self).is_drained() || chunk@.len() == 0),
            final(self).seen() == if old(self).is_drained() {
                old(self).seen()
            } else {
                old(self).seen() + chunk@
            },
            out.deep_view() == if old(self).is_drained() {
                Seq::<Boundary>::empty()
            } else if chunk@.len() == 0 {
                seq![Boundary::Cell(old(self).carry_over())]
            } else {
                events(old(self).carry_over(), old(self).inside_quotes(), chunk@)
            },
            final(self).emitted() == old(self).emitted() + out.deep_view(),
    {
        proof {
            use_type_invariant(&*self);
        }
        if self.drained {
            let out: Vec<YieldEvent> = Vec::new();
            proof {
                assert(out.deep_view() =~= Seq::<Boundary>::empty());
                assert(self.emitted() + out.deep_view() =~= self.emitted());
            }
            return out;
        }
        // The state is taken out whole, worked on, and put back whole: the
        // reader left behind meanwhile is a drained one.
        let mut state = CsvReader {
            watermark: self.watermark,
            carry: Vec::new(),
            between_quotes: false,
            drained: true,
            consumed: Ghost(Seq::empty()),
        };
        core::mem::swap(self, &mut state);
        let CsvReader { watermark, carry, between_quotes, drained: _, consumed } = state;
        let ghost before = consumed@;
        if chunk.len() == 0 {
            let mut out: Vec<YieldEvent> = Vec::new();
            out.push(YieldEvent::NewCell(carry));
            proof {
                assert(before + chunk@ =~= before);
                assert(out.deep_view() =~= seq![Boundary::Cell(pending(Seq::empty(), false, before))]);
                assert(tokenize(before) =~= events(Seq::empty(), false, before) + out.deep_view());
            }
            *self = CsvReader {
                watermark,
                carry: Vec::new(),
                between_quotes,
                drained: true,
                consumed: Ghost(before),
            };
            return out;
        }
        proof {
            lemma_quote_state_concat(false, before, chunk@);
            lemma_pending_concat(Seq::empty(), false, before, chunk@);
            lemma_events_concat(Seq::empty(), false, before, chunk@);
        }
        if carry.len() == 0 {
            let found = scan(chunk, 0, between_quotes);
            proof {
                assert(chunk@.take(0) =~= carry@);
                assert(chunk@.skip(0) =~= chunk@);
            }
            *self = CsvReader {
                watermark,
                carry: slice_to_vec(found.rest),
                between_quotes: found.inside_quotes,
                drained: false,
                consumed: Ghost(before + chunk@),
            };
            found.events
        } else {
            let resume: usize = carry.len();
            let mut combined: Vec<u8> = carry;
            let ghost carried = combined@;
            let mut i: usize = 0;
            proof {
                assert(combined@ =~= carried + chunk@.take(0));
            }
            while i < chunk.len()
                invariant
                    i <= chunk@.len(),
                    combined@ == carried + chunk@.take(i as int),
                decreases chunk@.len() - i,
            {
                combined.push(chunk[i]);
                i += 1;
                proof {
                    assert(combined@ =~= carried + chunk@.take(i as int));
                }
            }
            proof {
                assert(chunk@.take(chunk@.len() as int) =~= chunk@);
                assert(combined@.take(resume as int) =~= carried);
                assert(combined@.skip(resume as int) =~= chunk@);
            }
            let found = scan(combined.as_slice(), resume, between_quotes);
            *self = CsvReader {
                watermark,
                carry: slice_to_vec(found.rest),
                between_quotes: found.inside_quotes,
                drained: false,
                consumed: Ghost(before + chunk@),
            };
            found.events
        }
    }

    /// Reads `source` to its end in chunks of the reader's capacity and
    /// returns all events that were still to come, the final cell included.
    /// The size of the chunks does not show in the result. A drained reader
    /// reads nothing.
    pub fn process_file(self, source: &mut ChunkSource) -> (out: Vec<YieldEvent>)
        ensures
            out.deep_view() == self.events_to_come(old(source).remaining()),
            self.is_drained() ==> final(source).remaining() == old(source).remaining(),
            !self.is_drained() ==> {
                &&& final(source).remaining() == Seq::<u8>::empty()
                &&& self.emitted() + out.deep_view() == tokenize(
                    self.seen() + old(source).remaining(),
                )
            },
            !self.is_drained() && self.seen().len() == 0 ==> out.deep_view() == tokenize(
                old(source).remaining(),
            ),
    {
        let mut reader = self;
        let mut out: Vec<YieldEvent> = Vec::new();
        let ghost start = reader.seen();
        let ghost stream = source.remaining();
        let ghost emitted = reader.emitted();
        proof {
            assert(out.deep_view() =~= Seq::<Boundary>::empty());
            assert(emitted + out.deep_view() =~= emitted);
            assert(start + Seq::<u8>::empty() =~= start);
        }
        if reader.drained() {
            return out;
        }
        let watermark: usize = reader.watermark();
        let mut chunk: Vec<u8> = Vec::new();
        chunk.resize(watermark, 0u8);
        let ghost mut taken: Seq<u8> = Seq::empty();
        loop
            invariant_except_break
                !reader.is_drained(),
                chunk@.len() == watermark,
                watermark > 0,
                reader.seen() == start + taken,
                taken + source.remaining() == stream,
                emitted + out.deep_view() == reader.emitted(),
            ensures
                reader.is_drained(),
                reader.seen() == start + stream,
                source.remaining() == Seq::<u8>::empty(),
                emitted + out.deep_view() == reader.emitted(),
            decreases source.remaining().len(),
        {
            let ghost left = source.remaining();
            let ghost done = out.deep_view();
            let n: usize = source.fill(&mut chunk);
            let mut found = reader.process_chunk(slice_subrange(chunk.as_slice(), 0, n));
            let ghost fresh = found.deep_view();
            out.append(&mut found);
            proof {
                assert(out.deep_view() =~= done + fresh);
                assert(emitted + (done + fresh) =~= (emitted + done) + fresh);
                assert(chunk@.subrange(0, n as int) =~= left.take(n as int));
                taken = taken + left.take(n as int);
                assert(taken + source.remaining() =~= stream);
                assert(reader.seen() =~= start + taken);
                if n == 0 {
                    assert(taken =~= stream);
                    assert(source.remaining() =~= Seq::<u8>::empty());
                }
            }
            if n == 0 {
                break ;
            }
        }
        proof {
            assert(out.deep_view() =~= (emitted + out.deep_view()).skip(emitted.len() as int));
            if start.len() == 0 {
                assert(start + stream =~= stream);
                assert(emitted =~= Seq::<Boundary>::empty());
                assert(emitted + out.deep_view() =~= out.deep_view());
            }
        }
        out
    }

    /// Reads `source` to its end and returns the records that were still to
    /// come, each with the raw bytes of its cells.
    pub fn for_each_raw_line(self, source: &mut ChunkSource) -> (lines: Vec<Vec<ByteCell>>)
        ensures
            lines.deep_view() == records_of(self.events_to_come(old(source).remaining())),
            self.is_drained() ==> final(source).remaining() == old(source).remaining(),
            !self.is_drained() ==> final(source).remaining() == Seq::<u8>::empty(),
            !self.is_drained() && self.seen().len() == 0 ==> lines.deep_view() == records_of(
                tokenize(old(source).remaining()),
            ),
    {
        let found = self.process_file(source);
        assemble(found)
    }

    /// Reads `source` to its end and returns the records that were still to
    /// come with each cell decoded to text. A cell that is not valid text is
    /// an error in its place and stops nothing.
    pub fn run(self, source: &mut ChunkSource) -> (lines: Vec<Vec<Result<String, DecodeError>>>)
        ensures
            is_decoding_of_records(
                records_of(self.events_to_come(old(source).remaining())),
                lines,
            ),
            self.is_drained() ==> final(source).remaining() == old(source).remaining(),
            !self.is_drained() ==> final(source).remaining() == Seq::<u8>::empty(),
            !self.is_drained() && self.seen().len() == 0 ==> is_decoding_of_records(
                records_of(tokenize(old(source).remaining())),
                lines,
            ),
    {
        let raw = self.for_each_raw_line(source);
        let ghost records = raw.deep_view();
        let mut lines: Vec<Vec<Result<String, DecodeError>>> = Vec::new();
        for record in it: raw
            invariant
                records == raw.deep_view(),
                lines@.len() == it.index(),
                forall|i: int|
                    0 <= i < lines@.len() ==> is_record_decoding_of(records[i], (#[trigger] lines@[i])@),
        {
            proof {
                assert(records[it.index() as int] == record.deep_view());
            }
            let decoded = CellParser::decode_record(record);
            lines.push(decoded);
        }
        lines
    }
}

/// Whether `lines` holds the decoding of each record of `raw`, cell by cell,
/// in order.
pub open spec fn is_decoding_of_records(
    raw: Seq<Seq<Seq<u8>>>,
    lines: Vec<Vec<Result<String, DecodeError>>>,
) -> bool {
    &&& lines@.len() == raw.len()
    &&& forall|i: int| 0 <= i < raw.len() ==> is_record_decoding_of(raw[i], (#[trigger] lines@[i])@)
}

} // verus!
