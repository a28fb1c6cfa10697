//! Records: the cells of a stream gathered line by line.

use crate::scanner::{Boundary, ByteCell, YieldEvent};
use vstd::prelude::*;

verus! {

/// The cells that stand after the last end of record.
pub open spec fn open_record(found: Seq<Boundary>) -> Seq<Seq<u8>>
    decreases found.len(),
{
    if found.len() == 0 {
        Seq::empty()
    } else {
        match found.last() {
            Boundary::Line => Seq::empty(),
            Boundary::Cell(cell) => open_record(found.drop_last()).push(cell),
        }
    }
}

/// The records that an end of record has closed, in order.
pub open spec fn closed_records(found: Seq<Boundary>) -> Seq<Seq<Seq<u8>>>
    decreases found.len(),
{
    if found.len() == 0 {
        Seq::empty()
    } else {
        match found.last() {
            Boundary::Line => closed_records(found.drop_last()).push(
                open_record(found.drop_last()),
            ),
            Boundary::Cell(_) => closed_records(found.drop_last()),
        }
    }
}

/// Whether a record holds nothing: no cell, or one empty cell.
pub open spec fn is_blank(record: Seq<Seq<u8>>) -> bool {
    record.len() == 0 || (record.len() == 1 && record[0].len() == 0)
}

/// The records of a stream, from its events. The cells behind the last end
/// of record are the last record, as in a stream without a final terminator;
/// they are none where they hold nothing, which is what a final terminator
/// leaves behind.
pub open spec fn records_of(found: Seq<Boundary>) -> Seq<Seq<Seq<u8>>> {
    let last = open_record(found);
    if is_blank(last) {
        closed_records(found)
    } else {
        closed_records(found).push(last)
    }
}

/// Gathers cells into records as the events come in, one at a time.
pub struct RecordBuilder {
    line: Vec<ByteCell>,
    taken: Ghost<Seq<Boundary>>,
}

impl RecordBuilder {
    #[verifier::type_invariant]
    spec fn well_formed(self) -> bool {
        self.line.deep_view() == open_record(self.taken@)
    }

    /// The events that the builder has been given so far.
    pub closed spec fn seen(self) -> Seq<Boundary> {
        self.taken@
    }

    /// A builder that has seen no event yet.
    pub fn new() -> (builder: RecordBuilder)
        ensures
            builder.seen() == Seq::<Boundary>::empty(),
    {
        let line: Vec<ByteCell> = Vec::new();
        proof {
            assert(line.deep_view() =~= open_record(Seq::<Boundary>::empty()));
        }
        RecordBuilder { line, taken: Ghost(Seq::empty()) }
    }

    /// Takes the next event. A cell joins the record that is open; an end
    /// of record closes it and hands it out.
    pub fn push(&mut self, event: YieldEvent) -> (closed: Option<Vec<ByteCell>>)
        ensures
            final(self).seen() == old(self).seen().push(event@),
            match closed {
                Some(record) => {
                    &&& event@ is Line
                    &&& record.deep_view() == open_record(old(self).seen())
                    &&& closed_records(final(self).seen()) == closed_records(old(self).seen()).push(
                        record.deep_view(),
                    )
                },
                None => {
                    &&& event@ is Cell
                    &&& closed_records(final(self).seen()) == closed_records(old(self).seen())
                },
            },
    {
        proof {
            use_type_invariant(&*self);
        }
        // The state is taken out whole and put back whole.
        let mut state = RecordBuilder::new();
        core::mem::swap(self, &mut state);
        let RecordBuilder { line, taken } = state;
        let ghost before = taken@;
        let ghost after = before.push(event@);
        proof {
            assert(after.drop_last() =~= before);
        }
        match event {
            YieldEvent::NewCell(cell) => {
                let mut line = line;
                let ghost open = line.deep_view();
                line.push(cell);
                proof {
                    assert(cell.deep_view() =~= cell@);
                    assert(line.deep_view() =~= open.push(cell@));
                }
                *self = RecordBuilder { line, taken: Ghost(after) };
                None
            },
            YieldEvent::NewLine => {
                let fresh: Vec<ByteCell> = Vec::new();
                proof {
                    assert(fresh.deep_view() =~= Seq::<Seq<u8>>::empty());
                }
                *self = RecordBuilder { line: fresh, taken: Ghost(after) };
                Some(line)
            },
        }
    }

    /// Ends the stream. The cells that no end of record has closed are the
    /// last record, unless they hold nothing.
    pub fn finish(self) -> (last: Option<Vec<ByteCell>>)
        ensures
            match last {
                Some(record) => {
                    &&& !is_blank(open_record(self.seen()))
                    &&& record.deep_view() == open_record(self.seen())
                    &&& records_of(self.seen()) == closed_records(self.seen()).push(
                        record.deep_view(),
                    )
                },
                None => {
                    &&& is_blank(open_record(self.seen()))
                    &&& records_of(self.seen()) == closed_records(self.seen())
                },
            },
    {
        proof {
            use_type_invariant(&self);
        }
        let RecordBuilder { line, taken } = self;
        let blank: bool = line.len() == 0 || (line.len() == 1 && line[0].len() == 0);
        proof {
            if line.len() == 1 {
                assert(line[0].deep_view() =~= line[0]@);
                assert(line.deep_view()[0] == line[0]@);
            }
        }
        if blank {
            None
        } else {
            Some(line)
        }
    }
}

/// Gathers the cells of `found` into records.
pub fn assemble(found: Vec<YieldEvent>) -> (records: Vec<Vec<ByteCell>>)
    ensures
        records.deep_view() == records_of(found.deep_view()),
{
    let ghost all = found.deep_view();
    let mut records: Vec<Vec<ByteCell>> = Vec::new();
    let mut builder = RecordBuilder::new();
    proof {
        assert(records.deep_view() =~= closed_records(builder.seen()));
        assert(all.take(0) =~= builder.seen());
    }
    for event in it: found
        invariant
            all == found.deep_view(),
            builder.seen() == all.take(it.index() as int),
            records.deep_view() == closed_records(builder.seen()),
    {
        let ghost at = it.index() as int;
        let ghost before = records.deep_view();
        proof {
            assert(all.take(at + 1) =~= all.take(at).push(event.deep_view()));
        }
        match builder.push(event) {
            Some(record) => {
                let ghost closed = record.deep_view();
                records.push(record);
                proof {
                    assert(records.deep_view() =~= before.push(closed));
                }
            },
            None => {},
        }
    }
    proof {
        assert(all.take(all.len() as int) =~= all);
    }
    let ghost before = records.deep_view();
    match builder.finish() {
        Some(record) => {
            let ghost last = record.deep_view();
            records.push(record);
            proof {
                assert(records.deep_view() =~= before.push(last));
            }
        },
        None => {},
    }
    records
}

} // verus!
