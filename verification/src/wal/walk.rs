//! What a read comes to: which entries are read from which segments, where
//! the cursor then stands, and which segments are finished.

use crate::segment::layout::slot_start;
use crate::segment::state::SegmentView;
use crate::segment::Span;
use crate::wal::cursor::Position;
use crate::wal::state::{
    consecutive, entries_in, lemma_entries_grow, lemma_entries_skip, lemma_pending_is, WALView,
};
use vstd::prelude::*;

verus! {

/// One run of entries to read from one segment.
#[derive(Debug, Copy, Clone, PartialEq, Eq, Structural)]
pub struct Reading {
    /// The segment to read from.
    pub sequence: u64,
    /// The first entry of the run.
    pub start: usize,
    /// The descriptors of the run, as `Segment::read_into` gives them.
    pub span: Span,
}

/// The run of up to `n` entries of `segment` from entry `start` on, where
/// `start` is below the count of entries.
pub open spec fn reading(segment: SegmentView, start: int, n: int) -> Reading {
    Reading {
        sequence: segment.sequence,
        start: start as usize,
        span: Span {
            offset: slot_start(start) as u64,
            count: if n <= segment.entry_number - start {
                n as usize
            } else {
                (segment.entry_number - start) as usize
            },
        },
    }
}

/// The count of entries in `readings`.
pub open spec fn delivered(readings: Seq<Reading>) -> int
    decreases readings.len(),
{
    if readings.len() == 0 {
        0
    } else {
        readings.first().span.count + delivered(readings.drop_first())
    }
}

/// The entries that a read can still reach when it is about to look at
/// segment `index`, of which `start` entries are read already: what that
/// segment holds beyond them, and all of the later segments.
pub open spec fn ahead(segments: Seq<SegmentView>, index: int, start: int) -> int {
    entries_in(segments, segments.len() as int) - entries_in(segments, index) - if index
        < segments.len() {
        if start <= segments[index].entry_number {
            start
        } else {
            segments[index].entry_number as int
        }
    } else {
        0
    }
}

/// What a read comes to.
pub struct Walk {
    /// The runs of entries that are read, in order.
    pub readings: Seq<Reading>,
    /// The count of segments, from the first on, that were read to their end.
    pub finished: int,
    /// Where the last run ends: the index of its segment and the count of
    /// entries read there. `None` where nothing is read.
    pub last: Option<(int, int)>,
}

/// A read of up to `n` entries that is about to look at segment `index`, of
/// which `start` entries are read already.
///
/// A full segment with nothing left to read is finished, and the read goes
/// on with the next. A segment with room and nothing left ends the read: more
/// may yet be written to it. Else a run of entries is read from the segment;
/// if that does not fill the read and the segment is full, the segment is
/// finished and the read goes on with the next.
pub open spec fn walk(segments: Seq<SegmentView>, index: int, start: int, n: int) -> Walk
    decreases segments.len() - index,
{
    if n <= 0 || index < 0 || index >= segments.len() {
        Walk { readings: Seq::empty(), finished: index, last: None }
    } else if start >= segments[index].entry_number {
        if segments[index].space() == 0 {
            walk(segments, index + 1, 0, n)
        } else {
            Walk { readings: Seq::empty(), finished: index, last: None }
        }
    } else {
        let here = reading(segments[index], start, n);
        let count = here.span.count as int;
        if n - count > 0 && segments[index].space() == 0 {
            let rest = walk(segments, index + 1, 0, n - count);
            Walk {
                readings: seq![here] + rest.readings,
                finished: rest.finished,
                last: if rest.last is Some {
                    rest.last
                } else {
                    Some((index, start + count))
                },
            }
        } else {
            Walk { readings: seq![here], finished: index, last: Some((index, start + count)) }
        }
    }
}

impl WALView {
    /// What a read of up to `n` entries comes to: it begins in the first
    /// segment, behind the entries of that segment that were read.
    pub open spec fn read(self, n: int) -> Walk {
        walk(self.segments, 0, self.consumed(), n)
    }

    /// The cursor after a read of up to `n` entries.
    pub open spec fn cursor_after(self, n: int) -> Position {
        match self.read(n).last {
            Some((index, read)) => Position {
                sequence: self.segments[index].sequence,
                read: read as u64,
            },
            None => self.cursor,
        }
    }

    /// The state after a read of up to `n` entries.
    pub open spec fn after_read(self, n: int) -> WALView {
        WALView {
            cursor: self.cursor_after(n),
            segments: self.segments.skip(self.read(n).finished),
            ..self
        }
    }
}

/// Where a read ends: no segment is finished that the log does not hold, and
/// the last run ends within a segment that is finished or is the first that
/// stays. The state after the read is well-formed.
pub proof fn lemma_walk_bounds(wal: WALView, n: int)
    requires
        wal.wf(),
    ensures
        0 <= wal.read(n).finished <= wal.segments.len(),
        match wal.read(n).last {
            Some((index, read)) => {
                &&& 0 <= index < wal.segments.len()
                &&& index <= wal.read(n).finished
                &&& 0 <= read <= wal.segments[index].entry_number
            },
            None => true,
        },
        wal.after_read(n).wf(),
{
    lemma_walk_from(wal.segments, 0, wal.consumed(), n);
    let after = wal.after_read(n);
    let f = wal.read(n).finished;
    assert forall|i: int| 0 <= i < after.segments.len() implies (#[trigger] after.segments[i]).wf()
        && after.segments[i].sequence == after.segments[0].sequence + i by {
        assert(after.segments[i] == wal.segments[f + i]);
        assert(after.segments[0] == wal.segments[f]);
    }
    if after.segments.len() > 0 {
        assert(after.segments.last() == wal.segments.last());
        assert(after.segments[0] == wal.segments[f]);
    }
    match wal.read(n).last {
        Some((index, read)) => {
            assert(wal.segments[index].sequence == wal.segments[0].sequence + index);
            assert(wal.segments.last().sequence == wal.segments[0].sequence + (
            wal.segments.len() - 1));
        },
        None => {},
    }
}

/// Where a read ends that is about to look at segment `index`.
pub(crate) proof fn lemma_walk_from(segments: Seq<SegmentView>, index: int, start: int, n: int)
    requires
        0 <= index <= segments.len(),
        0 <= start,
        forall|i: int| 0 <= i < segments.len() ==> (#[trigger] segments[i]).wf(),
    ensures
        index <= walk(segments, index, start, n).finished <= segments.len(),
        match walk(segments, index, start, n).last {
            Some((at, read)) => {
                &&& index <= at < segments.len()
                &&& at <= walk(segments, index, start, n).finished
                &&& 0 <= read <= segments[at].entry_number
                &&& at == index ==> start <= read
                &&& at < walk(segments, index, start, n).finished < segments.len()
                    ==> segments[walk(segments, index, start, n).finished].entry_number == 0
                    && segments[walk(segments, index, start, n).finished].space() > 0
            },
            None => 0 < n && walk(segments, index, start, n).finished < segments.len() ==> {
                &&& segments[walk(segments, index, start, n).finished].space() > 0
                &&& segments[walk(segments, index, start, n).finished].entry_number <= if walk(
                    segments,
                    index,
                    start,
                    n,
                ).finished == index {
                    start
                } else {
                    0
                }
            },
        },
    decreases segments.len() - index,
{
    if n <= 0 || index >= segments.len() {
    } else if start >= segments[index].entry_number {
        if segments[index].space() == 0 {
            lemma_walk_from(segments, index + 1, 0, n);
        }
    } else {
        assert(segments[index].wf());
        let here = reading(segments[index], start, n);
        let count = here.span.count as int;
        if n - count > 0 && segments[index].space() == 0 {
            lemma_walk_from(segments, index + 1, 0, n - count);
        }
    }
}

/// What a read takes from the entries ahead of it. Where it reads anything,
/// the entries read and those behind the end of the last run are the entries
/// that were ahead; a segment that is finished behind the last run was read to
/// its end, and the finished segments after it hold nothing. Where it reads
/// nothing, the entries ahead are the same at its end.
pub(crate) proof fn lemma_walk_count(segments: Seq<SegmentView>, index: int, start: int, n: int)
    requires
        0 <= index <= segments.len(),
        0 <= start,
        forall|i: int| 0 <= i < segments.len() ==> (#[trigger] segments[i]).wf(),
    ensures
        0 <= delivered(walk(segments, index, start, n).readings),
        n >= 0 ==> delivered(walk(segments, index, start, n).readings) <= n,
        match walk(segments, index, start, n).last {
            Some((at, read)) => {
                &&& delivered(walk(segments, index, start, n).readings) + ahead(segments, at, read)
                    == ahead(segments, index, start)
                &&& walk(segments, index, start, n).finished > at ==> read
                    == segments[at].entry_number && entries_in(
                    segments,
                    walk(segments, index, start, n).finished,
                ) == entries_in(segments, at + 1)
            },
            None => {
                &&& delivered(walk(segments, index, start, n).readings) == 0
                &&& ahead(
                    segments,
                    walk(segments, index, start, n).finished,
                    if walk(segments, index, start, n).finished == index {
                        start
                    } else {
                        0
                    },
                ) == ahead(segments, index, start)
            },
        },
    decreases segments.len() - index,
{
    let w = walk(segments, index, start, n);
    let len = segments.len() as int;
    lemma_walk_from(segments, index, start, n);
    assert(delivered(Seq::<Reading>::empty()) == 0);
    if n <= 0 || index >= len {
    } else {
        assert(segments[index].wf());
        assert(entries_in(segments, index + 1) == entries_in(segments, index)
            + segments[index].entry_number);
        if start >= segments[index].entry_number {
            if segments[index].space() == 0 {
                lemma_walk_count(segments, index + 1, 0, n);
                lemma_walk_from(segments, index + 1, 0, n);
                assert(ahead(segments, index + 1, 0) == ahead(segments, index, start));
            }
        } else {
            let here = reading(segments[index], start, n);
            let count = here.span.count as int;
            assert(0 < count <= n);
            assert(start + count <= segments[index].entry_number);
            if n - count > 0 && segments[index].space() == 0 {
                let rest = walk(segments, index + 1, 0, n - count);
                lemma_walk_count(segments, index + 1, 0, n - count);
                lemma_walk_from(segments, index + 1, 0, n - count);
                assert(w.readings.first() == here);
                assert(w.readings.drop_first() =~= rest.readings);
                assert(delivered(w.readings) == count + delivered(rest.readings));
                assert(start + count == segments[index].entry_number);
                assert(ahead(segments, index + 1, 0) == ahead(segments, index, start) - count);
                if rest.last is None {
                    assert(rest.finished > index);
                    assert(ahead(segments, rest.finished, 0) == ahead(segments, index + 1, 0));
                    assert(ahead(segments, index, start + count) == ahead(segments, index + 1, 0));
                }
            } else {
                assert(w.readings.first() == here);
                assert(w.readings.drop_first() =~= Seq::<Reading>::empty());
                assert(delivered(w.readings) == count);
                assert(ahead(segments, index, start + count) == ahead(segments, index, start)
                    - count);
            }
        }
    }
}

/// A read finishes full segments only.
proof fn lemma_walk_full(segments: Seq<SegmentView>, index: int, start: int, n: int)
    requires
        0 <= index <= segments.len(),
    ensures
        forall|i: int|
            index <= i < walk(segments, index, start, n).finished ==> (#[trigger] segments[i]).space()
                == 0,
    decreases segments.len() - index,
{
    if n <= 0 || index >= segments.len() {
    } else if start >= segments[index].entry_number {
        if segments[index].space() == 0 {
            lemma_walk_full(segments, index + 1, 0, n);
        }
    } else {
        let count = reading(segments[index], start, n).span.count as int;
        if n - count > 0 && segments[index].space() == 0 {
            lemma_walk_full(segments, index + 1, 0, n - count);
        }
    }
}

/// A read finishes a segment only when the segment is full and the cursor has
/// passed its last entry: every entry of a finished segment was read before,
/// or is delivered by this read. A segment with room, and a segment with an
/// entry that is not delivered, stays.
pub proof fn lemma_read_finished(wal: WALView, n: int)
    requires
        wal.wf(),
    ensures
        0 <= wal.read(n).finished <= wal.segments.len(),
        forall|i: int| 0 <= i < wal.read(n).finished ==> (#[trigger] wal.segments[i]).space() == 0,
        entries_in(wal.segments, wal.read(n).finished) <= wal.consumed() + delivered(
            wal.read(n).readings,
        ),
{
    let segments = wal.segments;
    let len = segments.len() as int;
    let w = wal.read(n);
    lemma_walk_bounds(wal, n);
    lemma_walk_full(segments, 0, wal.consumed(), n);
    lemma_walk_count(segments, 0, wal.consumed(), n);
    assert(entries_in(segments, 0) == 0);
    if w.finished < len {
        assert(entries_in(segments, w.finished + 1) == entries_in(segments, w.finished)
            + segments[w.finished].entry_number);
    }
    match w.last {
        Some((at, read)) => {
            assert(entries_in(segments, at + 1) == entries_in(segments, at)
                + segments[at].entry_number);
        },
        None => {},
    }
}

/// Where every segment but the last is full, a read delivers as many entries
/// as it is asked for, or all that the segments ahead of it hold.
proof fn lemma_walk_packed(segments: Seq<SegmentView>, index: int, start: int, n: int)
    requires
        0 <= index <= segments.len(),
        0 <= start,
        0 <= n,
        index < segments.len() ==> start <= segments[index].entry_number,
        forall|i: int| 0 <= i < segments.len() ==> (#[trigger] segments[i]).wf(),
        forall|i: int| 0 <= i < segments.len() - 1 ==> (#[trigger] segments[i]).space() == 0,
    ensures
        delivered(walk(segments, index, start, n).readings) == if n <= ahead(
            segments,
            index,
            start,
        ) {
            n
        } else {
            ahead(segments, index, start)
        },
    decreases segments.len() - index,
{
    let w = walk(segments, index, start, n);
    let len = segments.len() as int;
    assert(delivered(Seq::<Reading>::empty()) == 0);
    lemma_entries_grow(segments, index, len);
    if index < len {
        assert(segments[index].wf());
        assert(entries_in(segments, index + 1) == entries_in(segments, index)
            + segments[index].entry_number);
        lemma_entries_grow(segments, index + 1, len);
        if index + 1 < len {
            assert(segments[index].space() == 0);
        } else {
            assert(entries_in(segments, len) == entries_in(segments, index + 1));
        }
    }
    assert(0 <= ahead(segments, index, start));
    if n <= 0 || index >= len {
    } else if start >= segments[index].entry_number {
        if segments[index].space() == 0 {
            lemma_walk_packed(segments, index + 1, 0, n);
            assert(ahead(segments, index + 1, 0) == ahead(segments, index, start));
        } else {
            assert(ahead(segments, index, start) == 0);
        }
    } else {
        let here = reading(segments[index], start, n);
        let count = here.span.count as int;
        assert(0 < count <= n);
        assert(count <= segments[index].entry_number - start);
        assert(w.readings.first() == here);
        if n - count > 0 && segments[index].space() == 0 {
            let rest = walk(segments, index + 1, 0, n - count);
            lemma_walk_packed(segments, index + 1, 0, n - count);
            assert(w.readings.drop_first() =~= rest.readings);
            assert(delivered(w.readings) == count + delivered(rest.readings));
            assert(count == segments[index].entry_number - start);
            assert(ahead(segments, index, start) == count + ahead(segments, index + 1, 0));
        } else {
            assert(w.readings.drop_first() =~= Seq::<Reading>::empty());
            assert(delivered(w.readings) == count);
            if n - count > 0 {
                assert(index + 1 == len);
                assert(ahead(segments, index, start) == count);
            }
        }
    }
}

/// Where every segment but the last is full, a read delivers as many entries
/// as it is asked for, or all that are yet to be read: the count of entries
/// yet to be read is what a read without bound delivers.
pub proof fn lemma_read_all(wal: WALView, n: int)
    requires
        wal.wf(),
        wal.packed(),
        0 <= n,
    ensures
        delivered(wal.read(n).readings) == if n <= wal.pending() {
            n
        } else {
            wal.pending()
        },
        wal.after_read(n).packed(),
{
    let segments = wal.segments;
    let len = segments.len() as int;
    lemma_walk_bounds(wal, n);
    lemma_walk_packed(segments, 0, wal.consumed(), n);
    lemma_pending_is(segments, wal.cursor, len);
    assert(entries_in(segments, 0) == 0);
    let after = wal.after_read(n);
    let f = wal.read(n).finished;
    assert forall|i: int| 0 <= i < after.segments.len() - 1 implies (#[trigger] after.segments[i]).space()
        == 0 by {
        assert(after.segments[i] == segments[f + i]);
    }
}

/// A read takes from the entries yet to be read exactly those that it
/// delivers.
pub proof fn lemma_read_pending(wal: WALView, n: int)
    requires
        wal.wf(),
        0 <= n,
    ensures
        0 <= delivered(wal.read(n).readings) <= n,
        wal.after_read(n).pending() == wal.pending() - delivered(wal.read(n).readings),
{
    let segments = wal.segments;
    let len = segments.len() as int;
    let w = wal.read(n);
    let after = wal.after_read(n);
    lemma_walk_bounds(wal, n);
    lemma_walk_count(segments, 0, wal.consumed(), n);
    lemma_pending_is(segments, wal.cursor, len);
    assert(consecutive(after.segments));
    lemma_pending_is(after.segments, after.cursor, after.segments.len() as int);
    lemma_entries_skip(segments, w.finished, len - w.finished);
    if w.finished < len {
        assert(after.segments[0] == segments[w.finished]);
        assert(segments[w.finished].sequence == segments[0].sequence + w.finished);
    }
    match w.last {
        Some((at, read)) => {
            assert(segments[at].sequence == segments[0].sequence + at);
        },
        None => {},
    }
}

} // verus!
