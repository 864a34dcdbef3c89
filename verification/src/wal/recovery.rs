//! Opening a log on the files that an earlier run left.

use crate::config::Config;
use crate::segment::layout::{limit_of, slot_start};
use crate::segment::sound::sound;
use crate::segment::state::{opens, SegmentView};
use crate::segment::steps::{after_open, lemma_open_describes, lemma_reopen};
use crate::wal::cursor::Position;
use crate::wal::queue::{gathered, lemma_queue_len, lemma_read_queue};
use crate::wal::state::{
    entries_in, lemma_pending_grows, lemma_pending_is, reconciled, WALView,
};
use crate::wal::walk::{
    delivered, lemma_read_all, lemma_read_pending, lemma_walk_bounds, lemma_walk_count,
    lemma_walk_from,
};
use vstd::prelude::*;

verus! {

/// What the caller found when it looked for the file of a segment.
#[derive(Debug, Copy, Clone, PartialEq, Eq, Structural)]
pub enum Probed {
    /// The file is there, and the segment was opened on it.
    Found,
    /// There is no such file.
    Missing,
    /// The file is there and could not be opened as a segment.
    Failed,
}

/// What follows when the segments of a log are looked for, one after the
/// other.
#[derive(Debug, Copy, Clone, PartialEq, Eq, Structural)]
pub enum Probe {
    /// The segment of this sequence is looked for next.
    Open(u64),
    /// The search is over: the log opens on the segments that were found.
    Done,
    /// The log cannot be opened; the failure is passed on.
    Fail,
}

/// One step of the search for the segments of a log, from the sequence of the
/// cursor on: a segment that was found is followed by the next sequence, the
/// first file that is missing ends the search, and any other failure ends
/// the opening.
pub fn probe(sequence: u64, outcome: Probed) -> (next: Probe)
    requires
        outcome is Found ==> sequence < u64::MAX,
    ensures
        next == match outcome {
            Probed::Found => Probe::Open((sequence + 1) as u64),
            Probed::Missing => Probe::Done,
            Probed::Failed => Probe::Fail,
        },
{
    match outcome {
        Probed::Found => Probe::Open(sequence + 1),
        Probed::Missing => Probe::Done,
        Probed::Failed => Probe::Fail,
    }
}

/// The log as it opens on the cursor that was saved and on the segments that
/// were found.
pub open spec fn opened(cfg: Config, cursor: Position, segments: Seq<SegmentView>) -> WALView {
    WALView {
        cfg,
        cursor: reconciled(cursor, segments),
        next_sequence: (cursor.sequence + segments.len()) as u64,
        segments,
    }
}

/// The sequence of the segment that is found in place `index`.
pub open spec fn found(cursor: Position, index: int) -> u64 {
    (cursor.sequence + index) as u64
}

/// Opening a log twice in a row gives the same log both times, with the same
/// count of entries to read and the same next read. The first time prepares
/// the segment files that were empty, and changes no other; the second time
/// finds in each file what the first found.
pub proof fn lemma_open_twice(
    cfg: Config,
    cursor: Position,
    disk: Map<u64, Seq<u8>>,
    first: Seq<SegmentView>,
    second: Seq<SegmentView>,
    n: int,
)
    requires
        first.len() == second.len(),
        forall|i: int|
            0 <= i < first.len() ==> opens(
                found(cursor, i),
                cfg.entry_per_segment,
                disk[found(cursor, i)],
                disk[found(cursor, i)].len() as int,
                #[trigger] first[i],
            ),
        forall|i: int|
            0 <= i < second.len() ==> opens(
                found(cursor, i),
                cfg.entry_per_segment,
                after_open(disk[found(cursor, i)], cfg.entry_per_segment),
                after_open(disk[found(cursor, i)], cfg.entry_per_segment).len() as int,
                #[trigger] second[i],
            ),
    ensures
        opened(cfg, cursor, first) == opened(cfg, cursor, second),
        opened(cfg, cursor, first).pending() == opened(cfg, cursor, second).pending(),
        opened(cfg, cursor, first).read(n) == opened(cfg, cursor, second).read(n),
{
    assert forall|i: int| 0 <= i < first.len() implies first[i] == second[i] by {
        lemma_reopen(
            found(cursor, i),
            cfg.entry_per_segment,
            disk[found(cursor, i)],
            first[i],
            second[i],
        );
    }
    assert(first =~= second);
}

/// A log that opens on sound files describes them: each segment is found
/// with the entries that its file holds.
pub proof fn lemma_opened_describes(
    cfg: Config,
    cursor: Position,
    disk: Map<u64, Seq<u8>>,
    segments: Seq<SegmentView>,
)
    requires
        forall|i: int|
            0 <= i < segments.len() ==> {
                let image = disk[found(cursor, i)];
                &&& disk.dom().contains(found(cursor, i))
                &&& 0 < image.len() <= u64::MAX
                &&& slot_start(limit_of(image) as int) <= usize::MAX
                &&& exists|number: int| sound(image, limit_of(image) as int, number)
                &&& opens(
                    found(cursor, i),
                    cfg.entry_per_segment,
                    image,
                    image.len() as int,
                    #[trigger] segments[i],
                )
            },
    ensures
        opened(cfg, cursor, segments).describes(disk),
{
    let wal = opened(cfg, cursor, segments);
    assert forall|i: int| 0 <= i < wal.segments.len() implies disk.dom().contains(
        (#[trigger] wal.segments[i]).sequence,
    ) && wal.segments[i].describes(disk[wal.segments[i].sequence]) by {
        let image = disk[found(cursor, i)];
        let number = choose|number: int| sound(image, limit_of(image) as int, number);
        assert(image.take(image.len() as int) =~= image);
        lemma_open_describes(
            found(cursor, i),
            cfg.entry_per_segment,
            image,
            image.len() as int,
            number,
            segments[i],
        );
    }
}

impl WALView {
    /// Whether a new run finds the log as it is: the cursor stands in the
    /// first segment, or nothing is left to read.
    pub open spec fn resumable(self) -> bool {
        self.aligned() || self.pending() == 0
    }

    /// The segments that a new run finds, once the files of the finished
    /// segments are gone: those of the log where the cursor stands in the
    /// first of them, and none where the file of the cursor's segment is gone.
    pub open spec fn left(self) -> Seq<SegmentView> {
        if self.aligned() {
            self.segments
        } else {
            Seq::empty()
        }
    }

    /// The log as a new run opens it, on the cursor that was saved and on the
    /// files that are left.
    pub open spec fn reopened(self) -> WALView {
        opened(self.cfg, self.cursor, self.left())
    }

    /// What is read in rounds, each by a new run that opens the log and reads
    /// up to the count of the round: the entries of all rounds, in order.
    pub open spec fn drained(self, disk: Map<u64, Seq<u8>>, counts: Seq<int>) -> Seq<Seq<u8>>
        decreases counts.len(),
    {
        if counts.len() == 0 {
            Seq::empty()
        } else {
            gathered(self.reopened().read(counts.first()).readings, disk)
                + self.reopened().after_read(counts.first()).drained(disk, counts.drop_first())
        }
    }
}

/// The counts of `counts`, added up.
pub open spec fn total(counts: Seq<int>) -> int
    decreases counts.len(),
{
    if counts.len() == 0 {
        0
    } else {
        counts.first() + total(counts.drop_first())
    }
}

/// A new run finds a log as the last run left it, where the cursor stands in
/// the first segment or nothing is left to read: the same entries wait to be
/// read, in the same order.
pub proof fn lemma_reopened(wal: WALView, disk: Map<u64, Seq<u8>>)
    requires
        wal.wf(),
        wal.packed(),
        wal.resumable(),
    ensures
        wal.aligned() ==> wal.reopened() == wal,
        wal.reopened().wf(),
        wal.reopened().packed(),
        wal.reopened().resumable(),
        wal.reopened().pending() == wal.pending(),
        wal.reopened().queue(disk) == wal.queue(disk),
{
    let len = wal.segments.len() as int;
    if wal.aligned() {
        assert(wal.segments.last().sequence == wal.segments[0].sequence + (len - 1));
        assert(wal.reopened() == wal);
    } else {
        let again = wal.reopened();
        lemma_queue_len(wal, disk);
        lemma_queue_len(again, disk);
        assert(again.pending() == 0);
        assert(again.queue(disk) =~= wal.queue(disk));
    }
}

/// A read that delivers an entry leaves a log that a new run finds as it is,
/// where every segment but the last is full; and so does a read that
/// delivers none, of a log that a new run would have found as it was.
pub proof fn lemma_read_resumable(wal: WALView, n: int)
    requires
        wal.wf(),
        wal.packed(),
        wal.resumable() || delivered(wal.read(n).readings) > 0,
        0 <= n,
    ensures
        wal.after_read(n).wf(),
        wal.after_read(n).packed(),
        wal.after_read(n).resumable(),
{
    let segments = wal.segments;
    let len = segments.len() as int;
    let after = wal.after_read(n);
    let w = wal.read(n);
    lemma_walk_bounds(wal, n);
    lemma_read_all(wal, n);
    lemma_read_pending(wal, n);
    lemma_walk_from(segments, 0, wal.consumed(), n);
    lemma_walk_count(segments, 0, wal.consumed(), n);
    if w.finished < len {
        assert(after.segments[0] == segments[w.finished]);
        assert(segments[w.finished].sequence == segments[0].sequence + w.finished);
    }
    match w.last {
        Some((at, read)) => {
            assert(segments[at].sequence == segments[0].sequence + at);
            assert(after.cursor.sequence == segments[at].sequence);
            if w.finished == at {
                assert(after.segments.len() > 0);
                assert(after.aligned());
            } else if w.finished < len {
                // the read went on to a segment that holds nothing and has room
                assert(segments[w.finished].entry_number == 0);
                assert(segments[w.finished].space() > 0);
                assert(w.finished == len - 1);
                assert(after.segments.len() == 1);
                assert(!after.aligned());
                lemma_pending_is(after.segments, after.cursor, 1);
                assert(entries_in(after.segments, 1) == entries_in(after.segments, 0)
                    + after.segments[0].entry_number);
                assert(entries_in(after.segments, 0) == 0);
                assert(after.pending() == 0);
            } else {
                assert(after.segments.len() == 0);
                assert(after.pending() == 0);
            }
        },
        None => {
            if n == 0 {
                assert(after.segments =~= segments);
                assert(after == wal);
            } else {
                assert(delivered(w.readings) == 0);
                assert(wal.pending() == 0);
                assert(after.pending() == 0);
            }
        },
    }
}

/// Reading in rounds, each by a new run, delivers the entries that wait to
/// be read, in their order, without gap and without repeat: as many as the
/// rounds ask for together, or all of them. This holds where every segment
/// but the last is full and the first run finds the log as it was left.
pub proof fn lemma_drained(wal: WALView, disk: Map<u64, Seq<u8>>, counts: Seq<int>)
    requires
        wal.wf(),
        wal.packed(),
        wal.resumable(),
        forall|i: int| 0 <= i < counts.len() ==> 0 <= #[trigger] counts[i],
    ensures
        0 <= total(counts),
        wal.drained(disk, counts) == wal.queue(disk).take(
            if total(counts) <= wal.pending() {
                total(counts)
            } else {
                wal.pending()
            },
        ),
    decreases counts.len(),
{
    lemma_queue_len(wal, disk);
    lemma_pending_grows(wal, 0, wal.segments.len() as int);
    if counts.len() == 0 {
        assert(wal.queue(disk).take(0) =~= Seq::<Seq<u8>>::empty());
    } else {
        let n = counts.first();
        let rest = counts.drop_first();
        let again = wal.reopened();
        let after = again.after_read(n);
        lemma_reopened(wal, disk);
        lemma_read_queue(again, disk, n);
        lemma_read_all(again, n);
        lemma_read_pending(again, n);
        lemma_read_resumable(again, n);
        assert forall|i: int| 0 <= i < rest.len() implies 0 <= #[trigger] rest[i] by {
            assert(rest[i] == counts[i + 1]);
        }
        lemma_drained(after, disk, rest);
        let queue = wal.queue(disk);
        let k = delivered(again.read(n).readings);
        let more = if total(rest) <= after.pending() {
            total(rest)
        } else {
            after.pending()
        };
        assert(queue.take(k) + queue.skip(k).take(more) =~= queue.take(k + more));
    }
}

} // verus!
