//! The log as a queue: the entries that the files of its segments hold, in
//! the order in which they were written, less those that were read.
//!
//! The files are a map from the sequence of a segment to the bytes of its
//! file. A write puts entries at the back of the queue, a read takes entries
//! from its front, and nothing else changes it.

use crate::segment::layout::{entries, payload};
use crate::segment::steps::{
    appended, applied_all, lemma_appended_describes, lemma_plans_append,
};
use crate::segment::state::{batch, SegmentView};
use crate::segment::Append;
use crate::wal::state::{entries_in, lemma_entries_grow, lemma_pending_is, WALView};
use crate::wal::walk::{
    ahead, delivered, lemma_walk_bounds, lemma_walk_count, reading, walk, Reading,
};
use vstd::prelude::*;

verus! {

/// The entries that the first `upto` of `segments` hold, oldest first.
pub open spec fn stored_in(
    segments: Seq<SegmentView>,
    disk: Map<u64, Seq<u8>>,
    upto: int,
) -> Seq<Seq<u8>>
    decreases upto,
{
    if upto <= 0 {
        Seq::empty()
    } else {
        stored_in(segments, disk, upto - 1) + entries(
            disk[segments[upto - 1].sequence],
            segments[upto - 1].entry_number,
        )
    }
}

/// The `count` entries of a segment file from entry `start` on.
pub open spec fn run(image: Seq<u8>, start: int, count: int) -> Seq<Seq<u8>> {
    Seq::new(count as nat, |i: int| payload(image, start + i))
}

/// The entries that `readings` name, in order.
pub open spec fn gathered(readings: Seq<Reading>, disk: Map<u64, Seq<u8>>) -> Seq<Seq<u8>>
    decreases readings.len(),
{
    if readings.len() == 0 {
        Seq::empty()
    } else {
        run(
            disk[readings.first().sequence],
            readings.first().start as int,
            readings.first().span.count as int,
        ) + gathered(readings.drop_first(), disk)
    }
}

impl WALView {
    /// Whether the state is that of the log whose segment files are in
    /// `disk`: each open segment has its file, and its state describes it.
    pub open spec fn describes(self, disk: Map<u64, Seq<u8>>) -> bool {
        forall|i: int|
            0 <= i < self.segments.len() ==> disk.dom().contains(
                (#[trigger] self.segments[i]).sequence,
            ) && self.segments[i].describes(disk[self.segments[i].sequence])
    }

    /// The entries that are yet to be read, oldest first.
    pub open spec fn queue(self, disk: Map<u64, Seq<u8>>) -> Seq<Seq<u8>> {
        stored_in(self.segments, disk, self.segments.len() as int).skip(self.consumed())
    }
}

/// The segments hold as many entries as their states count.
proof fn lemma_stored_len(segments: Seq<SegmentView>, disk: Map<u64, Seq<u8>>, upto: int)
    requires
        0 <= upto <= segments.len(),
    ensures
        stored_in(segments, disk, upto).len() == entries_in(segments, upto),
    decreases upto,
{
    if upto > 0 {
        lemma_stored_len(segments, disk, upto - 1);
    }
}

/// The queue is as long as the count of entries that are yet to be read.
pub proof fn lemma_queue_len(wal: WALView, disk: Map<u64, Seq<u8>>)
    requires
        wal.wf(),
    ensures
        wal.queue(disk).len() == wal.pending(),
{
    let len = wal.segments.len() as int;
    lemma_stored_len(wal.segments, disk, len);
    lemma_pending_is(wal.segments, wal.cursor, len);
    if len > 0 {
        lemma_entries_grow(wal.segments, 1, len);
        assert(entries_in(wal.segments, 1) == entries_in(wal.segments, 0)
            + wal.segments[0].entry_number);
        assert(entries_in(wal.segments, 0) == 0);
    }
}

/// The entries of the first segments do not depend on the later ones, nor on
/// the files of other segments.
proof fn lemma_stored_same(
    one: Seq<SegmentView>,
    disk: Map<u64, Seq<u8>>,
    other: Seq<SegmentView>,
    files: Map<u64, Seq<u8>>,
    upto: int,
)
    requires
        0 <= upto <= one.len(),
        upto <= other.len(),
        forall|i: int| 0 <= i < upto ==> one[i] == other[i],
        forall|i: int| 0 <= i < upto ==> disk[one[i].sequence] == files[one[i].sequence],
    ensures
        stored_in(one, disk, upto) == stored_in(other, files, upto),
    decreases upto,
{
    if upto > 0 {
        lemma_stored_same(one, disk, other, files, upto - 1);
    }
}

/// The entries of the later segments are those that the log holds, behind
/// the entries of the segments before them.
proof fn lemma_stored_skip(
    segments: Seq<SegmentView>,
    disk: Map<u64, Seq<u8>>,
    from: int,
    upto: int,
)
    requires
        0 <= from,
        0 <= upto,
        from + upto <= segments.len(),
    ensures
        stored_in(segments.skip(from), disk, upto) == stored_in(segments, disk, from + upto).skip(
            entries_in(segments, from),
        ),
    decreases upto,
{
    lemma_stored_len(segments, disk, from);
    if upto == 0 {
        assert(stored_in(segments, disk, from).skip(entries_in(segments, from)) =~= Seq::<
            Seq<u8>,
        >::empty());
    } else {
        lemma_stored_skip(segments, disk, from, upto - 1);
        lemma_stored_len(segments, disk, from + upto - 1);
        lemma_entries_grow(segments, from, from + upto - 1);
        assert(segments.skip(from)[upto - 1] == segments[from + upto - 1]);
        let last = entries(
            disk[segments[from + upto - 1].sequence],
            segments[from + upto - 1].entry_number,
        );
        let head = stored_in(segments, disk, from + upto - 1);
        assert((head + last).skip(entries_in(segments, from)) =~= head.skip(
            entries_in(segments, from),
        ) + last);
    }
}

/// The entries of one segment, where they stand among all.
proof fn lemma_stored_run(
    segments: Seq<SegmentView>,
    disk: Map<u64, Seq<u8>>,
    index: int,
    start: int,
    count: int,
    upto: int,
)
    requires
        0 <= index < upto <= segments.len(),
        0 <= start,
        0 <= count,
        start + count <= segments[index].entry_number,
    ensures
        entries_in(segments, index) + start + count <= entries_in(segments, upto),
        stored_in(segments, disk, upto).subrange(
            entries_in(segments, index) + start,
            entries_in(segments, index) + start + count,
        ) == run(disk[segments[index].sequence], start, count),
    decreases upto,
{
    let at = entries_in(segments, index) + start;
    lemma_stored_len(segments, disk, upto - 1);
    lemma_stored_len(segments, disk, index);
    let head = stored_in(segments, disk, upto - 1);
    let last = entries(disk[segments[upto - 1].sequence], segments[upto - 1].entry_number);
    if index == upto - 1 {
        assert((head + last).subrange(at, at + count) =~= run(
            disk[segments[index].sequence],
            start,
            count,
        ));
    } else {
        lemma_stored_run(segments, disk, index, start, count, upto - 1);
        assert((head + last).subrange(at, at + count) =~= head.subrange(at, at + count));
    }
}

/// Where a read stands among the entries that the log holds, when it is
/// about to look at segment `index`, of which `start` entries are read.
pub open spec fn place(segments: Seq<SegmentView>, index: int, start: int) -> int {
    entries_in(segments, segments.len() as int) - ahead(segments, index, start)
}

/// A read names the entries that follow the place where it begins, as many as
/// it delivers, in the order in which the log holds them.
proof fn lemma_walk_gathered(
    segments: Seq<SegmentView>,
    disk: Map<u64, Seq<u8>>,
    index: int,
    start: int,
    n: int,
)
    requires
        0 <= index <= segments.len(),
        0 <= start,
        forall|i: int| 0 <= i < segments.len() ==> (#[trigger] segments[i]).wf(),
    ensures
        0 <= place(segments, index, start),
        place(segments, index, start) + delivered(walk(segments, index, start, n).readings)
            <= entries_in(segments, segments.len() as int),
        gathered(walk(segments, index, start, n).readings, disk) == stored_in(
            segments,
            disk,
            segments.len() as int,
        ).subrange(
            place(segments, index, start),
            place(segments, index, start) + delivered(walk(segments, index, start, n).readings),
        ),
    decreases segments.len() - index,
{
    let len = segments.len() as int;
    let all = stored_in(segments, disk, len);
    let w = walk(segments, index, start, n);
    let at = place(segments, index, start);
    lemma_stored_len(segments, disk, len);
    lemma_entries_grow(segments, 0, index);
    lemma_entries_grow(segments, index, len);
    lemma_walk_count(segments, index, start, n);
    assert(entries_in(segments, 0) == 0);
    assert(delivered(Seq::<Reading>::empty()) == 0);
    assert(gathered(Seq::<Reading>::empty(), disk) =~= Seq::<Seq<u8>>::empty());
    if index < len {
        assert(segments[index].wf());
        assert(entries_in(segments, index + 1) == entries_in(segments, index)
            + segments[index].entry_number);
        lemma_entries_grow(segments, index + 1, len);
    }
    assert(0 <= at <= entries_in(segments, len));
    if n <= 0 || index >= len {
        assert(all.subrange(at, at) =~= Seq::<Seq<u8>>::empty());
    } else {
        if start >= segments[index].entry_number {
            if segments[index].space() == 0 {
                lemma_walk_gathered(segments, disk, index + 1, 0, n);
                assert(place(segments, index + 1, 0) == at);
            } else {
                assert(all.subrange(at, at) =~= Seq::<Seq<u8>>::empty());
            }
        } else {
            let here = reading(segments[index], start, n);
            let count = here.span.count as int;
            assert(0 < count <= n);
            assert(start + count <= segments[index].entry_number);
            assert(at == entries_in(segments, index) + start);
            lemma_stored_run(segments, disk, index, start, count, len);
            let first = run(disk[segments[index].sequence], start, count);
            assert(w.readings.first() == here);
            if n - count > 0 && segments[index].space() == 0 {
                let rest = walk(segments, index + 1, 0, n - count);
                lemma_walk_gathered(segments, disk, index + 1, 0, n - count);
                lemma_walk_count(segments, index + 1, 0, n - count);
                assert(w.readings.drop_first() =~= rest.readings);
                assert(delivered(w.readings) == count + delivered(rest.readings));
                assert(place(segments, index + 1, 0) == at + count);
                assert(gathered(w.readings, disk) == first + gathered(rest.readings, disk));
                assert(all.subrange(at, at + count) + all.subrange(
                    at + count,
                    at + count + delivered(rest.readings),
                ) =~= all.subrange(at, at + delivered(w.readings)));
            } else {
                assert(w.readings.drop_first() =~= Seq::<Reading>::empty());
                assert(delivered(w.readings) == count);
                assert(gathered(w.readings, disk) =~= first);
            }
        }
    }
}

/// A read takes its entries from the front of the queue: the entries that it
/// names are the first of the queue, in order, as many as it delivers, and
/// the queue is left with the rest.
pub proof fn lemma_read_queue(wal: WALView, disk: Map<u64, Seq<u8>>, n: int)
    requires
        wal.wf(),
        0 <= n,
    ensures
        delivered(wal.read(n).readings) <= wal.queue(disk).len(),
        gathered(wal.read(n).readings, disk) == wal.queue(disk).take(
            delivered(wal.read(n).readings),
        ),
        wal.after_read(n).queue(disk) == wal.queue(disk).skip(delivered(wal.read(n).readings)),
{
    let segments = wal.segments;
    let len = segments.len() as int;
    let all = stored_in(segments, disk, len);
    let w = wal.read(n);
    let after = wal.after_read(n);
    let k = delivered(w.readings);
    let start = wal.consumed();
    lemma_walk_bounds(wal, n);
    lemma_walk_count(segments, 0, start, n);
    lemma_walk_gathered(segments, disk, 0, start, n);
    lemma_stored_len(segments, disk, len);
    lemma_queue_len(wal, disk);
    assert(entries_in(segments, 0) == 0);
    let at = place(segments, 0, start);
    assert(at == wal.consumed()) by {
        if len > 0 {
            assert(segments[0].sequence == segments[0].sequence + 0);
        }
    }
    assert(all.subrange(at, at + k) =~= all.skip(at).take(k));

    // what is left
    let f = w.finished;
    lemma_stored_skip(segments, disk, f, len - f);
    lemma_entries_grow(segments, 0, f);
    lemma_entries_grow(segments, f, len);
    if f < len {
        assert(after.segments[0] == segments[f]);
        assert(segments[f].sequence == segments[0].sequence + f);
        assert(entries_in(segments, f + 1) == entries_in(segments, f) + segments[f].entry_number);
        lemma_entries_grow(segments, f + 1, len);
    }
    match w.last {
        Some((index, read)) => {
            assert(segments[index].sequence == segments[0].sequence + index);
            assert(entries_in(segments, index + 1) == entries_in(segments, index)
                + segments[index].entry_number);
            lemma_entries_grow(segments, index + 1, len);
        },
        None => {},
    }
    assert(entries_in(segments, f) + after.consumed() == at + k);
    assert(all.skip(entries_in(segments, f)).skip(after.consumed()) =~= all.skip(at).skip(k));
}

impl WALView {
    /// The state after the leading entries of `data` were appended to the
    /// last segment, as many as it takes.
    pub open spec fn appended(self, data: Seq<Seq<u8>>) -> WALView {
        WALView { segments: self.segments.drop_last().push(self.tail().batched(data)), ..self }
    }

    /// The state with `segment` as its new last segment.
    pub open spec fn pushed(self, segment: SegmentView) -> WALView {
        WALView {
            next_sequence: (self.next_sequence + 1) as u64,
            segments: self.segments.push(segment),
            ..self
        }
    }
}

/// Appending the leading entries of `data` to the last segment puts them at
/// the back of the queue: the state describes the files again, and the queue
/// is what it was with those entries behind it.
pub proof fn lemma_append_queue(wal: WALView, disk: Map<u64, Seq<u8>>, data: Seq<Seq<u8>>)
    requires
        wal.wf(),
        wal.describes(disk),
        wal.has_room(),
        wal.tail().fits_batch(data),
    ensures
        ({
            let count = wal.tail().taken(data.len()) as int;
            let written = disk.insert(
                wal.tail().sequence,
                appended(disk[wal.tail().sequence], wal.tail(), data, count),
            );
            &&& wal.appended(data).wf()
            &&& wal.appended(data).describes(written)
            &&& wal.appended(data).queue(written) == wal.queue(disk) + data.subrange(0, count)
        }),
{
    let tail = wal.tail();
    let len = wal.segments.len() as int;
    let count = tail.taken(data.len()) as int;
    let file = appended(disk[tail.sequence], tail, data, count);
    let after = wal.appended(data);
    let written = disk.insert(tail.sequence, file);
    assert(wal.segments[len - 1] == tail);
    assert(tail.sequence == wal.segments[0].sequence + (len - 1));
    lemma_appended_describes(tail, disk[tail.sequence], data, count);
    assert(tail.batched(data) == tail.extended(data, count));
    assert forall|i: int| 0 <= i < after.segments.len() implies written.dom().contains(
        (#[trigger] after.segments[i]).sequence,
    ) && after.segments[i].describes(written[after.segments[i].sequence]) by {
        if i < len - 1 {
            assert(after.segments[i] == wal.segments[i]);
            assert(wal.segments[i].sequence == wal.segments[0].sequence + i);
        }
    }
    assert forall|i: int| 0 <= i < after.segments.len() implies (#[trigger] after.segments[i]).wf()
        && after.segments[i].sequence == after.segments[0].sequence + i by {
        if i < len - 1 {
            assert(after.segments[i] == wal.segments[i]);
            assert(wal.segments[i].sequence == wal.segments[0].sequence + i);
        }
        if 0 < len - 1 {
            assert(after.segments[0] == wal.segments[0]);
        }
    }
    assert forall|i: int| 0 <= i < len - 1 implies wal.segments[i] == after.segments[i]
        && disk[wal.segments[i].sequence] == written[wal.segments[i].sequence] by {
        assert(wal.segments[i].sequence == wal.segments[0].sequence + i);
    }
    lemma_stored_same(wal.segments, disk, after.segments, written, len - 1);
    lemma_stored_len(wal.segments, disk, len - 1);
    lemma_stored_len(wal.segments, disk, len);
    lemma_entries_grow(wal.segments, 1, len);
    assert(entries_in(wal.segments, 1) == entries_in(wal.segments, 0)
        + wal.segments[0].entry_number);
    assert(entries_in(wal.segments, 0) == 0);
    assert(after.consumed() == wal.consumed());
    let head = stored_in(wal.segments, disk, len - 1);
    let held = entries(disk[tail.sequence], tail.entry_number);
    let more = data.subrange(0, count);
    assert(stored_in(after.segments, written, len) == head + (held + more));
    assert((head + (held + more)).skip(wal.consumed()) =~= (head + held).skip(wal.consumed())
        + more);
}

/// A step of a write puts the entries that it appends at the back of the
/// queue: once what it plans was written to the file of the last segment, the
/// state describes the files again, and the queue is what it was with those
/// entries behind it.
pub proof fn lemma_write_queue(
    wal: WALView,
    disk: Map<u64, Seq<u8>>,
    data: Seq<Seq<u8>>,
    plans: Seq<Append>,
)
    requires
        wal.wf(),
        wal.describes(disk),
        wal.has_room(),
        wal.tail().fits_batch(data),
        batch(wal.tail(), data, plans),
    ensures
        ({
            let written = disk.insert(
                wal.tail().sequence,
                applied_all(disk[wal.tail().sequence], plans, data, plans.len() as int),
            );
            &&& wal.appended(data).describes(written)
            &&& wal.appended(data).queue(written) == wal.queue(disk) + data.subrange(
                0,
                plans.len() as int,
            )
        }),
{
    lemma_plans_append(wal.tail(), disk[wal.tail().sequence], data, plans, plans.len() as int);
    lemma_append_queue(wal, disk, data);
}

/// A new last segment puts the entries of its file at the back of the queue:
/// none, where the file is new.
pub proof fn lemma_push_queue(
    wal: WALView,
    disk: Map<u64, Seq<u8>>,
    segment: SegmentView,
    image: Seq<u8>,
)
    requires
        wal.wf(),
        wal.describes(disk),
        segment.describes(image),
        segment.sequence == wal.next_sequence,
        wal.next_sequence < u64::MAX,
    ensures
        ({
            let opened = disk.insert(segment.sequence, image);
            &&& wal.pushed(segment).wf()
            &&& wal.pushed(segment).describes(opened)
            &&& wal.pushed(segment).queue(opened) == wal.queue(disk) + entries(
                image,
                segment.entry_number,
            )
        }),
{
    let len = wal.segments.len() as int;
    let after = wal.pushed(segment);
    let opened = disk.insert(segment.sequence, image);
    if len > 0 {
        assert(wal.segments.last().sequence == wal.segments[0].sequence + (len - 1));
    }
    assert forall|i: int| 0 <= i < len implies wal.segments[i] == after.segments[i]
        && disk[wal.segments[i].sequence] == opened[wal.segments[i].sequence] by {
        assert(wal.segments[i].sequence == wal.segments[0].sequence + i);
    }
    assert forall|i: int| 0 <= i < after.segments.len() implies opened.dom().contains(
        (#[trigger] after.segments[i]).sequence,
    ) && after.segments[i].describes(opened[after.segments[i].sequence]) by {
        if i < len {
            assert(after.segments[i] == wal.segments[i]);
            assert(wal.segments[i].sequence == wal.segments[0].sequence + i);
        }
    }
    assert forall|i: int| 0 <= i < after.segments.len() implies (#[trigger] after.segments[i]).wf()
        && after.segments[i].sequence == after.segments[0].sequence + i by {
        if i < len {
            assert(after.segments[i] == wal.segments[i]);
            assert(wal.segments[i].sequence == wal.segments[0].sequence + i);
            assert(after.segments[0] == wal.segments[0]);
        }
    }
    lemma_stored_same(wal.segments, disk, after.segments, opened, len);
    lemma_stored_len(wal.segments, disk, len);
    if len > 0 {
        lemma_entries_grow(wal.segments, 1, len);
        assert(entries_in(wal.segments, 1) == entries_in(wal.segments, 0)
            + wal.segments[0].entry_number);
        assert(entries_in(wal.segments, 0) == 0);
        assert(after.segments[0] == wal.segments[0]);
    }
    assert(after.consumed() == wal.consumed());
    let head = stored_in(wal.segments, disk, len);
    let more = entries(image, segment.entry_number);
    assert(stored_in(after.segments, opened, len + 1) == head + more);
    assert((head + more).skip(wal.consumed()) =~= head.skip(wal.consumed()) + more);
}

/// After a read the state describes the files that it still names; the files
/// of the finished segments can go.
pub proof fn lemma_read_describes(wal: WALView, disk: Map<u64, Seq<u8>>, n: int, gone: Set<u64>)
    requires
        wal.wf(),
        wal.describes(disk),
        forall|sequence: u64|
            gone.contains(sequence) ==> exists|i: int|
                0 <= i < wal.read(n).finished && #[trigger] wal.segments[i].sequence == sequence,
    ensures
        wal.after_read(n).describes(disk.remove_keys(gone)),
{
    let after = wal.after_read(n);
    let f = wal.read(n).finished;
    lemma_walk_bounds(wal, n);
    assert forall|i: int| 0 <= i < after.segments.len() implies disk.remove_keys(
        gone,
    ).dom().contains((#[trigger] after.segments[i]).sequence) && after.segments[i].describes(
        disk.remove_keys(gone)[after.segments[i].sequence],
    ) by {
        assert(after.segments[i] == wal.segments[f + i]);
        assert(wal.segments[f + i].sequence == wal.segments[0].sequence + (f + i));
        if gone.contains(after.segments[i].sequence) {
            let j = choose|j: int|
                0 <= j < f && #[trigger] wal.segments[j].sequence == after.segments[i].sequence;
            assert(wal.segments[j].sequence == wal.segments[0].sequence + j);
        }
    }
}

} // verus!
