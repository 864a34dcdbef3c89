//! Writing a whole batch: the steps of a write one after the other, until
//! nothing is left, where each new segment gets a new file.

use crate::segment::layout::{entries, prepared, slot_start};
use crate::segment::sound::lemma_prepared_sound;
use crate::segment::state::{capacity, fresh, SegmentView};
use crate::segment::steps::appended;
use crate::wal::queue::{lemma_append_queue, lemma_push_queue};
use crate::wal::state::WALView;
use vstd::prelude::*;

verus! {

impl WALView {
    /// The segment that follows when the last one is full.
    pub open spec fn next_segment(self) -> SegmentView {
        fresh(self.next_sequence, capacity(self.cfg.entry_per_segment))
    }

    /// Whether all of `data` can be written: each step can address what it
    /// appends, and each new segment can be prepared and numbered.
    pub open spec fn takes(self, data: Seq<Seq<u8>>) -> bool
        decreases data.len(), (if self.has_room() {
            0int
        } else {
            1int
        }),
    {
        if data.len() == 0 {
            true
        } else if self.has_room() {
            self.tail().fits_batch(data) && self.appended(data).takes(
                data.skip(self.tail().taken(data.len()) as int),
            )
        } else {
            &&& self.next_sequence < u64::MAX
            &&& slot_start(capacity(self.cfg.entry_per_segment) as int) <= usize::MAX
            &&& self.pushed(self.next_segment()).takes(data)
        }
    }

    /// The state after all of `data` was written.
    pub open spec fn written(self, data: Seq<Seq<u8>>) -> WALView
        decreases data.len(), (if self.has_room() {
            0int
        } else {
            1int
        }),
    {
        if data.len() == 0 {
            self
        } else if self.has_room() {
            self.appended(data).written(data.skip(self.tail().taken(data.len()) as int))
        } else {
            self.pushed(self.next_segment()).written(data)
        }
    }

    /// The files after all of `data` was written.
    pub open spec fn written_to(
        self,
        disk: Map<u64, Seq<u8>>,
        data: Seq<Seq<u8>>,
    ) -> Map<u64, Seq<u8>>
        decreases data.len(), (if self.has_room() {
            0int
        } else {
            1int
        }),
    {
        if data.len() == 0 {
            disk
        } else if self.has_room() {
            let count = self.tail().taken(data.len()) as int;
            self.appended(data).written_to(
                disk.insert(
                    self.tail().sequence,
                    appended(disk[self.tail().sequence], self.tail(), data, count),
                ),
                data.skip(count),
            )
        } else {
            self.pushed(self.next_segment()).written_to(
                disk.insert(
                    self.next_sequence,
                    prepared(capacity(self.cfg.entry_per_segment) as nat),
                ),
                data,
            )
        }
    }
}

/// A write puts all of its entries at the back of the queue, in their order,
/// however many segments it takes: the state then describes the files, and
/// the queue is what it was with the entries behind it.
pub proof fn lemma_written(wal: WALView, disk: Map<u64, Seq<u8>>, data: Seq<Seq<u8>>)
    requires
        wal.wf(),
        wal.describes(disk),
        wal.takes(data),
    ensures
        wal.written(data).wf(),
        wal.packed() ==> wal.written(data).packed(),
        wal.written(data).describes(wal.written_to(disk, data)),
        wal.written(data).queue(wal.written_to(disk, data)) == wal.queue(disk) + data,
    decreases data.len(), (if wal.has_room() {
        0int
    } else {
        1int
    }),
{
    if data.len() == 0 {
        assert(wal.queue(disk) + data =~= wal.queue(disk));
    } else if wal.has_room() {
        let count = wal.tail().taken(data.len()) as int;
        let files = disk.insert(
            wal.tail().sequence,
            appended(disk[wal.tail().sequence], wal.tail(), data, count),
        );
        lemma_append_queue(wal, disk, data);
        if wal.packed() {
            assert forall|i: int| 0 <= i < wal.appended(data).segments.len() - 1 implies (
            #[trigger] wal.appended(data).segments[i]).space() == 0 by {
                assert(wal.appended(data).segments[i] == wal.segments[i]);
            }
        }
        lemma_written(wal.appended(data), files, data.skip(count));
        assert(wal.queue(disk) + data.subrange(0, count) + data.skip(count) =~= wal.queue(disk)
            + data);
    } else {
        let limit = capacity(wal.cfg.entry_per_segment);
        let segment = wal.next_segment();
        let image = prepared(limit as nat);
        lemma_prepared_sound(limit as nat);
        lemma_push_queue(wal, disk, segment, image);
        if wal.packed() {
            assert forall|i: int| 0 <= i < wal.pushed(segment).segments.len() - 1 implies (
            #[trigger] wal.pushed(segment).segments[i]).space() == 0 by {
                assert(wal.pushed(segment).segments[i] == wal.segments[i]);
            }
        }
        lemma_written(wal.pushed(segment), disk.insert(wal.next_sequence, image), data);
        assert(entries(image, 0) =~= Seq::<Seq<u8>>::empty());
        assert(wal.queue(disk) + Seq::<Seq<u8>>::empty() =~= wal.queue(disk));
    }
}

} // verus!
