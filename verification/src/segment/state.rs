//! What the state of a segment says, and what its operations make of it.

use crate::checksum::crc32_ieee;
use crate::error::Error;
use crate::segment::layout::{
    limit_of, magic, recovered, slot_start, total_len, DEFAULT_ENTRY_LIMIT, HEAD_SIZE, MAGIC_SIZE,
};
use crate::segment::overhead::{record, size_of, OVERHEAD_SIZE};
use crate::segment::Append;
use vstd::prelude::*;

verus! {

/// What a segment's state says, as numbers.
pub struct SegmentView {
    /// The sequence of the segment among the segments of its log.
    pub sequence: u64,
    /// The count of committed entries.
    pub entry_number: nat,
    /// The capacity of the descriptor table.
    pub entry_limit: nat,
    /// The offset at which the next payload is written.
    pub data_written: nat,
}

impl SegmentView {
    /// The state after one more entry of `len` bytes.
    pub open spec fn grown(self, len: nat) -> SegmentView {
        SegmentView {
            entry_number: self.entry_number + 1,
            data_written: self.data_written + len,
            ..self
        }
    }

    /// The entries that the table can still take.
    pub open spec fn space(self) -> nat {
        (self.entry_limit - self.entry_number) as nat
    }

    /// How many of `count` entries a batch appends.
    pub open spec fn taken(self, count: nat) -> nat {
        if count <= self.space() {
            count
        } else {
            self.space()
        }
    }

    /// Whether the state can be that of a file: the table holds no more
    /// entries than it has room for, and every committed slot can be
    /// addressed.
    pub open spec fn wf(self) -> bool {
        &&& self.entry_number <= self.entry_limit <= usize::MAX
        &&& slot_start(self.entry_number as int) <= usize::MAX
        &&& self.data_written <= u64::MAX
    }

    /// Whether `len` more bytes of payload and one more descriptor can be
    /// addressed.
    pub open spec fn fits(self, len: nat) -> bool {
        &&& slot_start(self.entry_number + 1 as int) <= usize::MAX
        &&& self.data_written + len <= u64::MAX
    }

    /// Whether the payloads and the descriptors of the entries that a batch
    /// of `entries` appends can be addressed.
    pub open spec fn fits_batch(self, entries: Seq<Seq<u8>>) -> bool {
        let taken = self.taken(entries.len());
        &&& slot_start((self.entry_number + taken) as int) <= usize::MAX
        &&& self.data_written + total_len(entries, taken as int) <= u64::MAX
    }

    /// The state after the first `count` of `entries` were appended.
    pub open spec fn extended(self, entries: Seq<Seq<u8>>, count: int) -> SegmentView {
        SegmentView {
            entry_number: (self.entry_number + count) as nat,
            data_written: (self.data_written + total_len(entries, count)) as nat,
            ..self
        }
    }

    /// Whether `plan` is the plan of an entry that the state counts: its
    /// descriptor goes into a slot below the count of entries, and its payload
    /// ends at or before the end of the payloads.
    pub open spec fn planned(self, plan: Append) -> bool {
        &&& HEAD_SIZE <= plan.overhead_offset < slot_start(self.entry_number as int)
        &&& (plan.overhead_offset - HEAD_SIZE) % OVERHEAD_SIZE as int == 0
        &&& plan.offset + size_of(plan.overhead@) <= self.data_written
    }

    /// The state without the entry of `plan` and the entries behind it; the
    /// payload of `plan` counts as written where `stored` says so.
    pub open spec fn rewound(self, plan: Append, stored: bool) -> SegmentView {
        SegmentView {
            entry_number: ((plan.overhead_offset - HEAD_SIZE) / OVERHEAD_SIZE as int) as nat,
            data_written: if stored {
                (plan.offset + size_of(plan.overhead@)) as nat
            } else {
                plan.offset as nat
            },
            ..self
        }
    }

    /// The state after a batch of `entries`.
    pub open spec fn batched(self, entries: Seq<Seq<u8>>) -> SegmentView {
        self.extended(entries, self.taken(entries.len()) as int)
    }
}

/// The byte views of a batch of entries.
pub open spec fn payloads(entries: Seq<&[u8]>) -> Seq<Seq<u8>> {
    Seq::new(entries.len(), |i: int| entries[i]@)
}

/// Whether `plan` appends `entry` as entry `index` of a batch on a segment in
/// state `before`: the payload goes behind the payloads of the entries before
/// it, the descriptor into the slot behind theirs.
pub open spec fn appends(before: SegmentView, entries: Seq<Seq<u8>>, index: int, plan: Append) -> bool {
    &&& plan.offset == before.data_written + total_len(entries, index)
    &&& plan.overhead_offset == slot_start(before.entry_number + index)
    &&& plan.overhead@ == record(
        plan.offset,
        entries[index].len() as u64,
        crc32_ieee(entries[index]),
    )
}

/// Whether `plans` are what a batch of `entries` writes on a segment in
/// state `before`: one plan for each entry that the table takes, in order.
pub open spec fn batch(before: SegmentView, entries: Seq<Seq<u8>>, plans: Seq<Append>) -> bool {
    &&& plans.len() == before.taken(entries.len())
    &&& forall|i: int| 0 <= i < plans.len() ==> appends(before, entries, i, #[trigger] plans[i])
}

/// The capacity that a new segment gets: `limit`, or the default for 0.
pub open spec fn capacity(limit: usize) -> usize {
    if limit == 0 {
        DEFAULT_ENTRY_LIMIT
    } else {
        limit
    }
}

/// What is wrong with the header in `image`, the leading bytes of a segment
/// file, if anything is: the magic is cut short or is another, or the
/// capacity is cut short.
pub open spec fn header_error(image: Seq<u8>) -> Option<Error> {
    if image.len() < MAGIC_SIZE {
        Some(Error::UnexpectedEof)
    } else if image.subrange(0, MAGIC_SIZE as int) != magic() {
        Some(Error::SegmentMagic)
    } else if image.len() < HEAD_SIZE {
        Some(Error::UnexpectedEof)
    } else {
        None
    }
}

/// The state of a new segment of capacity `limit`.
pub open spec fn fresh(sequence: u64, limit: usize) -> SegmentView {
    SegmentView {
        sequence,
        entry_number: 0,
        entry_limit: limit as nat,
        data_written: slot_start(limit as int) as nat,
    }
}

/// Whether `state` is the state with which segment `sequence` opens on a file
/// of `file_len` bytes that begins with `image`: that of a new segment for an
/// empty file; else the capacity that the header holds, the count of entries
/// that a scan of the table finds, and the end of the file.
pub open spec fn opens(
    sequence: u64,
    limit: usize,
    image: Seq<u8>,
    file_len: int,
    state: SegmentView,
) -> bool {
    if file_len == 0 {
        state == fresh(sequence, capacity(limit))
    } else {
        &&& state.sequence == sequence
        &&& state.entry_limit == #[verifier::truncate] (limit_of(image) as usize)
        &&& recovered(image, state.entry_limit as int, state.entry_number as int)
        &&& state.data_written == file_len
    }
}

} // verus!
