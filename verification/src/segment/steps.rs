//! The state of a segment and its file, step by step: what the writes that
//! a step plans make of the file, and what a step finds in the file.

use crate::checksum::crc32_ieee;
use crate::image::write_at;
use crate::segment::layout::{
    committed, entries, limit_of, prepared, slot, slot_start, total_len, HEAD_SIZE, MAGIC_SIZE,
};
use crate::error::Error;
use crate::segment::overhead::{
    checked, crc32_of, lemma_record_fields, marked, offset_of, record, size_of, OVERHEAD_SIZE,
};
use crate::segment::sound::{
    lemma_append_sound, lemma_prepared_sound, lemma_recovered_prefix, lemma_recovered_unique,
    lemma_sound_recovered, payload_end, payload_start, sound,
};
use crate::segment::state::{appends, batch, capacity, opens, SegmentView};
use crate::segment::{lemma_total_len_grows, Append};
use vstd::prelude::*;

verus! {

impl SegmentView {
    /// Whether the state is that of the segment whose file is `image`: the
    /// file is sound with the capacity and the count of entries that the
    /// state gives, and the next payload goes to the end of the file.
    pub open spec fn describes(self, image: Seq<u8>) -> bool {
        &&& self.wf()
        &&& sound(image, self.entry_limit as int, self.entry_number as int)
        &&& self.data_written == image.len()
    }
}

/// The file after the payload and the descriptor of `plan` were written.
pub open spec fn applied(image: Seq<u8>, plan: Append, entry: Seq<u8>) -> Seq<u8> {
    write_at(
        write_at(image, plan.offset as int, entry),
        plan.overhead_offset as int,
        plan.overhead@,
    )
}

/// The file after the first `count` of `plans` were written, in order.
pub open spec fn applied_all(
    image: Seq<u8>,
    plans: Seq<Append>,
    entries: Seq<Seq<u8>>,
    count: int,
) -> Seq<u8>
    decreases count,
{
    if count <= 0 {
        image
    } else {
        applied(applied_all(image, plans, entries, count - 1), plans[count - 1], entries[count - 1])
    }
}

/// Writing what `Segment::write` plans, on a segment that is not full: the
/// file grows by the payload, which lies at its old end; the first free slot
/// holds the descriptor of the entry and is committed; every other slot is as
/// it was, so that the slots before it are committed and those behind it are
/// not; and the file holds the new entry behind the entries it held. The new
/// state describes the new file.
pub proof fn lemma_write_describes(
    before: SegmentView,
    image: Seq<u8>,
    entry: Seq<u8>,
    plan: Append,
)
    requires
        before.describes(image),
        before.entry_number < before.entry_limit,
        entry.len() <= usize::MAX,
        plan.offset == before.data_written,
        plan.overhead_offset == slot_start(before.entry_number as int),
        plan.overhead@ == record(plan.offset, entry.len() as u64, crc32_ieee(entry)),
    ensures
        ({
            let done = applied(image, plan, entry);
            let number = before.entry_number as int;
            &&& done.len() == image.len() + entry.len()
            &&& sound(done, before.entry_limit as int, number + 1)
            &&& slot(done, number) == plan.overhead@
            &&& offset_of(slot(done, number)) == image.len()
            &&& size_of(slot(done, number)) == entry.len()
            &&& crc32_of(slot(done, number)) == crc32_ieee(entry)
            &&& forall|i: int|
                0 <= i < before.entry_limit && i != number ==> #[trigger] slot(done, i) == slot(
                    image,
                    i,
                )
            &&& done.subrange(image.len() as int, (image.len() + entry.len()) as int) == entry
            &&& entries(done, (number + 1) as nat) == entries(image, before.entry_number).push(
                entry,
            )
            &&& before.fits(entry.len()) ==> before.grown(entry.len()).describes(done)
        }),
{
    lemma_append_sound(
        image,
        before.entry_limit as int,
        before.entry_number as int,
        entry,
        crc32_ieee(entry),
    );
    lemma_record_fields(plan.offset, entry.len() as u64, crc32_ieee(entry));
}

/// What a read makes of the bytes that it finds in the place of an entry that
/// was appended: with checking on, it fails with `Error::Checksum` exactly
/// when the bytes do not have the checksum of the entry; with checking off it
/// takes the bytes as they are.
pub proof fn lemma_read_checked(offset: u64, entry: Seq<u8>, found: Seq<u8>, check_crc32: bool)
    requires
        entry.len() <= usize::MAX,
    ensures
        checked(record(offset, entry.len() as u64, crc32_ieee(entry)), entry, check_crc32)
            == Ok::<(), Error>(()),
        checked(record(offset, entry.len() as u64, crc32_ieee(entry)), found, check_crc32)
            == if check_crc32 && crc32_ieee(found) != crc32_ieee(entry) {
            Err::<(), Error>(Error::Checksum)
        } else {
            Ok::<(), Error>(())
        },
{
    lemma_record_fields(offset, entry.len() as u64, crc32_ieee(entry));
}

/// The file of a segment in state `before` after the first `count` of
/// `entries` were appended to it: each payload at the end of the file, then
/// its descriptor in the next free slot.
pub open spec fn appended(
    image: Seq<u8>,
    before: SegmentView,
    entries: Seq<Seq<u8>>,
    count: int,
) -> Seq<u8>
    decreases count,
{
    if count <= 0 {
        image
    } else {
        let offset = (before.data_written + total_len(entries, count - 1)) as int;
        write_at(
            write_at(appended(image, before, entries, count - 1), offset, entries[count - 1]),
            slot_start(before.entry_number + count - 1),
            record(offset as u64, entries[count - 1].len() as u64, crc32_ieee(entries[count - 1])),
        )
    }
}

/// Appending entries to a segment, one after the other, keeps the state and
/// the file in step, and the file then holds those entries behind the entries
/// it held.
pub proof fn lemma_appended_describes(
    before: SegmentView,
    image: Seq<u8>,
    all: Seq<Seq<u8>>,
    count: int,
)
    requires
        before.describes(image),
        before.fits_batch(all),
        0 <= count <= before.taken(all.len()),
    ensures
        before.extended(all, count).describes(appended(image, before, all, count)),
        entries(appended(image, before, all, count), (before.entry_number + count) as nat)
            == entries(image, before.entry_number) + all.subrange(0, count),
    decreases count,
{
    if count == 0 {
        assert(before.extended(all, 0) == before);
        assert(entries(image, before.entry_number) + all.subrange(0, 0) =~= entries(
            image,
            before.entry_number,
        ));
    } else {
        lemma_appended_describes(before, image, all, count - 1);
        let taken = before.taken(all.len()) as int;
        let middle = before.extended(all, count - 1);
        let file = appended(image, before, all, count - 1);
        let entry = all[count - 1];
        lemma_total_len_grows(all, count, taken);
        assert(slot_start(middle.entry_number + 1 as int) <= slot_start(before.entry_number + taken))
            by (nonlinear_arith)
            requires
                middle.entry_number + 1 <= before.entry_number + taken,
        ;
        lemma_append_sound(
            file,
            middle.entry_limit as int,
            middle.entry_number as int,
            entry,
            crc32_ieee(entry),
        );
        assert(middle.grown(entry.len()) == before.extended(all, count));
        assert(all.subrange(0, count - 1).push(entry) =~= all.subrange(0, count));
        assert((entries(image, before.entry_number) + all.subrange(0, count - 1)).push(entry)
            =~= entries(image, before.entry_number) + all.subrange(0, count));
    }
}

/// The plans of a batch are the appends of its entries: writing them, plan
/// by plan, makes of the file what appending the entries makes of it.
pub proof fn lemma_plans_append(
    before: SegmentView,
    image: Seq<u8>,
    all: Seq<Seq<u8>>,
    plans: Seq<Append>,
    count: int,
)
    requires
        batch(before, all, plans),
        0 <= count <= plans.len(),
    ensures
        applied_all(image, plans, all, count) == appended(image, before, all, count),
    decreases count,
{
    if count > 0 {
        lemma_plans_append(before, image, all, plans, count - 1);
        assert(appends(before, all, count - 1, plans[count - 1]));
    }
}

/// Writing what `Segment::batch_write` plans, plan by plan, keeps the state
/// and the file in step, and the file then holds the entries that the batch
/// took behind the entries it held.
pub proof fn lemma_batch_describes(
    before: SegmentView,
    image: Seq<u8>,
    all: Seq<Seq<u8>>,
    plans: Seq<Append>,
    count: int,
)
    requires
        before.describes(image),
        before.fits_batch(all),
        batch(before, all, plans),
        0 <= count <= plans.len(),
    ensures
        before.extended(all, count).describes(applied_all(image, plans, all, count)),
        entries(applied_all(image, plans, all, count), (before.entry_number + count) as nat)
            == entries(image, before.entry_number) + all.subrange(0, count),
{
    lemma_plans_append(before, image, all, plans, count);
    lemma_appended_describes(before, image, all, count);
}

/// Where the writes of a batch fail at plan `index`, taking that plan back
/// keeps the state and the file in step: the state that `Segment::rewind`
/// leaves describes the file with the entries before that plan appended, and
/// with the payload of that plan behind them where it was written.
pub proof fn lemma_rewind_describes(
    before: SegmentView,
    image: Seq<u8>,
    all: Seq<Seq<u8>>,
    plans: Seq<Append>,
    index: int,
    stored: bool,
)
    requires
        before.describes(image),
        before.fits_batch(all),
        batch(before, all, plans),
        0 <= index < plans.len(),
    ensures
        before.batched(all).planned(plans[index]),
        ({
            let done = applied_all(image, plans, all, index);
            let file = if stored {
                write_at(done, plans[index].offset as int, all[index])
            } else {
                done
            };
            &&& before.batched(all).rewound(plans[index], stored).describes(file)
            &&& entries(file, (before.entry_number + index) as nat) == entries(
                image,
                before.entry_number,
            ) + all.subrange(0, index)
        }),
{
    let taken = before.taken(all.len()) as int;
    let plan = plans[index];
    let entry = all[index];
    let middle = before.extended(all, index);
    let done = applied_all(image, plans, all, index);
    assert(appends(before, all, index, plan));
    lemma_batch_describes(before, image, all, plans, index);
    lemma_record_fields(plan.offset, entry.len() as u64, crc32_ieee(entry));
    lemma_total_len_grows(all, index + 1, taken);
    assert(total_len(all, index + 1) == total_len(all, index) + entry.len());
    assert(slot_start(middle.entry_number as int) < slot_start(
        before.batched(all).entry_number as int,
    )) by (nonlinear_arith)
        requires
            middle.entry_number < before.batched(all).entry_number,
    ;
    assert(slot_start(middle.entry_number + 1 as int) <= slot_start(before.entry_number + taken))
        by (nonlinear_arith)
        requires
            middle.entry_number + 1 <= before.entry_number + taken,
    ;
    if stored {
        lemma_append_sound(
            done,
            middle.entry_limit as int,
            middle.entry_number as int,
            entry,
            crc32_ieee(entry),
        );
    }
}

/// Reading entries back: of the part of the table that `Segment::read_into`
/// names for `count` entries from entry `start` on, record `index` is the
/// descriptor of entry `start + index`, it carries the marker, and the bytes
/// that it refers to are that entry.
pub proof fn lemma_read_entries(
    state: SegmentView,
    image: Seq<u8>,
    start: int,
    count: int,
    index: int,
)
    requires
        state.describes(image),
        0 <= start,
        0 <= index < count,
        start + count <= state.entry_number,
    ensures
        ({
            let table = image.subrange(slot_start(start), slot_start(start + count));
            let found = table.subrange(OVERHEAD_SIZE * index, OVERHEAD_SIZE * (index + 1));
            &&& found == slot(image, start + index)
            &&& marked(found)
            &&& offset_of(found) + size_of(found) <= image.len()
            &&& image.subrange(offset_of(found) as int, (offset_of(found) + size_of(found)) as int)
                == entries(image, state.entry_number)[start + index]
        }),
{
    let table = image.subrange(slot_start(start), slot_start(start + count));
    let found = table.subrange(OVERHEAD_SIZE * index, OVERHEAD_SIZE * (index + 1));
    assert(committed(image, start + index));
    assert(slot_start(start + count) <= slot_start(state.entry_number as int)) by (nonlinear_arith)
        requires
            start + count <= state.entry_number,
    ;
    assert(slot_start(state.entry_number as int) <= slot_start(state.entry_limit as int))
        by (nonlinear_arith)
        requires
            state.entry_number <= state.entry_limit,
    ;
    assert(found =~= slot(image, start + index));
    assert(slot_start(state.entry_limit as int) <= payload_start(image, start + index));
    assert(payload_end(image, start + index) <= image.len());
}

/// Opening a segment on its file finds the state that describes the file:
/// the count of entries that the file holds, whatever else the state was
/// before. The leading bytes of the file are enough for it, where they reach
/// to the end of the table.
pub proof fn lemma_open_describes(
    sequence: u64,
    limit: usize,
    image: Seq<u8>,
    cut: int,
    number: int,
    state: SegmentView,
)
    requires
        0 < image.len() <= u64::MAX,
        0 <= cut <= image.len(),
        slot_start(limit_of(image) as int) <= cut,
        slot_start(limit_of(image) as int) <= usize::MAX,
        sound(image, limit_of(image) as int, number),
        opens(sequence, limit, image.take(cut), image.len() as int, state),
    ensures
        state.entry_number == number,
        state.describes(image),
{
    let part = image.take(cut);
    assert(part.subrange(MAGIC_SIZE as int, HEAD_SIZE as int) =~= image.subrange(
        MAGIC_SIZE as int,
        HEAD_SIZE as int,
    ));
    lemma_sound_recovered(image, limit_of(image) as int, number);
    lemma_recovered_prefix(image, cut, limit_of(image) as int, state.entry_number as int);
    lemma_recovered_unique(image, limit_of(image) as int, number, state.entry_number as int);
    assert(slot_start(number) <= slot_start(limit_of(image) as int)) by (nonlinear_arith)
        requires
            number <= limit_of(image),
    ;
}

/// The file of a segment after it was opened with capacity `limit`: an empty
/// file is prepared, any other is left as it is.
pub open spec fn after_open(image: Seq<u8>, limit: usize) -> Seq<u8> {
    if image.len() == 0 {
        prepared(capacity(limit) as nat)
    } else {
        image
    }
}

/// Opening a segment a second time gives what the first time gave: the first
/// time leaves a file on which a second changes nothing, and both find the
/// same state.
pub proof fn lemma_reopen(
    sequence: u64,
    limit: usize,
    image: Seq<u8>,
    first: SegmentView,
    second: SegmentView,
)
    requires
        opens(sequence, limit, image, image.len() as int, first),
        opens(
            sequence,
            limit,
            after_open(image, limit),
            after_open(image, limit).len() as int,
            second,
        ),
    ensures
        after_open(after_open(image, limit), limit) == after_open(image, limit),
        first == second,
{
    let size = capacity(limit);
    if image.len() == 0 {
        lemma_prepared_sound(size as nat);
        lemma_sound_recovered(prepared(size as nat), size as int, 0);
        lemma_recovered_unique(
            prepared(size as nat),
            size as int,
            second.entry_number as int,
            0,
        );
    } else {
        lemma_recovered_unique(
            image,
            first.entry_limit as int,
            first.entry_number as int,
            second.entry_number as int,
        );
    }
}

} // verus!
