//! What holds of the file of a segment after every operation, and what it
//! gives: recovery finds the entries that were committed, whatever was torn.

use crate::endian::{be_bytes, lemma_be_bytes_len, lemma_be_value_of_bytes, lemma_radix_words};
use crate::image::{
    lemma_write_at_before, lemma_write_at_behind, lemma_write_at_there, write_at,
};
use crate::segment::layout::{
    committed, entries, limit_of, magic, payload, prepared, recovered, slot, slot_start,
    HEAD_SIZE, MAGIC_SIZE,
};
use crate::segment::overhead::{
    lemma_record_fields, marked, offset_of, record, size_of, OVERHEAD_SIZE,
};
use vstd::prelude::*;

verus! {

/// Where the payload of entry `index` begins.
pub open spec fn payload_start(image: Seq<u8>, index: int) -> int {
    offset_of(slot(image, index)) as int
}

/// Where the payload of entry `index` ends.
pub open spec fn payload_end(image: Seq<u8>, index: int) -> int {
    (offset_of(slot(image, index)) + size_of(slot(image, index))) as int
}

/// Whether `image` is the file of a segment of capacity `limit` that holds
/// `number` entries: the header says `limit`, the table is all there, its
/// first `number` slots are committed and no other slot carries the marker,
/// and the payloads of the entries lie behind the table, within the file, one
/// after the other in the order of their slots.
pub open spec fn sound(image: Seq<u8>, limit: int, number: int) -> bool {
    &&& 0 <= number <= limit
    &&& slot_start(limit) <= image.len()
    &&& image.subrange(0, MAGIC_SIZE as int) == magic()
    &&& limit_of(image) == limit
    &&& forall|i: int| 0 <= i < number ==> #[trigger] committed(image, i)
    &&& forall|i: int| number <= i < limit ==> !marked(#[trigger] slot(image, i))
    &&& forall|i: int|
        0 <= i < number ==> slot_start(limit) <= #[trigger] payload_start(image, i)
            && payload_end(image, i) <= image.len()
    &&& forall|i: int, j: int|
        0 <= i < j < number ==> #[trigger] payload_end(image, i) <= #[trigger] payload_start(
            image,
            j,
        )
}

/// A newly prepared file is the file of a segment that holds nothing.
pub proof fn lemma_prepared_sound(limit: nat)
    requires
        limit <= u64::MAX,
    ensures
        prepared(limit).len() == slot_start(limit as int),
        sound(prepared(limit), limit as int, 0),
{
    let image = prepared(limit);
    lemma_be_bytes_len(limit, 8);
    lemma_radix_words();
    lemma_be_value_of_bytes(limit, 8);
    assert(image.subrange(0, MAGIC_SIZE as int) =~= magic());
    assert(image.subrange(MAGIC_SIZE as int, HEAD_SIZE as int) =~= be_bytes(limit, 8));
    assert forall|i: int| 0 <= i < limit implies !marked(#[trigger] slot(image, i)) by {
        assert(slot_start(i + 1) <= slot_start(limit as int)) by (nonlinear_arith)
            requires
                i + 1 <= limit,
        ;
        assert(slot(image, i)[0] == 0u8);
    }
}

/// A scan of the file of a segment finds the count of entries that it holds.
pub proof fn lemma_sound_recovered(image: Seq<u8>, limit: int, number: int)
    requires
        sound(image, limit, number),
    ensures
        recovered(image, limit, number),
{
    if number < limit {
        assert(!marked(slot(image, number)));
    }
}

/// A scan has one result.
pub proof fn lemma_recovered_unique(image: Seq<u8>, limit: int, one: int, other: int)
    requires
        recovered(image, limit, one),
        recovered(image, limit, other),
    ensures
        one == other,
{
    if one < other {
        assert(committed(image, one));
    } else if other < one {
        assert(committed(image, other));
    }
}

/// A scan needs no more of a file than its header and its table: it finds in
/// the leading bytes of the file what it finds in the file, where those bytes
/// reach to the end of the table or of the file.
pub proof fn lemma_recovered_prefix(image: Seq<u8>, cut: int, limit: int, number: int)
    requires
        0 <= cut <= image.len(),
        slot_start(limit) <= cut || cut == image.len(),
    ensures
        recovered(image.take(cut), limit, number) <==> recovered(image, limit, number),
{
    let part = image.take(cut);
    assert forall|i: int| 0 <= i < limit implies (#[trigger] committed(part, i) <==> committed(
        image,
        i,
    )) by {
        assert(slot_start(i + 1) <= slot_start(limit)) by (nonlinear_arith)
            requires
                i + 1 <= limit,
        ;
        if slot_start(i + 1) <= cut {
            assert(slot(part, i) =~= slot(image, i));
        }
    }
    if recovered(part, limit, number) {
        assert forall|i: int| 0 <= i < number implies committed(image, i) by {
            assert(committed(part, i));
        }
    }
    if recovered(image, limit, number) {
        assert forall|i: int| 0 <= i < number implies committed(part, i) by {
            assert(committed(image, i));
        }
    }
}

/// Cutting the file of a segment short, anywhere behind its header, leaves a
/// file in which a scan finds the entries whose descriptors lie wholly before
/// the cut, and no others.
pub proof fn lemma_truncated_recovered(image: Seq<u8>, limit: int, number: int, cut: int)
    requires
        sound(image, limit, number),
        HEAD_SIZE <= cut <= image.len(),
    ensures
        image.take(cut).subrange(0, MAGIC_SIZE as int) == magic(),
        limit_of(image.take(cut)) == limit,
        recovered(
            image.take(cut),
            limit,
            if number <= (cut - HEAD_SIZE) / OVERHEAD_SIZE as int {
                number
            } else {
                (cut - HEAD_SIZE) / OVERHEAD_SIZE as int
            },
        ),
{
    let short = image.take(cut);
    let whole = (cut - HEAD_SIZE) / OVERHEAD_SIZE as int;
    let found = if number <= whole {
        number
    } else {
        whole
    };
    assert(short.subrange(0, MAGIC_SIZE as int) =~= image.subrange(0, MAGIC_SIZE as int));
    assert(short.subrange(MAGIC_SIZE as int, HEAD_SIZE as int) =~= image.subrange(
        MAGIC_SIZE as int,
        HEAD_SIZE as int,
    ));
    assert forall|i: int| 0 <= i < found implies committed(short, i) by {
        assert(committed(image, i));
        assert(slot(short, i) =~= slot(image, i));
    }
    if found < limit {
        if slot_start(found + 1) <= cut {
            assert(slot(short, found) =~= slot(image, found));
            assert(!marked(slot(image, found)));
        }
    }
}

/// Appending an entry to the file of a segment: the payload is written at
/// the end of the file, then its descriptor into the first free slot.
///
/// After the payload alone the file is still that of a segment with the
/// entries it had: a write that is torn there loses the new entry and nothing
/// else. After the descriptor the file holds the new entry behind them.
pub proof fn lemma_append_sound(
    image: Seq<u8>,
    limit: int,
    number: int,
    entry: Seq<u8>,
    crc32: u32,
)
    requires
        sound(image, limit, number),
        number < limit,
        image.len() <= u64::MAX,
        entry.len() <= u64::MAX,
    ensures
        ({
            let at = image.len() as int;
            let stored = write_at(image, at, entry);
            let done = write_at(
                stored,
                slot_start(number),
                record(at as u64, entry.len() as u64, crc32),
            );
            &&& sound(stored, limit, number)
            &&& entries(stored, number as nat) == entries(image, number as nat)
            &&& done.len() == at + entry.len()
            &&& sound(done, limit, number + 1)
            &&& slot(done, number) == record(at as u64, entry.len() as u64, crc32)
            &&& forall|i: int|
                0 <= i < limit && i != number ==> #[trigger] slot(done, i) == slot(image, i)
            &&& payload_start(done, number) == at
            &&& payload(done, number) == entry
            &&& entries(done, (number + 1) as nat) == entries(image, number as nat).push(entry)
        }),
{
    let at = image.len() as int;
    let stored = write_at(image, at, entry);
    let rec = record(at as u64, entry.len() as u64, crc32);
    let done = write_at(stored, slot_start(number), rec);
    lemma_record_fields(at as u64, entry.len() as u64, crc32);
    lemma_write_at_there(image, at, entry);
    lemma_write_at_there(stored, slot_start(number), rec);
    assert(slot_start(number + 1) <= slot_start(limit)) by (nonlinear_arith)
        requires
            number + 1 <= limit,
    ;

    // the payload alone
    lemma_write_at_before(image, at, entry, 0, MAGIC_SIZE as int);
    lemma_write_at_before(image, at, entry, MAGIC_SIZE as int, HEAD_SIZE as int);
    assert forall|i: int| 0 <= i < limit implies #[trigger] slot(stored, i) == slot(image, i) by {
        assert(slot_start(i + 1) <= slot_start(limit)) by (nonlinear_arith)
            requires
                i + 1 <= limit,
        ;
        lemma_write_at_before(image, at, entry, slot_start(i), slot_start(i + 1));
    }
    assert forall|i: int| 0 <= i < number implies #[trigger] committed(stored, i) by {
        assert(committed(image, i));
        assert(slot(stored, i) == slot(image, i));
    }
    assert forall|i: int| 0 <= i < number implies slot_start(limit) <= #[trigger] payload_start(
        stored,
        i,
    ) && payload_end(stored, i) <= stored.len() by {
        assert(slot(stored, i) == slot(image, i));
        assert(slot_start(limit) <= payload_start(image, i));
    }
    assert forall|i: int| 0 <= i < number implies #[trigger] payload(stored, i) == payload(
        image,
        i,
    ) by {
        assert(slot(stored, i) == slot(image, i));
        assert(slot_start(limit) <= payload_start(image, i));
        lemma_write_at_before(image, at, entry, payload_start(image, i), payload_end(image, i));
    }
    assert forall|i: int, j: int| 0 <= i < j < number implies #[trigger] payload_end(stored, i)
        <= #[trigger] payload_start(stored, j) by {
        assert(slot(stored, i) == slot(image, i));
        assert(slot(stored, j) == slot(image, j));
        assert(payload_end(image, i) <= payload_start(image, j));
    }
    assert forall|i: int| number <= i < limit implies !marked(#[trigger] slot(stored, i)) by {
        assert(slot(stored, i) == slot(image, i));
    }
    assert(sound(stored, limit, number));
    assert(entries(stored, number as nat) =~= entries(image, number as nat));

    // the descriptor behind it
    lemma_write_at_before(stored, slot_start(number), rec, 0, MAGIC_SIZE as int);
    lemma_write_at_before(stored, slot_start(number), rec, MAGIC_SIZE as int, HEAD_SIZE as int);
    assert(slot(done, number) == rec);
    assert forall|i: int| 0 <= i < limit && i != number implies #[trigger] slot(done, i) == slot(
        stored,
        i,
    ) by {
        assert(slot_start(i + 1) <= slot_start(limit)) by (nonlinear_arith)
            requires
                i + 1 <= limit,
        ;
        if i < number {
            assert(slot_start(i + 1) <= slot_start(number)) by (nonlinear_arith)
                requires
                    i + 1 <= number,
            ;
            lemma_write_at_before(stored, slot_start(number), rec, slot_start(i), slot_start(i + 1));
        } else {
            assert(slot_start(number + 1) <= slot_start(i)) by (nonlinear_arith)
                requires
                    number + 1 <= i,
            ;
            lemma_write_at_behind(stored, slot_start(number), rec, slot_start(i), slot_start(i + 1));
        }
    }
    assert forall|i: int| 0 <= i < number + 1 implies #[trigger] committed(done, i) by {
        if i < number {
            assert(committed(stored, i));
            assert(slot(done, i) == slot(stored, i));
        }
    }
    assert forall|i: int| number + 1 <= i < limit implies !marked(#[trigger] slot(done, i)) by {
        assert(slot(done, i) == slot(stored, i));
        assert(!marked(slot(stored, i)));
    }
    assert(payload_start(done, number) == at);
    assert(payload_end(done, number) == at + entry.len());
    lemma_write_at_behind(stored, slot_start(number), rec, at, at + entry.len());
    assert(payload(done, number) == entry);
    assert forall|i: int| 0 <= i < number implies #[trigger] slot(done, i) == slot(image, i) by {
        assert(slot(done, i) == slot(stored, i));
        assert(slot(stored, i) == slot(image, i));
    }
    assert forall|i: int| 0 <= i < number implies #[trigger] payload(done, i) == payload(
        image,
        i,
    ) by {
        assert(slot(done, i) == slot(image, i));
        assert(slot_start(limit) <= payload_start(image, i));
        assert(payload_end(image, i) <= image.len());
        assert(payload(stored, i) == payload(image, i));
        lemma_write_at_behind(
            stored,
            slot_start(number),
            rec,
            payload_start(image, i),
            payload_end(image, i),
        );
    }
    assert forall|i: int| 0 <= i < number + 1 implies slot_start(limit) <= #[trigger] payload_start(
        done,
        i,
    ) && payload_end(done, i) <= done.len() by {
        if i < number {
            assert(slot(done, i) == slot(image, i));
            assert(slot_start(limit) <= payload_start(image, i));
        }
    }
    assert forall|i: int, j: int| 0 <= i < j < number + 1 implies #[trigger] payload_end(done, i)
        <= #[trigger] payload_start(done, j) by {
        assert(slot(done, i) == slot(image, i));
        assert(slot_start(limit) <= payload_start(image, i));
        assert(payload_end(image, i) <= image.len());
        if j < number {
            assert(slot(done, j) == slot(image, j));
            assert(payload_end(image, i) <= payload_start(image, j));
        }
    }
    assert(sound(done, limit, number + 1));
    assert forall|i: int| 0 <= i < limit && i != number implies #[trigger] slot(done, i) == slot(
        image,
        i,
    ) by {
        assert(slot(done, i) == slot(stored, i));
        assert(slot(stored, i) == slot(image, i));
    }
    assert(entries(done, (number + 1) as nat) =~= entries(image, number as nat).push(entry));
}

} // verus!
