//! The layout of a segment file, over its byte image.
//!
//! ```text
//! [0 .. 16)          the magic
//! [16 .. 24)         the capacity N, big-endian
//! [24 .. 24 + 22 N)  the descriptor table, N slots
//! [24 + 22 N .. )    the payloads, in the order of their descriptors
//! ```

use crate::endian::{be_bytes, be_value};
use crate::image::zeros;
use crate::segment::overhead::{marked, offset_of, size_of, OVERHEAD_SIZE};
use vstd::prelude::*;

verus! {

/// The length of the magic.
pub const MAGIC_SIZE: usize = 16;

/// The length of the capacity field.
pub const ENTRY_LIMIT_SIZE: usize = 8;

/// The length of the header: magic and capacity.
pub const HEAD_SIZE: usize = 24;

/// The capacity of a segment that is created without one.
pub const DEFAULT_ENTRY_LIMIT: usize = 10240;

/// The 16 bytes with which a segment file begins.
pub open spec fn magic() -> Seq<u8> {
    seq![17u8, 116u8, 239u8, 237u8, 171u8, 24u8, 96u8, 0u8, 17u8, 116u8, 239u8, 237u8, 171u8, 24u8,
        96u8, 117u8]
}

/// The offset of descriptor slot `index` in the file.
pub open spec fn slot_start(index: int) -> int {
    HEAD_SIZE as int + OVERHEAD_SIZE as int * index
}

/// The 22 bytes of slot `index`.
pub open spec fn slot(image: Seq<u8>, index: int) -> Seq<u8> {
    image.subrange(slot_start(index), slot_start(index + 1))
}

/// Whether slot `index` lies wholly in the file and carries the marker.
pub open spec fn committed(image: Seq<u8>, index: int) -> bool {
    0 <= index && slot_start(index + 1) <= image.len() && marked(slot(image, index))
}

/// Whether `number` is what a scan of the table finds: the slots below it are
/// committed, and the scan ends at the capacity or at a slot that is not.
pub open spec fn recovered(image: Seq<u8>, limit: int, number: int) -> bool {
    &&& 0 <= number <= limit
    &&& forall|i: int| 0 <= i < number ==> committed(image, i)
    &&& number < limit ==> !committed(image, number)
}

/// The capacity that the header holds.
pub open spec fn limit_of(image: Seq<u8>) -> nat {
    be_value(image.subrange(MAGIC_SIZE as int, HEAD_SIZE as int))
}

/// The header of a segment of capacity `limit`.
pub open spec fn head(limit: nat) -> Seq<u8> {
    magic() + be_bytes(limit, 8)
}

/// The image of a newly prepared segment: the header and an empty table.
pub open spec fn prepared(limit: nat) -> Seq<u8> {
    head(limit) + zeros(OVERHEAD_SIZE as nat * limit)
}

/// The payload that slot `index` refers to.
pub open spec fn payload(image: Seq<u8>, index: int) -> Seq<u8> {
    let at = offset_of(slot(image, index)) as int;
    image.subrange(at, at + size_of(slot(image, index)))
}

/// The first `number` entries of the segment, in the order of their slots.
pub open spec fn entries(image: Seq<u8>, number: nat) -> Seq<Seq<u8>> {
    Seq::new(number, |i: int| payload(image, i))
}

/// The lengths of the first `upto` of `entries`, added up.
pub open spec fn total_len(entries: Seq<Seq<u8>>, upto: int) -> nat
    decreases upto,
{
    if upto <= 0 {
        0
    } else {
        total_len(entries, upto - 1) + entries[upto - 1].len()
    }
}

} // verus!
