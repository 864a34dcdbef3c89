//! One segment of the log: the state that describes its file, and what is
//! read from and written to the file on each operation.
//!
//! The functions here touch no file. Those that change the file return what
//! is to be written and where; those that read take the bytes that were read.

pub mod layout;
pub mod overhead;
pub mod sound;
pub mod state;
pub mod steps;

use crate::base16::{encode, hex};
use crate::checksum::{checksum_ieee, crc32_ieee};
use crate::endian::{be_bytes, lemma_be_bytes_len, read_u64, write_u64};
use crate::error::Error;
use crate::image::begins_with;
use crate::segment::layout::{
    committed, head, limit_of, magic, recovered, slot, slot_start, total_len,
    DEFAULT_ENTRY_LIMIT, HEAD_SIZE, MAGIC_SIZE,
};
use crate::segment::overhead::{checked, crc32_of, marked, record, Overhead, OVERHEAD_SIZE};
use crate::segment::layout::entries;
use crate::segment::state::{
    appends, batch, capacity, header_error, opens, payloads, SegmentView,
};
use crate::segment::steps::{
    applied, applied_all, lemma_batch_describes, lemma_write_describes,
};
use vstd::prelude::*;

verus! {

/// The state of one segment, as the log holds it in memory.
#[derive(Debug, Copy, Clone)]
pub struct Segment {
    sequence: u64,
    entry_number: usize,
    entry_limit: usize,
    data_written: u64,
}

impl View for Segment {
    type V = SegmentView;

    closed spec fn view(&self) -> SegmentView {
        SegmentView {
            sequence: self.sequence,
            entry_number: self.entry_number as nat,
            entry_limit: self.entry_limit as nat,
            data_written: self.data_written as nat,
        }
    }
}

impl Segment {
    /// The state of a segment is well-formed at all times.
    #[verifier::type_invariant]
    pub open spec fn inv(self) -> bool {
        self@.wf()
    }
}

/// What is written to an empty file to make it a segment.
#[derive(Debug)]
pub struct Prepared {
    /// The length that the file is given, filled with zero bytes.
    pub size: usize,
    /// The header, written at offset 0.
    pub head: [u8; 24],
}

/// What is written to the file to append one entry: first the payload, then
/// the descriptor.
#[derive(Debug)]
pub struct Append {
    /// Where the payload is written.
    pub offset: u64,
    /// Where the descriptor is written.
    pub overhead_offset: u64,
    /// The descriptor.
    pub overhead: Overhead,
}

/// The part of the descriptor table that a read needs.
#[derive(Debug, Copy, Clone, PartialEq, Eq, Structural)]
pub struct Span {
    /// Where the first descriptor of the part stands in the file.
    pub offset: u64,
    /// The count of descriptors, each of 22 bytes.
    pub count: usize,
}

/// The 16 bytes with which a segment file begins.
pub fn magic_num() -> (num: [u8; 16])
    ensures
        num@ == magic(),
{
    let num: [u8; 16] = [17, 116, 239, 237, 171, 24, 96, 0, 17, 116, 239, 237, 171, 24, 96, 117];
    assert(num@ =~= magic());
    num
}

/// The 16 hexadecimal digits of `n`, most significant first.
pub fn u64_to_hex(n: u64) -> (text: String)
    ensures
        text@ == hex(be_bytes(n as nat, 8)),
        text@.len() == 16,
{
    let buf: [u8; 8] = write_u64(n);
    proof {
        lemma_be_bytes_len(n as nat, 8);
    }
    encode(buf.as_slice())
}

/// Whether the header and the descriptor table of a segment of the capacity
/// that `limit` selects can be addressed, so that the segment can be
/// prepared.
pub fn preparable(limit: usize) -> (fits: bool)
    ensures
        fits == (slot_start(capacity(limit) as int) <= usize::MAX),
{
    let entry_limit: usize = if limit == 0 {
        DEFAULT_ENTRY_LIMIT
    } else {
        limit
    };
    entry_limit <= (usize::MAX - HEAD_SIZE) / OVERHEAD_SIZE
}

/// The header and the length of a new segment of capacity `entry_limit`.
pub fn prepare(entry_limit: usize) -> (plan: Prepared)
    requires
        slot_start(entry_limit as int) <= usize::MAX,
    ensures
        plan.size == slot_start(entry_limit as int),
        plan.head@ == head(entry_limit as nat),
{
    let size: usize = HEAD_SIZE + entry_limit * OVERHEAD_SIZE;
    let magic: [u8; 16] = magic_num();
    let field: [u8; 8] = write_u64(entry_limit as u64);
    let mut head: [u8; 24] = [0; 24];
    let mut i: usize = 0;
    while i < 16
        invariant
            i <= 16,
            forall|k: int| 0 <= k < i ==> head@[k] == magic@[k],
        decreases 16 - i,
    {
        head[i] = magic[i];
        i = i + 1;
    }
    let mut j: usize = 0;
    while j < 8
        invariant
            j <= 8,
            forall|k: int| 0 <= k < 16 ==> head@[k] == magic@[k],
            forall|k: int| 0 <= k < j ==> head@[16 + k] == field@[k],
        decreases 8 - j,
    {
        head[16 + j] = field[j];
        j = j + 1;
    }
    proof {
        lemma_be_bytes_len(entry_limit as nat, 8);
        assert(head@ =~= crate::segment::layout::head(entry_limit as nat));
    }
    Prepared { size, head }
}

/// How many leading bytes of a file of `file_len` bytes hold the header and
/// the descriptor table of a segment of capacity `entry_limit`: all of them
/// where the file ends before the end of the table.
pub fn table_end(entry_limit: usize, file_len: u64) -> (end: u64)
    ensures
        end == if slot_start(entry_limit as int) <= file_len {
            slot_start(entry_limit as int)
        } else {
            file_len as int
        },
{
    if file_len < HEAD_SIZE as u64 {
        return file_len;
    }
    let slots: u64 = (file_len - HEAD_SIZE as u64) / OVERHEAD_SIZE as u64;
    if entry_limit as u64 <= slots {
        HEAD_SIZE as u64 + entry_limit as u64 * OVERHEAD_SIZE as u64
    } else {
        file_len
    }
}

/// Checks the header in `image`, the leading bytes of a segment file, and
/// scans the descriptor table in it: the capacity, and the count of committed
/// entries.
pub fn read_info(image: &[u8]) -> (info: Result<(usize, usize), Error>)
    ensures
        match info {
            Ok((limit, number)) => {
                &&& header_error(image@) is None
                &&& limit == #[verifier::truncate] (limit_of(image@) as usize)
                &&& recovered(image@, limit as int, number as int)
            },
            Err(e) => header_error(image@) == Some(e),
        },
{
    if image.len() < MAGIC_SIZE {
        return Err(Error::UnexpectedEof);
    }
    let magic: [u8; 16] = magic_num();
    if !begins_with(image, &magic) {
        return Err(Error::SegmentMagic);
    }
    if image.len() < HEAD_SIZE {
        return Err(Error::UnexpectedEof);
    }
    let field: &[u8] = &image[16..24];
    assert(field@.subrange(0, 8) =~= image@.subrange(16, 24));
    let entry_limit: usize = #[verifier::truncate] (read_u64(field) as usize);

    let mut num: usize = 0;
    let mut oh: Overhead = Overhead::new();
    while num < entry_limit
        invariant_except_break
            num <= entry_limit,
            image@.len() <= usize::MAX,
            slot_start(num as int) <= image@.len(),
            forall|i: int| 0 <= i < num ==> committed(image@, i),
        ensures
            recovered(image@, entry_limit as int, num as int),
        decreases entry_limit - num,
    {
        oh.reset();
        let at: usize = HEAD_SIZE + num * OVERHEAD_SIZE;
        let rest: &[u8] = &image[at..image.len()];
        let _ = oh.read_from(rest);
        if !oh.valid() {
            proof {
                if rest@.len() >= OVERHEAD_SIZE {
                    assert(rest@.subrange(0, OVERHEAD_SIZE as int) =~= slot(image@, num as int));
                }
            }
            break ;
        }
        proof {
            assert(rest@.len() >= OVERHEAD_SIZE);
            assert(rest@.subrange(0, OVERHEAD_SIZE as int) =~= slot(image@, num as int));
        }
        num = num + 1;
    }
    Ok((entry_limit, num))
}

/// A segment as `Segment::open` hands it out.
#[derive(Debug)]
pub struct Opened {
    /// The state of the segment.
    pub segment: Segment,
    /// What is to be written first, where the file was empty.
    pub prepare: Option<Prepared>,
}

impl Segment {
    /// The name of the file of segment `sequence`: 16 hexadecimal digits and
    /// the extension.
    pub fn filename(sequence: u64) -> (name: String)
        ensures
            name@ == hex(be_bytes(sequence as nat, 8)) + ".dat"@,
    {
        u64_to_hex(sequence).concat(".dat")
    }

    /// Opens segment `sequence` on a file of `file_len` bytes, of which
    /// `image` holds the leading bytes: the header and the descriptor table,
    /// or all of a file that ends before the end of its table.
    ///
    /// An empty file becomes a new segment of capacity `limit` (0 selects the
    /// default), and what is to be written to it comes back with the state.
    /// Any other file must begin with the magic; its capacity is read from the
    /// header and its entries are counted from the table.
    pub fn open(sequence: u64, limit: usize, image: &[u8], file_len: u64) -> (opened: Result<
        Opened,
        Error,
    >)
        requires
            image@.len() <= file_len,
            file_len == 0 ==> slot_start(capacity(limit) as int) <= usize::MAX,
        ensures
            match opened {
                Ok(o) => {
                    &&& file_len > 0 ==> header_error(image@) is None
                    &&& opens(sequence, limit, image@, file_len as int, o.segment@)
                    &&& o.segment@.wf()
                    &&& match o.prepare {
                        Some(p) => file_len == 0 && p.size == slot_start(capacity(limit) as int)
                            && p.head@ == head(capacity(limit) as nat),
                        None => file_len > 0,
                    }
                },
                Err(e) => file_len > 0 && header_error(image@) == Some(e),
            },
    {
        if file_len == 0 {
            let entry_limit: usize = if limit == 0 {
                DEFAULT_ENTRY_LIMIT
            } else {
                limit
            };
            let plan: Prepared = prepare(entry_limit);
            let segment = Segment {
                sequence,
                entry_number: 0,
                entry_limit,
                data_written: plan.size as u64,
            };
            return Ok(Opened { segment, prepare: Some(plan) });
        }
        match read_info(image) {
            Ok((entry_limit, entry_number)) => {
                proof {
                    assert(image@.len() == image.len());
                    if entry_number > 0 {
                        assert(committed(image@, entry_number - 1));
                    }
                }
                let segment = Segment {
                    sequence,
                    entry_number,
                    entry_limit,
                    data_written: file_len,
                };
                Ok(Opened { segment, prepare: None })
            },
            Err(e) => Err(e),
        }
    }

    /// Appends `entry`, unless the table is full: the state moves on by one
    /// entry, and the payload and the descriptor that are to be written come
    /// back. The payload goes to the end of the payloads, the descriptor into
    /// the first free slot; the descriptor is written last.
    pub fn write(&mut self, entry: &[u8]) -> (plan: Option<Append>)
        requires
            old(self)@.entry_number < old(self)@.entry_limit ==> old(self)@.fits(entry@.len()),
        ensures
            old(self)@.wf(),
            final(self)@.wf(),
            old(self)@.entry_number >= old(self)@.entry_limit ==> plan is None && final(self)@
                == old(self)@,
            old(self)@.entry_number < old(self)@.entry_limit ==> match plan {
                Some(a) => a.offset == old(self)@.data_written && a.overhead_offset == slot_start(
                    old(self)@.entry_number as int,
                ) && a.overhead@ == record(a.offset, entry@.len() as u64, crc32_ieee(entry@))
                    && final(self)@ == old(self)@.grown(entry@.len()),
                None => false,
            },
            plan matches Some(a) ==> forall|image: Seq<u8>| #[trigger]
                old(self)@.describes(image) ==> final(self)@.describes(applied(image, a, entry@))
                    && entries(applied(image, a, entry@), final(self)@.entry_number) == entries(
                    image,
                    old(self)@.entry_number,
                ).push(entry@),
    {
        proof {
            use_type_invariant(&*self);
        }
        if self.entry_number >= self.entry_limit {
            return None;
        }
        let offset: u64 = self.data_written;
        let written: usize = entry.len();
        self.data_written = self.data_written + written as u64;

        let sum: u32 = checksum_ieee(entry);
        let mut overhead: Overhead = Overhead::new();
        overhead.write_head();
        overhead.write_offset(offset);
        overhead.write_size(written as u64);
        overhead.write_crc32(sum);
        proof {
            lemma_be_bytes_len(offset as nat, 8);
            lemma_be_bytes_len(written as nat, 8);
            lemma_be_bytes_len(sum as nat, 4);
            assert(overhead@ =~= record(offset, written as u64, sum));
        }

        let overhead_offset: u64 = (HEAD_SIZE + self.entry_number * OVERHEAD_SIZE) as u64;
        self.entry_number = self.entry_number + 1;
        let plan = Append { offset, overhead_offset, overhead };
        proof {
            assert forall|image: Seq<u8>| #[trigger] old(self)@.describes(image) implies self@.describes(
                applied(image, plan, entry@),
            ) && entries(applied(image, plan, entry@), self@.entry_number) == entries(
                image,
                old(self)@.entry_number,
            ).push(entry@) by {
                lemma_write_describes(old(self)@, image, entry@, plan);
            }
        }
        Some(plan)
    }

    /// Appends the entries of `entries` one by one until all are appended or
    /// the table is full, and gives what is to be written for each, in order.
    pub fn batch_write(&mut self, entries: &[&[u8]]) -> (plans: Vec<Append>)
        requires
            old(self)@.fits_batch(payloads(entries@)),
        ensures
            old(self)@.wf(),
            final(self)@.wf(),
            batch(old(self)@, payloads(entries@), plans@),
            final(self)@ == old(self)@.batched(payloads(entries@)),
            forall|image: Seq<u8>| #[trigger]
                old(self)@.describes(image) ==> final(self)@.describes(
                    applied_all(image, plans@, payloads(entries@), plans@.len() as int),
                ) && crate::segment::layout::entries(
                    applied_all(image, plans@, payloads(entries@), plans@.len() as int),
                    final(self)@.entry_number,
                ) == crate::segment::layout::entries(image, old(self)@.entry_number) + payloads(
                    entries@,
                ).subrange(0, plans@.len() as int),
    {
        proof {
            use_type_invariant(&*self);
        }
        let mut plans: Vec<Append> = Vec::new();
        let mut i: usize = 0;
        let ghost all = payloads(entries@);
        let ghost taken = old(self)@.taken(entries@.len());
        while i < entries.len()
            invariant_except_break
                i <= entries@.len(),
                i <= taken,
            invariant
                self@.wf(),
                old(self)@.wf(),
                all == payloads(entries@),
                taken == old(self)@.taken(entries@.len()),
                old(self)@.fits_batch(all),
                plans@.len() == i,
                plans@.len() <= taken,
                self@ == old(self)@.extended(all, i as int),
                forall|k: int| 0 <= k < plans@.len() ==> appends(old(self)@, all, k, #[trigger] plans@[k]),
            ensures
                plans@.len() == taken,
            decreases entries@.len() - i,
        {
            proof {
                if i < taken {
                    lemma_total_len_grows(all, i as int + 1, taken as int);
                }
            }
            match self.write(entries[i]) {
                None => {
                    break ;
                },
                Some(plan) => {
                    plans.push(plan);
                },
            }
            i = i + 1;
        }
        proof {
            assert forall|image: Seq<u8>| #[trigger] old(self)@.describes(image) implies self@.describes(
                applied_all(image, plans@, all, plans@.len() as int),
            ) && crate::segment::layout::entries(
                applied_all(image, plans@, all, plans@.len() as int),
                self@.entry_number,
            ) == crate::segment::layout::entries(image, old(self)@.entry_number) + all.subrange(
                0,
                plans@.len() as int,
            ) by {
                lemma_batch_describes(old(self)@, image, all, plans@, plans@.len() as int);
            }
        }
        plans
    }

    /// Whether the payloads and the descriptors of the entries that a batch
    /// of `entries` appends can be addressed.
    pub fn fits(&self, entries: &[&[u8]]) -> (fits: bool)
        ensures
            self@.wf(),
            fits == self@.fits_batch(payloads(entries@)),
    {
        proof {
            use_type_invariant(self);
        }
        let space: usize = self.entry_limit - self.entry_number;
        let taken: usize = if entries.len() <= space {
            entries.len()
        } else {
            space
        };
        if taken > (usize::MAX - HEAD_SIZE) / OVERHEAD_SIZE - self.entry_number {
            return false;
        }
        let ghost all = payloads(entries@);
        let mut end: u64 = self.data_written;
        let mut i: usize = 0;
        while i < taken
            invariant
                i <= taken <= entries@.len(),
                self@.wf(),
                all == payloads(entries@),
                taken == self@.taken(entries@.len()),
                slot_start((self@.entry_number + taken) as int) <= usize::MAX,
                end == self@.data_written + total_len(all, i as int),
            decreases taken - i,
        {
            let len: usize = entries[i].len();
            if len as u64 > u64::MAX - end {
                proof {
                    assert(total_len(all, i as int + 1) == total_len(all, i as int)
                        + all[i as int].len());
                    lemma_total_len_grows(all, i as int + 1, taken as int);
                }
                return false;
            }
            end = end + len as u64;
            i = i + 1;
        }
        true
    }

    /// Takes back the append of `plan` and of every entry behind it, where
    /// the writes that `plan` asks for failed: the entry is not committed, and
    /// its payload counts as written where `stored` says that it was, so that
    /// the next payload does not overlay it.
    pub fn rewind(&mut self, plan: &Append, stored: bool)
        requires
            old(self)@.planned(*plan),
        ensures
            old(self)@.wf(),
            final(self)@.wf(),
            final(self)@ == old(self)@.rewound(*plan, stored),
            final(self)@.entry_number < old(self)@.entry_number,
            plan.overhead_offset == slot_start(final(self)@.entry_number as int),
    {
        proof {
            use_type_invariant(&*self);
        }
        let index: u64 = (plan.overhead_offset - HEAD_SIZE as u64) / OVERHEAD_SIZE as u64;
        self.entry_number = index as usize;
        self.data_written = if stored {
            plan.offset + plan.overhead.size()
        } else {
            plan.offset
        };
    }

    /// The part of the descriptor table that holds the descriptors of up to
    /// `limit` entries from entry `start` on; it is empty where `start` is not
    /// below the count of entries.
    pub fn read_into(&self, start: usize, limit: usize) -> (span: Span)
        ensures
            self@.wf(),
            start >= self@.entry_number ==> span.count == 0,
            start < self@.entry_number ==> span.count == if limit <= self@.entry_number - start {
                limit as int
            } else {
                self@.entry_number - start
            },
            span.count > 0 ==> span.offset == slot_start(start as int),
            span.count == 0 ==> span.offset == 0,
            OVERHEAD_SIZE * span.count <= usize::MAX,
    {
        proof {
            use_type_invariant(self);
        }
        if start >= self.entry_number {
            return Span { offset: 0, count: 0 };
        }
        let mut count: usize = limit;
        if count > self.entry_number - start {
            count = self.entry_number - start;
        }
        if count == 0 {
            return Span { offset: 0, count: 0 };
        }
        let offset: u64 = (HEAD_SIZE + start * OVERHEAD_SIZE) as u64;
        Span { offset, count }
    }

    /// The descriptors in `table`, a part of the descriptor table as it was
    /// read from the file. Each must carry the marker.
    pub fn read_overheads(table: &[u8]) -> (read: Result<Vec<Overhead>, Error>)
        ensures
            match read {
                Ok(found) => {
                    &&& found@.len() == table@.len() / OVERHEAD_SIZE as nat
                    &&& forall|i: int|
                        0 <= i < found@.len() ==> (#[trigger] found@[i])@ == table@.subrange(
                            OVERHEAD_SIZE * i,
                            OVERHEAD_SIZE * (i + 1),
                        ) && marked(found@[i]@)
                },
                Err(e) => e == Error::InvalidOverhead && exists|i: int|
                    0 <= i < table@.len() / OVERHEAD_SIZE as nat && !marked(
                        #[trigger] table@.subrange(OVERHEAD_SIZE * i, OVERHEAD_SIZE * (i + 1)),
                    ),
            },
    {
        let count: usize = table.len() / OVERHEAD_SIZE;
        let mut found: Vec<Overhead> = Vec::new();
        let mut read: usize = 0;
        while read < count
            invariant
                read <= count,
                table@.len() <= usize::MAX,
                OVERHEAD_SIZE * count <= table@.len(),
                count == table@.len() / OVERHEAD_SIZE as nat,
                found@.len() == read,
                forall|i: int|
                    0 <= i < found@.len() ==> (#[trigger] found@[i])@ == table@.subrange(
                        OVERHEAD_SIZE * i,
                        OVERHEAD_SIZE * (i + 1),
                    ) && marked(found@[i]@),
            decreases count - read,
        {
            let mut overhead: Overhead = Overhead::new();
            let part: &[u8] = &table[read * OVERHEAD_SIZE..(read + 1) * OVERHEAD_SIZE];
            overhead.copy_bytes(part);
            assert(part@.subrange(0, OVERHEAD_SIZE as int) =~= part@);
            if !overhead.valid() {
                assert(!marked(
                    table@.subrange(OVERHEAD_SIZE * (read as int), OVERHEAD_SIZE * (read + 1)),
                ));
                return Err(Error::InvalidOverhead);
            }
            found.push(overhead);
            read = read + 1;
        }
        Ok(found)
    }

    /// Checks the payloads that were read for `overheads`, one for each and
    /// in their order: with `check_crc32` set, each must have the checksum
    /// that its descriptor holds; without it, the payloads are taken as they
    /// are.
    pub fn check_entries(overheads: &Vec<Overhead>, entries: &Vec<Vec<u8>>, check_crc32: bool) -> (result:
        Result<(), Error>)
        requires
            overheads@.len() == entries@.len(),
        ensures
            match result {
                Ok(_) => forall|i: int|
                    0 <= i < entries@.len() ==> checked(
                        (#[trigger] overheads@[i])@,
                        entries@[i]@,
                        check_crc32,
                    ) is Ok,
                Err(e) => e == Error::Checksum && check_crc32 && exists|i: int|
                    0 <= i < entries@.len() && crc32_ieee(entries@[i]@) != crc32_of(
                        (#[trigger] overheads@[i])@,
                    ),
            },
            !check_crc32 ==> result is Ok,
    {
        let mut i: usize = 0;
        while i < entries.len()
            invariant
                i <= entries@.len(),
                overheads@.len() == entries@.len(),
                forall|k: int|
                    0 <= k < i ==> checked(
                        (#[trigger] overheads@[k])@,
                        entries@[k]@,
                        check_crc32,
                    ) is Ok,
            decreases entries@.len() - i,
        {
            match overheads[i].verify(entries[i].as_slice(), check_crc32) {
                Ok(_) => {},
                Err(e) => {
                    assert(crc32_ieee(entries@[i as int]@) != crc32_of(overheads@[i as int]@));
                    return Err(e);
                },
            }
            i = i + 1;
        }
        Ok(())
    }

    /// Gives the segment up: the name of its file, which is to be removed. A
    /// failure to remove it is ignored.
    pub fn destory(&mut self) -> (name: String)
        ensures
            name@ == hex(be_bytes(old(self)@.sequence as nat, 8)) + ".dat"@,
            final(self)@ == old(self)@,
    {
        Segment::filename(self.sequence)
    }

    /// The sequence of the segment.
    pub fn sequence(&self) -> (sequence: u64)
        ensures
            sequence == self@.sequence,
    {
        self.sequence
    }

    /// The offset at which the next payload is written: the end of the file.
    pub fn data_written(&self) -> (offset: u64)
        ensures
            offset == self@.data_written,
    {
        self.data_written
    }

    /// The count of committed entries.
    pub fn len(&self) -> (len: usize)
        ensures
            len == self@.entry_number,
    {
        self.entry_number
    }

    /// The count of entries that the table can still take.
    pub fn space(&self) -> (space: usize)
        ensures
            self@.wf(),
            space == self@.space(),
    {
        proof {
            use_type_invariant(self);
        }
        self.entry_limit - self.entry_number
    }
}

/// The lengths of more entries add up to no less.
pub(crate) proof fn lemma_total_len_grows(entries: Seq<Seq<u8>>, few: int, many: int)
    requires
        few <= many,
    ensures
        total_len(entries, few) <= total_len(entries, many),
    decreases many - few,
{
    if few < many {
        lemma_total_len_grows(entries, few, many - 1);
    }
}

} // verus!
