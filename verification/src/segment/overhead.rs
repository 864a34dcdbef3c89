//! The descriptor of one entry: a fixed record of 22 bytes in the table at
//! the head of a segment file.
//!
//! Bytes 0 and 1 hold the marker `01 FF`; bytes 2 to 9 the offset of the
//! payload in the file; bytes 10 to 17 its length; bytes 18 to 21 its CRC-32.
//! The three numbers are big-endian.

use crate::checksum::{checksum_ieee, crc32_ieee};
use crate::endian::{
    be_bytes, be_value, lemma_be_bytes_len, lemma_be_value_of_bytes, lemma_radix_words,
    read_u32, read_u64, write_u32, write_u64,
};
use crate::error::Error;
use crate::image::zeros;
use vstd::prelude::*;

verus! {

/// The length of a descriptor in bytes.
pub const OVERHEAD_SIZE: usize = 22;

/// Whether a record carries the marker of a committed entry.
pub open spec fn marked(record: Seq<u8>) -> bool {
    record.len() >= 2 && record[0] == 0x01 && record[1] == 0xff
}

/// The payload offset that a record holds.
pub open spec fn offset_of(record: Seq<u8>) -> nat {
    be_value(record.subrange(2, 10))
}

/// The payload length that a record holds.
pub open spec fn size_of(record: Seq<u8>) -> nat {
    be_value(record.subrange(10, 18))
}

/// The checksum that a record holds.
pub open spec fn crc32_of(record: Seq<u8>) -> nat {
    be_value(record.subrange(18, 22))
}

/// The record of a committed entry.
pub open spec fn record(offset: u64, size: u64, crc32: u32) -> Seq<u8> {
    seq![0x01u8, 0xffu8] + be_bytes(offset as nat, 8) + be_bytes(size as nat, 8) + be_bytes(
        crc32 as nat,
        4,
    )
}

/// What a read makes of `payload`, the bytes that were read for `record`: a
/// failure where `check_crc32` is set and the bytes do not have the checksum
/// that the record holds.
pub open spec fn checked(record: Seq<u8>, payload: Seq<u8>, check_crc32: bool) -> Result<
    (),
    Error,
> {
    if check_crc32 && crc32_ieee(payload) != crc32_of(record) {
        Err(Error::Checksum)
    } else {
        Ok(())
    }
}

/// `record` with the bytes from `at` on replaced by `field`.
pub open spec fn overlay(record: Seq<u8>, at: int, field: Seq<u8>) -> Seq<u8> {
    record.subrange(0, at) + field + record.subrange(at + field.len(), record.len() as int)
}

/// A record reads back as what it was made of.
pub proof fn lemma_record_fields(offset: u64, size: u64, crc32: u32)
    ensures
        record(offset, size, crc32).len() == OVERHEAD_SIZE,
        marked(record(offset, size, crc32)),
        offset_of(record(offset, size, crc32)) == offset,
        size_of(record(offset, size, crc32)) == size,
        crc32_of(record(offset, size, crc32)) == crc32,
{
    let r = record(offset, size, crc32);
    lemma_be_bytes_len(offset as nat, 8);
    lemma_be_bytes_len(size as nat, 8);
    lemma_be_bytes_len(crc32 as nat, 4);
    lemma_radix_words();
    lemma_be_value_of_bytes(offset as nat, 8);
    lemma_be_value_of_bytes(size as nat, 8);
    lemma_be_value_of_bytes(crc32 as nat, 4);
    assert(r.subrange(2, 10) =~= be_bytes(offset as nat, 8));
    assert(r.subrange(10, 18) =~= be_bytes(size as nat, 8));
    assert(r.subrange(18, 22) =~= be_bytes(crc32 as nat, 4));
}

/// One descriptor, held as its 22 bytes.
#[derive(Debug)]
pub struct Overhead {
    bytes: [u8; 22],
}

impl View for Overhead {
    type V = Seq<u8>;

    closed spec fn view(&self) -> Seq<u8> {
        self.bytes@
    }
}

impl Overhead {
    /// A descriptor with the marker set and all else zero.
    pub fn new() -> (fresh: Overhead)
        ensures
            fresh@ == seq![0x01u8, 0xffu8] + zeros(20),
    {
        let mut a: [u8; 22] = [0; 22];
        a[0] = 0x01;
        a[1] = 0xff;
        assert(a@ =~= seq![0x01u8, 0xffu8] + zeros(20));
        Overhead { bytes: a }
    }

    /// Sets the marker.
    pub fn write_head(&mut self)
        ensures
            final(self)@ == overlay(old(self)@, 0, seq![0x01u8, 0xffu8]),
    {
        self.bytes[0] = 0x01;
        self.bytes[1] = 0xff;
        assert(self.bytes@ =~= overlay(old(self)@, 0, seq![0x01u8, 0xffu8]));
    }

    /// Copies `field` over the bytes from `at` on.
    fn put(&mut self, at: usize, field: &[u8])
        requires
            at + field@.len() <= OVERHEAD_SIZE,
        ensures
            final(self)@ == overlay(old(self)@, at as int, field@),
    {
        let mut i: usize = 0;
        while i < field.len()
            invariant
                at + field@.len() <= OVERHEAD_SIZE,
                i <= field@.len(),
                self.bytes@.len() == OVERHEAD_SIZE,
                forall|k: int| 0 <= k < at ==> self.bytes@[k] == old(self)@[k],
                forall|k: int| at <= k < at + i ==> self.bytes@[k] == field@[k - at],
                forall|k: int| at + i <= k < OVERHEAD_SIZE ==> self.bytes@[k] == old(self)@[k],
            decreases field@.len() - i,
        {
            self.bytes[at + i] = field[i];
            i = i + 1;
        }
        assert(self.bytes@ =~= overlay(old(self)@, at as int, field@));
    }

    /// Stores the offset of the payload.
    pub fn write_offset(&mut self, offset: u64)
        ensures
            final(self)@ == overlay(old(self)@, 2, be_bytes(offset as nat, 8)),
            offset_of(final(self)@) == offset,
    {
        let field: [u8; 8] = write_u64(offset);
        self.put(2, field.as_slice());
        proof {
            lemma_be_bytes_len(offset as nat, 8);
            lemma_radix_words();
            lemma_be_value_of_bytes(offset as nat, 8);
            assert(self@.subrange(2, 10) =~= be_bytes(offset as nat, 8));
        }
    }

    /// Stores the length of the payload.
    pub fn write_size(&mut self, size: u64)
        ensures
            final(self)@ == overlay(old(self)@, 10, be_bytes(size as nat, 8)),
            size_of(final(self)@) == size,
    {
        let field: [u8; 8] = write_u64(size);
        self.put(10, field.as_slice());
        proof {
            lemma_be_bytes_len(size as nat, 8);
            lemma_radix_words();
            lemma_be_value_of_bytes(size as nat, 8);
            assert(self@.subrange(10, 18) =~= be_bytes(size as nat, 8));
        }
    }

    /// Stores the checksum of the payload.
    pub fn write_crc32(&mut self, crc32: u32)
        ensures
            final(self)@ == overlay(old(self)@, 18, be_bytes(crc32 as nat, 4)),
            crc32_of(final(self)@) == crc32,
    {
        let field: [u8; 4] = write_u32(crc32);
        self.put(18, field.as_slice());
        proof {
            lemma_be_bytes_len(crc32 as nat, 4);
            lemma_radix_words();
            lemma_be_value_of_bytes(crc32 as nat, 4);
            assert(self@.subrange(18, 22) =~= be_bytes(crc32 as nat, 4));
        }
    }

    /// The 22 bytes.
    pub fn bytes(&self) -> (all: &[u8])
        ensures
            all@ == self@,
            all@.len() == OVERHEAD_SIZE,
    {
        self.bytes.as_slice()
    }

    /// The offset of the payload.
    pub fn offset(&self) -> (offset: u64)
        ensures
            offset == offset_of(self@),
    {
        let all: &[u8] = self.bytes.as_slice();
        let field: &[u8] = &all[2..10];
        proof {
            assert(field@.subrange(0, 8) =~= self@.subrange(2, 10));
        }
        read_u64(field)
    }

    /// The length of the payload.
    pub fn size(&self) -> (size: u64)
        ensures
            size == size_of(self@),
    {
        let all: &[u8] = self.bytes.as_slice();
        let field: &[u8] = &all[10..18];
        proof {
            assert(field@.subrange(0, 8) =~= self@.subrange(10, 18));
        }
        read_u64(field)
    }

    /// The checksum of the payload.
    pub fn crc32(&self) -> (crc32: u32)
        ensures
            crc32 == crc32_of(self@),
    {
        let all: &[u8] = self.bytes.as_slice();
        let field: &[u8] = &all[18..22];
        proof {
            assert(field@.subrange(0, 4) =~= self@.subrange(18, 22));
        }
        read_u32(field)
    }

    /// Checks `entry`, the payload that was read for this descriptor, against
    /// the checksum that the descriptor holds, where `check_crc32` asks for it.
    pub fn verify(&self, entry: &[u8], check_crc32: bool) -> (result: Result<(), Error>)
        ensures
            result == checked(self@, entry@, check_crc32),
    {
        if check_crc32 && checksum_ieee(entry) != self.crc32() {
            Err(Error::Checksum)
        } else {
            Ok(())
        }
    }

    /// Whether the marker is set.
    pub fn valid(&self) -> (valid: bool)
        ensures
            valid == marked(self@),
    {
        self.bytes[0] == 0x01 && self.bytes[1] == 0xff
    }

    /// Takes the first 22 bytes of `src`, if it has that many.
    pub fn copy_bytes(&mut self, src: &[u8]) -> (copied: bool)
        ensures
            copied == (src@.len() >= OVERHEAD_SIZE),
            copied ==> final(self)@ == src@.subrange(0, OVERHEAD_SIZE as int),
            !copied ==> final(self)@ == old(self)@,
    {
        if src.len() < 22 {
            return false;
        }
        self.put(0, &src[0..22]);
        assert(self@ =~= src@.subrange(0, OVERHEAD_SIZE as int));
        return true;
    }

    /// Clears all 22 bytes.
    pub fn reset(&mut self)
        ensures
            final(self)@ == zeros(OVERHEAD_SIZE as nat),
    {
        let empty: [u8; 22] = [0; 22];
        self.copy_bytes(empty.as_slice());
        assert(self@ =~= zeros(OVERHEAD_SIZE as nat));
    }

    /// Reads a descriptor from the front of `src`. Where `src` ends before
    /// the 22nd byte nothing is taken from it.
    pub fn read_from(&mut self, src: &[u8]) -> (read: Result<(), Error>)
        ensures
            src@.len() >= OVERHEAD_SIZE ==> read == Ok::<(), Error>(())
                && final(self)@ == src@.subrange(0, OVERHEAD_SIZE as int),
            src@.len() < OVERHEAD_SIZE ==> read == Err::<(), Error>(Error::UnexpectedEof)
                && final(self)@ == old(self)@,
    {
        if self.copy_bytes(src) {
            Ok(())
        } else {
            Err(Error::UnexpectedEof)
        }
    }
}

} // verus!
