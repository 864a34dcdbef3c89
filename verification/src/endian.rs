//! Big-endian integers: what the bytes of a fixed-width field mean.

use byteorder::{BigEndian, ByteOrder};
use vstd::prelude::*;

verus! {

/// The number that `bytes` spell in base 256, most significant byte first.
pub open spec fn be_value(bytes: Seq<u8>) -> nat
    decreases bytes.len(),
{
    if bytes.len() == 0 {
        0
    } else {
        256 * be_value(bytes.drop_last()) + bytes.last() as nat
    }
}

/// The `width` low-order base-256 digits of `n`, most significant first.
pub open spec fn be_bytes(n: nat, width: nat) -> Seq<u8>
    decreases width,
{
    if width == 0 {
        Seq::empty()
    } else {
        be_bytes(n / 256, (width - 1) as nat).push((n % 256) as u8)
    }
}

/// 256 to the power `width`: the count of numbers that `width` bytes can spell.
pub open spec fn radix(width: nat) -> nat
    decreases width,
{
    if width == 0 {
        1
    } else {
        256 * radix((width - 1) as nat)
    }
}

/// A field of `width` bytes holds `width` bytes.
pub proof fn lemma_be_bytes_len(n: nat, width: nat)
    ensures
        be_bytes(n, width).len() == width,
    decreases width,
{
    if width > 0 {
        lemma_be_bytes_len(n / 256, (width - 1) as nat);
    }
}

/// Decoding an encoded number gives the number back, when the field is wide
/// enough for it.
pub proof fn lemma_be_value_of_bytes(n: nat, width: nat)
    requires
        n < radix(width),
    ensures
        be_value(be_bytes(n, width)) == n,
    decreases width,
{
    if width > 0 {
        let rest = be_bytes(n / 256, (width - 1) as nat);
        lemma_be_value_of_bytes(n / 256, (width - 1) as nat);
        lemma_be_bytes_len(n / 256, (width - 1) as nat);
        assert(be_bytes(n, width).drop_last() =~= rest);
    }
}

/// Eight bytes spell exactly the numbers of `u64`, four those of `u32`.
pub(crate) proof fn lemma_radix_words()
    ensures
        radix(4) == 0x1_0000_0000,
        radix(8) == 0x1_0000_0000_0000_0000,
{
    reveal_with_fuel(radix, 9);
}

/// `BigEndian::write_u64` of byteorder on a buffer of eight bytes, which it
/// fills with the big-endian form of `n`.
#[verifier::external_body]
pub(crate) fn write_u64(n: u64) -> (bytes: [u8; 8])
    ensures
        bytes@ == be_bytes(n as nat, 8),
{
    let mut bytes: [u8; 8] = [0u8; 8];
    BigEndian::write_u64(&mut bytes, n);
    bytes
}

/// `BigEndian::write_u32` of byteorder on a buffer of four bytes, which it
/// fills with the big-endian form of `n`.
#[verifier::external_body]
pub(crate) fn write_u32(n: u32) -> (bytes: [u8; 4])
    ensures
        bytes@ == be_bytes(n as nat, 4),
{
    let mut bytes: [u8; 4] = [0u8; 4];
    BigEndian::write_u32(&mut bytes, n);
    bytes
}

/// `BigEndian::read_u64` of byteorder, which reads the first eight bytes of
/// `bytes` as a big-endian number and panics on a shorter buffer.
#[verifier::external_body]
pub(crate) fn read_u64(bytes: &[u8]) -> (n: u64)
    requires
        bytes@.len() >= 8,
    ensures
        n as nat == be_value(bytes@.subrange(0, 8)),
{
    BigEndian::read_u64(bytes)
}

/// `BigEndian::read_u32` of byteorder, which reads the first four bytes of
/// `bytes` as a big-endian number and panics on a shorter buffer.
#[verifier::external_body]
pub(crate) fn read_u32(bytes: &[u8]) -> (n: u32)
    requires
        bytes@.len() >= 4,
    ensures
        n as nat == be_value(bytes@.subrange(0, 4)),
{
    BigEndian::read_u32(bytes)
}

} // verus!
