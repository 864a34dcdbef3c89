//! The checksum that guards each payload.

use vstd::prelude::*;

verus! {

/// The CRC-32 of `data` with the IEEE polynomial.
pub uninterp spec fn crc32_ieee(data: Seq<u8>) -> u32;

/// `crc32::checksum_ieee` of the crc crate: the CRC-32 of `data`, computed
/// from the bytes alone with the table of the IEEE polynomial.
#[verifier::external_body]
pub(crate) fn checksum_ieee(data: &[u8]) -> (sum: u32)
    ensures
        sum == crc32_ieee(data@),
{
    crc::crc32::checksum_ieee(data)
}

} // verus!
