use vstd::prelude::*;

verus! {

/// The CRC-32 (IEEE) code of a byte string.
pub uninterp spec fn crc32_of(data: Seq<u8>) -> u32;

/// Relies on `crc32fast::hash`: the CRC-32 of the bytes, a function of the bytes alone.
#[verifier::external_body]
pub fn calculate_checksum(buf: &Vec<u8>) -> (r: u32)
    ensures
        r == crc32_of(buf@),
{
    crc32fast::hash(buf)
}

} // verus!
