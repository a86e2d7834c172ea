//! The checksum carried by metadata records.

use vstd::prelude::*;

verus! {

/// The CRC-32 (IEEE) of a byte sequence, as the outside checksum crate
/// computes it.
pub uninterp spec fn crc32_of(data: Seq<u8>) -> u32;

/// Relies on `crc32fast::hash`: the CRC-32 (IEEE) of the input bytes,
/// a function of the bytes alone.
#[verifier::external_body]
pub(crate) fn crc32(data: &[u8]) -> (r: u32)
    ensures
        r == crc32_of(data@),
{
    crc32fast::hash(data)
}

/// The CRC-32 of a file's contents, as recorded in its metadata.
pub fn file_checksum(contents: &[u8]) -> (r: u32)
    ensures
        r == crc32_of(contents@),
{
    crc32(contents)
}

} // verus!
