//! Checksums over byte strings.
use vstd::prelude::*;

verus! {

/// The CRC-32 (IEEE) of a byte string, as `crc32fast::hash` computes it.
pub uninterp spec fn crc32(b: Seq<u8>) -> u32;

/// `crc32fast::hash`: a function of the bytes alone, here named [`crc32`].
#[verifier::external_body]
pub(crate) fn crc32_of(b: &[u8]) -> (r: u32)
    ensures
        r == crc32(b@),
{
    crc32fast::hash(b)
}

} // verus!
