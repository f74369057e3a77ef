use vstd::prelude::*;

verus! {

/// The CRC-32 (IEEE) digest of a byte sequence, named but not spelled out:
/// the engine relies on the checksum only as a deterministic function of the
/// bytes it covers.
pub uninterp spec fn crc32_of(data: Seq<u8>) -> u32;

/// Relies on crc32fast::hash: the CRC-32 (IEEE) checksum of the byte slice,
/// a function of those bytes alone.
#[verifier::external_body]
pub(crate) fn crc32(data: &[u8]) -> (r: u32)
    ensures
        r == crc32_of(data@),
{
    crc32fast::hash(data)
}

} // verus!
