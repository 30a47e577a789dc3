use vstd::prelude::*;

verus! {

/// The CRC-32 digest of a byte sequence, as `crc32fast::hash` computes
/// it.  Deterministic and order-sensitive; a function of the bytes
/// alone.
pub uninterp spec fn crc32_of(data: Seq<u8>) -> u32;

/// Relies on `crc32fast::hash`: the digest depends on the input bytes
/// alone.
#[verifier::external_body]
fn crc32_hash(data: &Vec<u8>) -> (digest: u32)
    ensures
        digest == crc32_of(data@),
{
    crc32fast::hash(data)
}

/// Computes the integrity digest stored after each payload.  The same
/// function is used when a frame is written and when it is read back.
pub fn checksum(data: &Vec<u8>) -> (digest: u32)
    ensures
        digest == crc32_of(data@),
{
    crc32_hash(data)
}

} // verus!
