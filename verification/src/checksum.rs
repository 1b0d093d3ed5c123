//! The hashing engine's computation: CRC32 over a fully loaded byte
//! source. Opening and memory-mapping a file is the caller's business;
//! the library only sees the mapped bytes.

use vstd::prelude::*;

verus! {

/// The CRC32 checksum of a byte sequence, in the zlib/gzip
/// parameterization (reflected polynomial 0xEDB88320, initial value
/// 0xFFFFFFFF, final XOR 0xFFFFFFFF) — the value `crc32fast` computes.
pub uninterp spec fn crc32_of(b: Seq<u8>) -> u32;

/// Relies on crc32fast::hash: a table-driven CRC32 that is a function of
/// the buffer's bytes alone; the empty buffer hashes to 0.
#[verifier::external_body]
fn crc32_raw(data: &[u8]) -> (r: u32)
    ensures
        r == crc32_of(data@),
        data@.len() == 0 ==> r == 0,
{
    crc32fast::hash(data)
}

/// Checksum of a byte source whose content has been mapped into memory.
pub fn hash_bytes(data: &[u8]) -> (r: u32)
    ensures
        r == crc32_of(data@),
        data@.len() == 0 ==> r == 0,
{
    crc32_raw(data)
}

} // verus!
