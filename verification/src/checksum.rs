//! Entry checksums.
//!
//! Every on-disk entry header carries a CRC32 of the entry's key and value
//! bytes. The store only needs that the checksum is a pure function of those
//! bytes: equal payloads give equal checksums, so a stored checksum that
//! matches a recomputed one certifies the payload read back. The CRC32
//! computation itself is delegated to an outside implementation and its
//! result is only named here, never respecified.

use vstd::prelude::*;

verus! {

/// The CRC32 (IEEE) of a byte sequence, as computed by `crc32fast::hash`.
pub uninterp spec fn crc32_of(bytes: Seq<u8>) -> u32;

/// Relies on `crc32fast::hash`: the CRC32 depends on the input bytes alone.
#[verifier::external_body]
pub fn crc32(bytes: &[u8]) -> (r: u32)
    ensures
        r == crc32_of(bytes@),
{
    crc32fast::hash(bytes)
}

} // verus!
