//! The on-disk entry format.
//!
//! Each entry is laid out, little-endian, as a fixed 24-byte header
//! (`magic`, `checksum`, `sequence`, `key_len`, `value_len`) followed by the
//! key bytes and the value bytes; within a region, the next entry starts at
//! the next alignment boundary. The checksum is the CRC32 of key and value
//! bytes. A decoded entry is accepted only if the magic, the length fields,
//! and the checksum all validate, so a read can never yield a torn value.
//!
//! Keys here are 64-bit and occupy a fixed 8 bytes in the entry.

use vstd::prelude::*;
use vstd::bytes::{
    lemma_auto_spec_u32_to_from_le_bytes, lemma_auto_spec_u64_to_from_le_bytes,
    spec_u32_to_le_bytes, spec_u32_from_le_bytes, spec_u64_to_le_bytes, spec_u64_from_le_bytes,
    u32_from_le_bytes, u32_to_le_bytes, u64_from_le_bytes, u64_to_le_bytes,
};
use vstd::slice::slice_subrange;
use crate::checksum::{crc32, crc32_of};

verus! {

/// Magic number opening every entry header.
pub const ENTRY_MAGIC: u32 = 0x464F5945;

/// Bytes of the fixed entry header.
pub const ENTRY_HEADER_LEN: usize = 24;

/// Bytes of an encoded key within an entry.
pub const ENTRY_KEY_LEN: usize = 8;

/// Total encoded length of an entry holding a value of `value_len` bytes.
pub open spec fn spec_entry_len(value_len: nat) -> nat {
    ENTRY_HEADER_LEN as nat + ENTRY_KEY_LEN as nat + value_len
}

/// The encoded bytes of an entry: header, then key, then value.
pub open spec fn spec_entry_bytes(key: u64, value: Seq<u8>, seq_no: u64) -> Seq<u8> {
    spec_u32_to_le_bytes(ENTRY_MAGIC) + spec_u32_to_le_bytes(
        crc32_of(spec_u64_to_le_bytes(key) + value),
    ) + spec_u64_to_le_bytes(seq_no) + spec_u32_to_le_bytes(ENTRY_KEY_LEN as u32)
        + spec_u32_to_le_bytes(value.len() as u32) + spec_u64_to_le_bytes(key) + value
}

/// Whether `bytes` is exactly one well-formed entry: magic, lengths and
/// checksum all validate.
pub open spec fn spec_entry_ok(bytes: Seq<u8>) -> bool {
    &&& bytes.len() >= spec_entry_len(0)
    &&& bytes.len() - spec_entry_len(0) <= u32::MAX
    &&& spec_u32_from_le_bytes(bytes.subrange(0, 4)) == ENTRY_MAGIC
    &&& spec_u32_from_le_bytes(bytes.subrange(16, 20)) == ENTRY_KEY_LEN
    &&& spec_u32_from_le_bytes(bytes.subrange(20, 24)) == bytes.len() - spec_entry_len(0)
    &&& spec_u32_from_le_bytes(bytes.subrange(4, 8)) == crc32_of(
        bytes.subrange(24, bytes.len() as int),
    )
}

/// The key of a well-formed entry.
pub open spec fn spec_entry_key(bytes: Seq<u8>) -> u64 {
    spec_u64_from_le_bytes(bytes.subrange(24, 32))
}

/// The value bytes of a well-formed entry.
pub open spec fn spec_entry_value(bytes: Seq<u8>) -> Seq<u8> {
    bytes.subrange(32, bytes.len() as int)
}

/// The sequence number of a well-formed entry.
pub open spec fn spec_entry_seq(bytes: Seq<u8>) -> u64 {
    spec_u64_from_le_bytes(bytes.subrange(8, 16))
}

/// Encoding then decoding an entry gives back exactly what went in.
///
/// Every well-formed encoding is accepted by the decoder, and the decoder's
/// key, value and sequence projections undo the encoder.
pub proof fn lemma_entry_round_trip(key: u64, value: Seq<u8>, seq_no: u64)
    requires
        value.len() <= u32::MAX,
    ensures
        spec_entry_bytes(key, value, seq_no).len() == spec_entry_len(value.len()),
        spec_entry_ok(spec_entry_bytes(key, value, seq_no)),
        spec_entry_key(spec_entry_bytes(key, value, seq_no)) == key,
        spec_entry_value(spec_entry_bytes(key, value, seq_no)) == value,
        spec_entry_seq(spec_entry_bytes(key, value, seq_no)) == seq_no,
{
    lemma_auto_spec_u32_to_from_le_bytes();
    lemma_auto_spec_u64_to_from_le_bytes();
    let bytes = spec_entry_bytes(key, value, seq_no);
    assert(bytes.subrange(0, 4) =~= spec_u32_to_le_bytes(ENTRY_MAGIC));
    assert(bytes.subrange(4, 8) =~= spec_u32_to_le_bytes(
        crc32_of(spec_u64_to_le_bytes(key) + value),
    ));
    assert(bytes.subrange(8, 16) =~= spec_u64_to_le_bytes(seq_no));
    assert(bytes.subrange(16, 20) =~= spec_u32_to_le_bytes(ENTRY_KEY_LEN as u32));
    assert(bytes.subrange(20, 24) =~= spec_u32_to_le_bytes(value.len() as u32));
    assert(bytes.subrange(24, 32) =~= spec_u64_to_le_bytes(key));
    assert(bytes.subrange(32, bytes.len() as int) =~= value);
    assert(bytes.subrange(24, bytes.len() as int) =~= spec_u64_to_le_bytes(key) + value);
}

/// Builds the encoded bytes of one entry.
pub fn build_entry(key: u64, value: &Vec<u8>, seq_no: u64) -> (r: Vec<u8>)
    requires
        value@.len() <= u32::MAX,
    ensures
        r@ == spec_entry_bytes(key, value@, seq_no),
        r@.len() == spec_entry_len(value@.len()),
{
    proof {
        lemma_auto_spec_u32_to_from_le_bytes();
        lemma_auto_spec_u64_to_from_le_bytes();
    }
    let mut kv = u64_to_le_bytes(key);
    kv.extend_from_slice(value.as_slice());
    assert(kv@ =~= spec_u64_to_le_bytes(key) + value@);
    let checksum = crc32(kv.as_slice());

    let mut r = u32_to_le_bytes(ENTRY_MAGIC);
    let mut part = u32_to_le_bytes(checksum);
    r.append(&mut part);
    let mut part = u64_to_le_bytes(seq_no);
    r.append(&mut part);
    let mut part = u32_to_le_bytes(ENTRY_KEY_LEN as u32);
    r.append(&mut part);
    let mut part = u32_to_le_bytes(value.len() as u32);
    r.append(&mut part);
    r.append(&mut kv);
    assert(r@ =~= spec_entry_bytes(key, value@, seq_no));
    r
}

/// Decodes exactly one entry from `buf`, accepting it only if the magic,
/// the length fields and the checksum validate.
pub fn decode_entry(buf: &[u8]) -> (r: Option<(u64, Vec<u8>, u64)>)
    ensures
        r.is_some() <==> spec_entry_ok(buf@),
        r matches Some((key, value, seq_no)) ==> {
            &&& key == spec_entry_key(buf@)
            &&& value@ == spec_entry_value(buf@)
            &&& seq_no == spec_entry_seq(buf@)
        },
{
    proof {
        lemma_auto_spec_u32_to_from_le_bytes();
        lemma_auto_spec_u64_to_from_le_bytes();
    }
    if buf.len() < 32 {
        return None;
    }
    let magic = u32_from_le_bytes(slice_subrange(buf, 0, 4));
    if magic != ENTRY_MAGIC {
        return None;
    }
    let key_len = u32_from_le_bytes(slice_subrange(buf, 16, 20));
    if key_len != ENTRY_KEY_LEN as u32 {
        return None;
    }
    let value_len = u32_from_le_bytes(slice_subrange(buf, 20, 24));
    if buf.len() - 32 > u32::MAX as usize || value_len as usize != buf.len() - 32 {
        return None;
    }
    let stored = u32_from_le_bytes(slice_subrange(buf, 4, 8));
    let payload = slice_subrange(buf, 24, buf.len());
    let computed = crc32(payload);
    if stored != computed {
        return None;
    }
    let key = u64_from_le_bytes(slice_subrange(buf, 24, 32));
    let seq_no = u64_from_le_bytes(slice_subrange(buf, 8, 16));
    let value = crate::code::read_bytes(buf, 32, buf.len() - 32);
    Some((key, value, seq_no))
}

} // verus!
