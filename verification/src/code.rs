//! Serialization contracts for keys and values.
//!
//! A `Key` or `Value` type fixes its byte encoding through the spec function
//! `encoded`; `serialized_len`, `write` and `read` are proved against it.
//! The store's entry format then speaks of `encoded` sequences only.

use vstd::prelude::*;
use vstd::bytes::{
    lemma_auto_spec_u16_to_from_le_bytes, lemma_auto_spec_u32_to_from_le_bytes,
    lemma_auto_spec_u64_to_from_le_bytes, spec_u16_to_le_bytes, spec_u32_to_le_bytes,
    spec_u64_to_le_bytes, u16_from_le_bytes, u16_to_le_bytes, u32_from_le_bytes, u32_to_le_bytes,
    u64_from_le_bytes, u64_to_le_bytes,
};

verus! {

/// Overwrites `buf[at .. at + src.len()]` with `src`, leaving the rest.
pub fn write_bytes(buf: &mut Vec<u8>, at: usize, src: &[u8])
    requires
        at + src@.len() <= old(buf)@.len(),
    ensures
        final(buf)@.len() == old(buf)@.len(),
        final(buf)@ == old(buf)@.take(at as int) + src@ + old(buf)@.skip(at + src@.len()),
{
    let total: usize = buf.len();
    let mut i: usize = 0;
    while i < src.len()
        invariant
            i <= src@.len(),
            at + src@.len() <= buf@.len(),
            buf@.len() == total,
            buf@.len() == old(buf)@.len(),
            forall|j: int| 0 <= j < at ==> buf@[j] == old(buf)@[j],
            forall|j: int| at <= j < at + i ==> buf@[j] == src@[j - at],
            forall|j: int| at + src@.len() <= j < buf@.len() ==> buf@[j] == old(buf)@[j],
        decreases src@.len() - i,
    {
        let b = src[i];
        buf.set(at + i, b);
        i = i + 1;
    }
    assert(buf@ =~= old(buf)@.take(at as int) + src@ + old(buf)@.skip(at + src@.len()));
}

/// Copies `buf[at .. at + len]` out into a fresh vector.
pub fn read_bytes(buf: &[u8], at: usize, len: usize) -> (r: Vec<u8>)
    requires
        at + len <= buf@.len(),
    ensures
        r@ == buf@.subrange(at as int, at + len),
{
    let total: usize = buf.len();
    let mut r: Vec<u8> = Vec::new();
    let mut i: usize = 0;
    while i < len
        invariant
            i <= len,
            buf@.len() == total,
            at + len <= buf@.len(),
            r@ == buf@.subrange(at as int, at + i),
        decreases len - i,
    {
        r.push(buf[at + i]);
        assert(r@ =~= buf@.subrange(at as int, at + i + 1));
        i = i + 1;
    }
    r
}

/// A key of the store: hashable, ordered, cloneable, with a byte encoding.
///
/// `encoded` fixes the encoding; the executable methods are proved against
/// it, so two keys with the same encoding are indistinguishable on disk.
pub trait Key: Sized + Clone + PartialEq + Eq + PartialOrd + Ord + core::hash::Hash + core::fmt::Debug {
    /// The byte encoding of this key.
    spec fn encoded(&self) -> Seq<u8>;

    /// Whether `read` accepts `buf` as a complete encoding.
    spec fn read_ok(buf: Seq<u8>) -> bool;

    /// Bytes this key accounts for in admission and rate limiting.
    fn weight(&self) -> (n: usize)
        ensures
            n == self.encoded().len(),
    ;

    /// Length of the byte encoding.
    fn serialized_len(&self) -> (n: usize)
        ensures
            n == self.encoded().len(),
    ;

    /// Writes the encoding into `buf` at offset `at`.
    fn write(&self, buf: &mut Vec<u8>, at: usize)
        requires
            at + self.encoded().len() <= old(buf)@.len(),
        ensures
            final(buf)@.len() == old(buf)@.len(),
            final(buf)@ == old(buf)@.take(at as int) + self.encoded() + old(buf)@.skip(
                at + self.encoded().len(),
            ),
    ;

    /// Reads a key back from exactly its encoded bytes.
    fn read(buf: &[u8]) -> (r: Self)
        requires
            Self::read_ok(buf@),
        ensures
            r.encoded() == buf@,
    ;
}

/// A value of the store, with a byte encoding; same contract shape as [`Key`].
pub trait Value: Sized + core::fmt::Debug {
    /// The byte encoding of this value.
    spec fn encoded(&self) -> Seq<u8>;

    /// Whether `read` accepts `buf` as a complete encoding.
    spec fn read_ok(buf: Seq<u8>) -> bool;

    /// Bytes this value accounts for in admission and rate limiting.
    fn weight(&self) -> (n: usize)
        ensures
            n == self.encoded().len(),
    ;

    /// Length of the byte encoding.
    fn serialized_len(&self) -> (n: usize)
        ensures
            n == self.encoded().len(),
    ;

    /// Writes the encoding into `buf` at offset `at`.
    fn write(&self, buf: &mut Vec<u8>, at: usize)
        requires
            at + self.encoded().len() <= old(buf)@.len(),
        ensures
            final(buf)@.len() == old(buf)@.len(),
            final(buf)@ == old(buf)@.take(at as int) + self.encoded() + old(buf)@.skip(
                at + self.encoded().len(),
            ),
    ;

    /// Reads a value back from exactly its encoded bytes.
    fn read(buf: &[u8]) -> (r: Self)
        requires
            Self::read_ok(buf@),
        ensures
            r.encoded() == buf@,
    ;
}

impl Key for u64 {
    open spec fn encoded(&self) -> Seq<u8> {
        spec_u64_to_le_bytes(*self)
    }

    open spec fn read_ok(buf: Seq<u8>) -> bool {
        buf.len() == 8
    }

    fn weight(&self) -> (n: usize)
    {
        proof { lemma_auto_spec_u64_to_from_le_bytes(); }
        8
    }

    fn serialized_len(&self) -> (n: usize)
    {
        proof { lemma_auto_spec_u64_to_from_le_bytes(); }
        8
    }

    fn write(&self, buf: &mut Vec<u8>, at: usize)
    {
        proof { lemma_auto_spec_u64_to_from_le_bytes(); }
        let bytes = u64_to_le_bytes(*self);
        write_bytes(buf, at, bytes.as_slice());
    }

    fn read(buf: &[u8]) -> (r: Self)
    {
        proof { lemma_auto_spec_u64_to_from_le_bytes(); }
        u64_from_le_bytes(buf)
    }
}

impl Key for u8 {
    open spec fn encoded(&self) -> Seq<u8> {
        seq![*self]
    }

    open spec fn read_ok(buf: Seq<u8>) -> bool {
        buf.len() == 1
    }

    fn weight(&self) -> (n: usize)
    {
        1
    }

    fn serialized_len(&self) -> (n: usize)
    {
        1
    }

    fn write(&self, buf: &mut Vec<u8>, at: usize)
    {
        buf.set(at, *self);
        assert(buf@ =~= old(buf)@.take(at as int) + <u8 as Key>::encoded(self) + old(buf)@.skip(
            at + 1,
        ));
    }

    fn read(buf: &[u8]) -> (r: Self)
    {
        let r = buf[0];
        assert(seq![r] =~= buf@);
        r
    }
}

impl Key for u16 {
    open spec fn encoded(&self) -> Seq<u8> {
        spec_u16_to_le_bytes(*self)
    }

    open spec fn read_ok(buf: Seq<u8>) -> bool {
        buf.len() == 2
    }

    fn weight(&self) -> (n: usize)
    {
        proof { lemma_auto_spec_u16_to_from_le_bytes(); }
        2
    }

    fn serialized_len(&self) -> (n: usize)
    {
        proof { lemma_auto_spec_u16_to_from_le_bytes(); }
        2
    }

    fn write(&self, buf: &mut Vec<u8>, at: usize)
    {
        proof { lemma_auto_spec_u16_to_from_le_bytes(); }
        let bytes = u16_to_le_bytes(*self);
        write_bytes(buf, at, bytes.as_slice());
    }

    fn read(buf: &[u8]) -> (r: Self)
    {
        proof { lemma_auto_spec_u16_to_from_le_bytes(); }
        u16_from_le_bytes(buf)
    }
}

impl Key for u32 {
    open spec fn encoded(&self) -> Seq<u8> {
        spec_u32_to_le_bytes(*self)
    }

    open spec fn read_ok(buf: Seq<u8>) -> bool {
        buf.len() == 4
    }

    fn weight(&self) -> (n: usize)
    {
        proof { lemma_auto_spec_u32_to_from_le_bytes(); }
        4
    }

    fn serialized_len(&self) -> (n: usize)
    {
        proof { lemma_auto_spec_u32_to_from_le_bytes(); }
        4
    }

    fn write(&self, buf: &mut Vec<u8>, at: usize)
    {
        proof { lemma_auto_spec_u32_to_from_le_bytes(); }
        let bytes = u32_to_le_bytes(*self);
        write_bytes(buf, at, bytes.as_slice());
    }

    fn read(buf: &[u8]) -> (r: Self)
    {
        proof { lemma_auto_spec_u32_to_from_le_bytes(); }
        u32_from_le_bytes(buf)
    }
}

impl Value for u8 {
    open spec fn encoded(&self) -> Seq<u8> {
        seq![*self]
    }

    open spec fn read_ok(buf: Seq<u8>) -> bool {
        buf.len() == 1
    }

    fn weight(&self) -> (n: usize)
    {
        1
    }

    fn serialized_len(&self) -> (n: usize)
    {
        1
    }

    fn write(&self, buf: &mut Vec<u8>, at: usize)
    {
        buf.set(at, *self);
        assert(buf@ =~= old(buf)@.take(at as int) + <u8 as Value>::encoded(self) + old(buf)@.skip(
            at + 1,
        ));
    }

    fn read(buf: &[u8]) -> (r: Self)
    {
        let r = buf[0];
        assert(seq![r] =~= buf@);
        r
    }
}

impl Value for u16 {
    open spec fn encoded(&self) -> Seq<u8> {
        spec_u16_to_le_bytes(*self)
    }

    open spec fn read_ok(buf: Seq<u8>) -> bool {
        buf.len() == 2
    }

    fn weight(&self) -> (n: usize)
    {
        proof { lemma_auto_spec_u16_to_from_le_bytes(); }
        2
    }

    fn serialized_len(&self) -> (n: usize)
    {
        proof { lemma_auto_spec_u16_to_from_le_bytes(); }
        2
    }

    fn write(&self, buf: &mut Vec<u8>, at: usize)
    {
        proof { lemma_auto_spec_u16_to_from_le_bytes(); }
        let bytes = u16_to_le_bytes(*self);
        write_bytes(buf, at, bytes.as_slice());
    }

    fn read(buf: &[u8]) -> (r: Self)
    {
        proof { lemma_auto_spec_u16_to_from_le_bytes(); }
        u16_from_le_bytes(buf)
    }
}

impl Value for u32 {
    open spec fn encoded(&self) -> Seq<u8> {
        spec_u32_to_le_bytes(*self)
    }

    open spec fn read_ok(buf: Seq<u8>) -> bool {
        buf.len() == 4
    }

    fn weight(&self) -> (n: usize)
    {
        proof { lemma_auto_spec_u32_to_from_le_bytes(); }
        4
    }

    fn serialized_len(&self) -> (n: usize)
    {
        proof { lemma_auto_spec_u32_to_from_le_bytes(); }
        4
    }

    fn write(&self, buf: &mut Vec<u8>, at: usize)
    {
        proof { lemma_auto_spec_u32_to_from_le_bytes(); }
        let bytes = u32_to_le_bytes(*self);
        write_bytes(buf, at, bytes.as_slice());
    }

    fn read(buf: &[u8]) -> (r: Self)
    {
        proof { lemma_auto_spec_u32_to_from_le_bytes(); }
        u32_from_le_bytes(buf)
    }
}

impl Value for u64 {
    open spec fn encoded(&self) -> Seq<u8> {
        spec_u64_to_le_bytes(*self)
    }

    open spec fn read_ok(buf: Seq<u8>) -> bool {
        buf.len() == 8
    }

    fn weight(&self) -> (n: usize)
    {
        proof { lemma_auto_spec_u64_to_from_le_bytes(); }
        8
    }

    fn serialized_len(&self) -> (n: usize)
    {
        proof { lemma_auto_spec_u64_to_from_le_bytes(); }
        8
    }

    fn write(&self, buf: &mut Vec<u8>, at: usize)
    {
        proof { lemma_auto_spec_u64_to_from_le_bytes(); }
        let bytes = u64_to_le_bytes(*self);
        write_bytes(buf, at, bytes.as_slice());
    }

    fn read(buf: &[u8]) -> (r: Self)
    {
        proof { lemma_auto_spec_u64_to_from_le_bytes(); }
        u64_from_le_bytes(buf)
    }
}

impl Key for i8 {
    open spec fn encoded(&self) -> Seq<u8> {
        seq![*self as u8]
    }

    open spec fn read_ok(buf: Seq<u8>) -> bool {
        buf.len() == 1
    }

    fn weight(&self) -> (n: usize)
    {
        1
    }

    fn serialized_len(&self) -> (n: usize)
    {
        1
    }

    fn write(&self, buf: &mut Vec<u8>, at: usize)
    {
        buf.set(at, *self as u8);
        assert(buf@ =~= old(buf)@.take(at as int) + <i8 as Key>::encoded(self)
            + old(buf)@.skip(at + 1));
    }

    fn read(buf: &[u8]) -> (r: Self)
    {
        let b = buf[0];
        let r = b as i8;
        proof {
            assert(b as i8 as u8 == b) by (bit_vector);
            assert(seq![r as u8] =~= buf@);
        }
        r
    }
}

impl Key for i16 {
    open spec fn encoded(&self) -> Seq<u8> {
        spec_u16_to_le_bytes(*self as u16)
    }

    open spec fn read_ok(buf: Seq<u8>) -> bool {
        buf.len() == 2
    }

    fn weight(&self) -> (n: usize)
    {
        proof { lemma_auto_spec_u16_to_from_le_bytes(); }
        2
    }

    fn serialized_len(&self) -> (n: usize)
    {
        proof { lemma_auto_spec_u16_to_from_le_bytes(); }
        2
    }

    fn write(&self, buf: &mut Vec<u8>, at: usize)
    {
        proof { lemma_auto_spec_u16_to_from_le_bytes(); }
        let bytes = u16_to_le_bytes(*self as u16);
        write_bytes(buf, at, bytes.as_slice());
    }

    fn read(buf: &[u8]) -> (r: Self)
    {
        proof { lemma_auto_spec_u16_to_from_le_bytes(); }
        let x = u16_from_le_bytes(buf);
        let r = x as i16;
        proof {
            assert(x as i16 as u16 == x) by (bit_vector);
        }
        r
    }
}

impl Key for i32 {
    open spec fn encoded(&self) -> Seq<u8> {
        spec_u32_to_le_bytes(*self as u32)
    }

    open spec fn read_ok(buf: Seq<u8>) -> bool {
        buf.len() == 4
    }

    fn weight(&self) -> (n: usize)
    {
        proof { lemma_auto_spec_u32_to_from_le_bytes(); }
        4
    }

    fn serialized_len(&self) -> (n: usize)
    {
        proof { lemma_auto_spec_u32_to_from_le_bytes(); }
        4
    }

    fn write(&self, buf: &mut Vec<u8>, at: usize)
    {
        proof { lemma_auto_spec_u32_to_from_le_bytes(); }
        let bytes = u32_to_le_bytes(*self as u32);
        write_bytes(buf, at, bytes.as_slice());
    }

    fn read(buf: &[u8]) -> (r: Self)
    {
        proof { lemma_auto_spec_u32_to_from_le_bytes(); }
        let x = u32_from_le_bytes(buf);
        let r = x as i32;
        proof {
            assert(x as i32 as u32 == x) by (bit_vector);
        }
        r
    }
}

impl Key for i64 {
    open spec fn encoded(&self) -> Seq<u8> {
        spec_u64_to_le_bytes(*self as u64)
    }

    open spec fn read_ok(buf: Seq<u8>) -> bool {
        buf.len() == 8
    }

    fn weight(&self) -> (n: usize)
    {
        proof { lemma_auto_spec_u64_to_from_le_bytes(); }
        8
    }

    fn serialized_len(&self) -> (n: usize)
    {
        proof { lemma_auto_spec_u64_to_from_le_bytes(); }
        8
    }

    fn write(&self, buf: &mut Vec<u8>, at: usize)
    {
        proof { lemma_auto_spec_u64_to_from_le_bytes(); }
        let bytes = u64_to_le_bytes(*self as u64);
        write_bytes(buf, at, bytes.as_slice());
    }

    fn read(buf: &[u8]) -> (r: Self)
    {
        proof { lemma_auto_spec_u64_to_from_le_bytes(); }
        let x = u64_from_le_bytes(buf);
        let r = x as i64;
        proof {
            assert(x as i64 as u64 == x) by (bit_vector);
        }
        r
    }
}

impl Value for i8 {
    open spec fn encoded(&self) -> Seq<u8> {
        seq![*self as u8]
    }

    open spec fn read_ok(buf: Seq<u8>) -> bool {
        buf.len() == 1
    }

    fn weight(&self) -> (n: usize)
    {
        1
    }

    fn serialized_len(&self) -> (n: usize)
    {
        1
    }

    fn write(&self, buf: &mut Vec<u8>, at: usize)
    {
        buf.set(at, *self as u8);
        assert(buf@ =~= old(buf)@.take(at as int) + <i8 as Value>::encoded(self)
            + old(buf)@.skip(at + 1));
    }

    fn read(buf: &[u8]) -> (r: Self)
    {
        let b = buf[0];
        let r = b as i8;
        proof {
            assert(b as i8 as u8 == b) by (bit_vector);
            assert(seq![r as u8] =~= buf@);
        }
        r
    }
}

impl Value for i16 {
    open spec fn encoded(&self) -> Seq<u8> {
        spec_u16_to_le_bytes(*self as u16)
    }

    open spec fn read_ok(buf: Seq<u8>) -> bool {
        buf.len() == 2
    }

    fn weight(&self) -> (n: usize)
    {
        proof { lemma_auto_spec_u16_to_from_le_bytes(); }
        2
    }

    fn serialized_len(&self) -> (n: usize)
    {
        proof { lemma_auto_spec_u16_to_from_le_bytes(); }
        2
    }

    fn write(&self, buf: &mut Vec<u8>, at: usize)
    {
        proof { lemma_auto_spec_u16_to_from_le_bytes(); }
        let bytes = u16_to_le_bytes(*self as u16);
        write_bytes(buf, at, bytes.as_slice());
    }

    fn read(buf: &[u8]) -> (r: Self)
    {
        proof { lemma_auto_spec_u16_to_from_le_bytes(); }
        let x = u16_from_le_bytes(buf);
        let r = x as i16;
        proof {
            assert(x as i16 as u16 == x) by (bit_vector);
        }
        r
    }
}

impl Value for i32 {
    open spec fn encoded(&self) -> Seq<u8> {
        spec_u32_to_le_bytes(*self as u32)
    }

    open spec fn read_ok(buf: Seq<u8>) -> bool {
        buf.len() == 4
    }

    fn weight(&self) -> (n: usize)
    {
        proof { lemma_auto_spec_u32_to_from_le_bytes(); }
        4
    }

    fn serialized_len(&self) -> (n: usize)
    {
        proof { lemma_auto_spec_u32_to_from_le_bytes(); }
        4
    }

    fn write(&self, buf: &mut Vec<u8>, at: usize)
    {
        proof { lemma_auto_spec_u32_to_from_le_bytes(); }
        let bytes = u32_to_le_bytes(*self as u32);
        write_bytes(buf, at, bytes.as_slice());
    }

    fn read(buf: &[u8]) -> (r: Self)
    {
        proof { lemma_auto_spec_u32_to_from_le_bytes(); }
        let x = u32_from_le_bytes(buf);
        let r = x as i32;
        proof {
            assert(x as i32 as u32 == x) by (bit_vector);
        }
        r
    }
}

impl Value for i64 {
    open spec fn encoded(&self) -> Seq<u8> {
        spec_u64_to_le_bytes(*self as u64)
    }

    open spec fn read_ok(buf: Seq<u8>) -> bool {
        buf.len() == 8
    }

    fn weight(&self) -> (n: usize)
    {
        proof { lemma_auto_spec_u64_to_from_le_bytes(); }
        8
    }

    fn serialized_len(&self) -> (n: usize)
    {
        proof { lemma_auto_spec_u64_to_from_le_bytes(); }
        8
    }

    fn write(&self, buf: &mut Vec<u8>, at: usize)
    {
        proof { lemma_auto_spec_u64_to_from_le_bytes(); }
        let bytes = u64_to_le_bytes(*self as u64);
        write_bytes(buf, at, bytes.as_slice());
    }

    fn read(buf: &[u8]) -> (r: Self)
    {
        proof { lemma_auto_spec_u64_to_from_le_bytes(); }
        let x = u64_from_le_bytes(buf);
        let r = x as i64;
        proof {
            assert(x as i64 as u64 == x) by (bit_vector);
        }
        r
    }
}

impl Value for Vec<u8> {
    open spec fn encoded(&self) -> Seq<u8> {
        self@
    }

    open spec fn read_ok(buf: Seq<u8>) -> bool {
        true
    }

    fn weight(&self) -> (n: usize)
    {
        self.len()
    }

    fn serialized_len(&self) -> (n: usize)
    {
        self.len()
    }

    fn write(&self, buf: &mut Vec<u8>, at: usize)
    {
        write_bytes(buf, at, self.as_slice());
    }

    fn read(buf: &[u8]) -> (r: Self)
    {
        let r = read_bytes(buf, 0, buf.len());
        assert(r@ =~= buf@);
        r
    }
}

} // verus!
