//! Plain-value types, and typed access into a mapped region.
//!
//! A plain value ("Pod") is a value every bit pattern of which is valid: it
//! has a fixed byte size and converts losslessly to and from its
//! little-endian bytes. The cast traits read and write such values at a byte
//! offset of a mapped region, in place of unchecked pointer overlays: an
//! explicit decode or encode of the same bytes, alignment-agnostic and
//! bounds-checked by contract.

use crate::region::{region_bytes, region_read, region_write};
use vstd::bytes::{
    lemma_auto_spec_u16_to_from_le_bytes, lemma_auto_spec_u32_to_from_le_bytes,
    lemma_auto_spec_u64_to_from_le_bytes, spec_u16_from_le_bytes, spec_u16_to_le_bytes,
    spec_u32_from_le_bytes, spec_u32_to_le_bytes, spec_u64_from_le_bytes, spec_u64_to_le_bytes,
    u16_from_le_bytes, u16_to_le_bytes, u32_from_le_bytes, u32_to_le_bytes, u64_from_le_bytes,
    u64_to_le_bytes,
};
use vstd::prelude::*;

verus! {

broadcast use vstd::seq::group_seq_axioms;

/// Trait indicating that all bit patterns of a value are valid: the value
/// has a fixed byte size and is in bijection with its little-endian bytes.
pub trait Pod: Sized + Copy {
    /// The encoded size, in bytes.
    spec fn byte_size() -> nat;

    /// The little-endian bytes of this value.
    spec fn to_bytes(self) -> Seq<u8>;

    /// The encoded size, as a machine integer.
    fn exec_byte_size() -> (r: usize)
        ensures
            r == Self::byte_size(),
    ;

    /// Encodes this value as its little-endian bytes.
    fn encode(self) -> (r: Vec<u8>)
        ensures
            r@ == self.to_bytes(),
            r@.len() == Self::byte_size(),
    ;

    /// Reads the value whose encoding `b` is.
    fn read_from(b: &[u8]) -> (r: Self)
        requires
            b@.len() == Self::byte_size(),
        ensures
            r.to_bytes() == b@,
    ;
}

impl Pod for u16 {
    open spec fn byte_size() -> nat {
        2
    }

    open spec fn to_bytes(self) -> Seq<u8> {
        spec_u16_to_le_bytes(self)
    }

    fn exec_byte_size() -> (r: usize) {
        2
    }

    fn encode(self) -> (r: Vec<u8>) {
        u16_to_le_bytes(self)
    }

    fn read_from(b: &[u8]) -> (r: Self) {
        let r = u16_from_le_bytes(b);
        proof {
            lemma_auto_spec_u16_to_from_le_bytes();
            assert(spec_u16_to_le_bytes(spec_u16_from_le_bytes(b@)) == b@);
        }
        r
    }
}

impl Pod for u32 {
    open spec fn byte_size() -> nat {
        4
    }

    open spec fn to_bytes(self) -> Seq<u8> {
        spec_u32_to_le_bytes(self)
    }

    fn exec_byte_size() -> (r: usize) {
        4
    }

    fn encode(self) -> (r: Vec<u8>) {
        u32_to_le_bytes(self)
    }

    fn read_from(b: &[u8]) -> (r: Self) {
        let r = u32_from_le_bytes(b);
        proof {
            lemma_auto_spec_u32_to_from_le_bytes();
            assert(spec_u32_to_le_bytes(spec_u32_from_le_bytes(b@)) == b@);
        }
        r
    }
}

impl Pod for u64 {
    open spec fn byte_size() -> nat {
        8
    }

    open spec fn to_bytes(self) -> Seq<u8> {
        spec_u64_to_le_bytes(self)
    }

    fn exec_byte_size() -> (r: usize) {
        8
    }

    fn encode(self) -> (r: Vec<u8>) {
        u64_to_le_bytes(self)
    }

    fn read_from(b: &[u8]) -> (r: Self) {
        let r = u64_from_le_bytes(b);
        proof {
            lemma_auto_spec_u64_to_from_le_bytes();
            assert(spec_u64_to_le_bytes(spec_u64_from_le_bytes(b@)) == b@);
        }
        r
    }
}

/// Direct immutable access trait for mapped regions: interpret the bytes at
/// a given offset as a plain value.
pub trait UncheckedCast {
    /// The bytes of the region being viewed.
    spec fn view_bytes(&self) -> Seq<u8>;

    /// Interpret the memory at `offset` as a value of type `T`.
    fn at<T: Pod>(&self, offset: usize) -> (r: T)
        requires
            offset + T::byte_size() <= self.view_bytes().len(),
        ensures
            r.to_bytes() == self.view_bytes().subrange(
                offset as int,
                offset + T::byte_size(),
            ),
    ;
}

/// Direct mutable access trait for mapped regions: overlay a plain value on
/// the bytes at a given offset.
pub trait UncheckedCastMut {
    /// The bytes of the region being viewed.
    spec fn view_bytes_mut(&self) -> Seq<u8>;

    /// Write the little-endian bytes of `value` at `offset`; no other byte
    /// of the region changes.
    fn put<T: Pod>(&mut self, offset: usize, value: T)
        requires
            offset + T::byte_size() <= old(self).view_bytes_mut().len(),
        ensures
            final(self).view_bytes_mut() == old(self).view_bytes_mut().subrange(
                0,
                offset as int,
            ).add(value.to_bytes()).add(
                old(self).view_bytes_mut().subrange(
                    offset + T::byte_size(),
                    old(self).view_bytes_mut().len() as int,
                ),
            ),
    ;
}

impl UncheckedCast for memmap::MmapMut {
    open spec fn view_bytes(&self) -> Seq<u8> {
        region_bytes(*self)
    }

    fn at<T: Pod>(&self, offset: usize) -> (r: T) {
        let size = T::exec_byte_size();
        let bytes = region_read(self, offset, size);
        T::read_from(bytes.as_slice())
    }
}

impl UncheckedCastMut for memmap::MmapMut {
    open spec fn view_bytes_mut(&self) -> Seq<u8> {
        region_bytes(*self)
    }

    fn put<T: Pod>(&mut self, offset: usize, value: T) {
        let bytes = value.encode();
        region_write(self, offset, bytes.as_slice());
        proof {
            let size = T::byte_size();
            let pre = region_bytes(*old(self));
            let post = region_bytes(*self);
            assert(post =~= pre.subrange(0, offset as int).add(value.to_bytes()).add(
                pre.subrange(offset + size, pre.len() as int),
            ));
        }
    }
}

} // verus!
