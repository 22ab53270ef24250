//! Little-endian field access inside a byte region.
//!
//! Every multi-byte integer of the on-disk format is stored little-endian.
//! The spec functions here say what integer a given byte offset holds; the
//! exec functions read it from a byte slice.

use vstd::bytes::{
    spec_u16_from_le_bytes, spec_u16_to_le_bytes, spec_u32_from_le_bytes, spec_u32_to_le_bytes,
    spec_u64_from_le_bytes, spec_u64_to_le_bytes, u16_from_le_bytes, u32_from_le_bytes,
    u64_from_le_bytes,
};
use vstd::bytes::{
    lemma_auto_spec_u16_to_from_le_bytes, lemma_auto_spec_u32_to_from_le_bytes,
    lemma_auto_spec_u64_to_from_le_bytes,
};
use vstd::prelude::*;
use vstd::slice::{slice_index_get, slice_subrange};

verus! {

broadcast use vstd::slice::axiom_spec_len;

/// The little-endian 16-bit integer stored at byte offset `off` of `c`.
pub open spec fn u16_at(c: Seq<u8>, off: int) -> u16 {
    spec_u16_from_le_bytes(c.subrange(off, off + 2))
}

/// The little-endian 32-bit integer stored at byte offset `off` of `c`.
pub open spec fn u32_at(c: Seq<u8>, off: int) -> u32 {
    spec_u32_from_le_bytes(c.subrange(off, off + 4))
}

/// The little-endian 64-bit integer stored at byte offset `off` of `c`.
pub open spec fn u64_at(c: Seq<u8>, off: int) -> u64 {
    spec_u64_from_le_bytes(c.subrange(off, off + 8))
}

/// Reads the little-endian 16-bit integer at offset `off` of `b`.
pub fn read_u16_at(b: &[u8], off: usize) -> (r: u16)
    requires
        off + 2 <= b@.len(),
    ensures
        r == u16_at(b@, off as int),
{
    let _n: usize = b.len();
    u16_from_le_bytes(slice_subrange(b, off, off + 2))
}

/// Reads the little-endian 32-bit integer at offset `off` of `b`.
pub fn read_u32_at(b: &[u8], off: usize) -> (r: u32)
    requires
        off + 4 <= b@.len(),
    ensures
        r == u32_at(b@, off as int),
{
    let _n: usize = b.len();
    u32_from_le_bytes(slice_subrange(b, off, off + 4))
}

/// Reads the little-endian 64-bit integer at offset `off` of `b`.
pub fn read_u64_at(b: &[u8], off: usize) -> (r: u64)
    requires
        off + 8 <= b@.len(),
    ensures
        r == u64_at(b@, off as int),
{
    let _n: usize = b.len();
    u64_from_le_bytes(slice_subrange(b, off, off + 8))
}

/// Compares two byte slices for equality.
pub fn bytes_eq(a: &[u8], b: &[u8]) -> (r: bool)
    ensures
        r == (a@ == b@),
{
    let n: usize = a.len();
    if n != b.len() {
        return false;
    }
    let mut i: usize = 0;
    while i < n
        invariant
            n == a@.len(),
            n == b@.len(),
            0 <= i <= n,
            forall|j: int| 0 <= j < i ==> a@[j] == b@[j],
        decreases n - i,
    {
        if *slice_index_get(a, i) != *slice_index_get(b, i) {
            return false;
        }
        i = i + 1;
    }
    proof {
        assert(a@ =~= b@);
    }
    true
}

/// A field decodes to the integer whose encoding was placed at its offset.
pub proof fn lemma_u16_at_encoded(c: Seq<u8>, off: int, x: u16)
    requires
        0 <= off,
        off + 2 <= c.len(),
        c.subrange(off, off + 2) == spec_u16_to_le_bytes(x),
    ensures
        u16_at(c, off) == x,
{
    lemma_auto_spec_u16_to_from_le_bytes();
    assert(spec_u16_to_le_bytes(x).len() == 2);
    assert(spec_u16_from_le_bytes(spec_u16_to_le_bytes(x)) == x);
}

/// A field decodes to the integer whose encoding was placed at its offset.
pub proof fn lemma_u32_at_encoded(c: Seq<u8>, off: int, x: u32)
    requires
        0 <= off,
        off + 4 <= c.len(),
        c.subrange(off, off + 4) == spec_u32_to_le_bytes(x),
    ensures
        u32_at(c, off) == x,
{
    lemma_auto_spec_u32_to_from_le_bytes();
    assert(spec_u32_to_le_bytes(x).len() == 4);
    assert(spec_u32_from_le_bytes(spec_u32_to_le_bytes(x)) == x);
}

/// A field decodes to the integer whose encoding was placed at its offset.
pub proof fn lemma_u64_at_encoded(c: Seq<u8>, off: int, x: u64)
    requires
        0 <= off,
        off + 8 <= c.len(),
        c.subrange(off, off + 8) == spec_u64_to_le_bytes(x),
    ensures
        u64_at(c, off) == x,
{
    lemma_auto_spec_u64_to_from_le_bytes();
    assert(spec_u64_to_le_bytes(x).len() == 8);
    assert(spec_u64_from_le_bytes(spec_u64_to_le_bytes(x)) == x);
}

} // verus!
