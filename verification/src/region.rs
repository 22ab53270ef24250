//! The mapped byte region that backs a store.
//!
//! The region is a `memmap::MmapMut`: a writable, byte-addressable view of
//! anonymous memory or of a file. Verus sees the region through the
//! uninterpreted contents function [`region_bytes`] and the small trusted
//! wrappers below; everything built on top of them is verified.

use vstd::prelude::*;

verus! {

/// Relies on memmap::MmapMut: a writable memory-mapped region that
/// dereferences to a byte slice of fixed length.
#[verifier::external_type_specification]
#[verifier::external_body]
pub struct ExMmapMut(memmap::MmapMut);

/// The bytes that a mapped region currently holds.
pub uninterp spec fn region_bytes(m: memmap::MmapMut) -> Seq<u8>;

/// Relies on memmap::MmapMut::map_anon: on success the anonymous map holds
/// exactly `len` bytes (zero-filled, though nothing here depends on that).
#[verifier::external_body]
pub fn region_map_anon(len: usize) -> (r: Result<memmap::MmapMut, std::io::Error>)
    ensures
        r matches Ok(m) ==> region_bytes(m).len() == len,
{
    memmap::MmapMut::map_anon(len)
}

/// Relies on the slice that memmap::MmapMut dereferences to: its length is
/// the length of the mapped region.
#[verifier::external_body]
pub fn region_len(m: &memmap::MmapMut) -> (r: usize)
    ensures
        r == region_bytes(*m).len(),
{
    m.as_ref().len()
}

/// Relies on the slice that memmap::MmapMut dereferences to: reading a range
/// of it yields the region's bytes at those offsets.
#[verifier::external_body]
pub fn region_read(m: &memmap::MmapMut, offset: usize, len: usize) -> (r: Vec<u8>)
    requires
        offset + len <= region_bytes(*m).len(),
    ensures
        r@ == region_bytes(*m).subrange(offset as int, offset as int + len as int),
{
    m[offset..offset + len].to_vec()
}

/// Relies on the slice that memmap::MmapMut dereferences to mutably: writing
/// a range of it replaces the region's bytes at those offsets and nothing
/// else.
#[verifier::external_body]
pub fn region_write(m: &mut memmap::MmapMut, offset: usize, bytes: &[u8])
    requires
        offset + bytes@.len() <= region_bytes(*old(m)).len(),
    ensures
        region_bytes(*final(m)).len() == region_bytes(*old(m)).len(),
        forall|i: int|
            offset <= i < offset + bytes@.len() ==> region_bytes(*final(m))[i] == bytes@[i
                - offset],
        forall|i: int|
            0 <= i < region_bytes(*old(m)).len() && !(offset <= i < offset + bytes@.len())
                ==> region_bytes(*final(m))[i] == region_bytes(*old(m))[i],
{
    m[offset..offset + bytes.len()].copy_from_slice(bytes);
}

/// Relies on memmap::MmapMut::flush: it pushes outstanding modifications to
/// the backing file, if any, and does not change the mapped bytes.
///
/// The result is discarded: the engine's crash guarantee is the ordering of
/// its two flushes (record bytes before the pointer advance), and a flush
/// that fails leaves that ordering intact. Surfacing the failure would add
/// an error with no recovery story — after a failed second flush the write
/// is already logically committed — so durability is best-effort, as it is
/// for any memory-mapped store that does not fsync transactionally.
#[verifier::external_body]
pub fn region_flush(m: &memmap::MmapMut) {
    let _ = m.flush();
}

} // verus!
