//! Records and the record log.
//!
//! A record is a 4-byte little-endian value length, the key (of the store's
//! fixed key length), and the value bytes. Records stand back to back in the
//! data region, from data offset [`HEADER_SIZE`] up to the header's
//! `next_insert` pointer. A record's data offset (the offset of its length
//! field) is its insertion offset; a data offset is translated to an offset
//! in the mapped region by adding the header size.

use crate::codec::{read_u32_at, u32_at};
use crate::headers::HEADER_SIZE;
use crate::region::{region_bytes, region_read, region_write};
use vstd::bytes::u32_to_le_bytes;
use vstd::prelude::*;

verus! {

broadcast use vstd::seq::group_seq_axioms;

/// Converts a database offset into a memory offset, which includes the header.
pub fn data_offset_to_memory_offset(offset: u64) -> (r: usize)
    requires
        offset + HEADER_SIZE <= usize::MAX,
    ensures
        r == offset + HEADER_SIZE,
{
    offset as usize + HEADER_SIZE
}

/// The value length of the record at data offset `cur` of region `c`.
pub open spec fn record_vlen(c: Seq<u8>, cur: int) -> nat {
    u32_at(c, HEADER_SIZE + cur) as nat
}

/// The key of the record at data offset `cur`, for key length `kl`.
pub open spec fn record_key(c: Seq<u8>, kl: nat, cur: int) -> Seq<u8> {
    c.subrange(HEADER_SIZE + cur + 4, HEADER_SIZE + cur + 4 + kl)
}

/// The value of the record at data offset `cur`, for key length `kl`.
pub open spec fn record_value(c: Seq<u8>, kl: nat, cur: int) -> Seq<u8> {
    c.subrange(
        HEADER_SIZE + cur + 4 + kl,
        HEADER_SIZE + cur + 4 + kl + record_vlen(c, cur),
    )
}

/// The total size of the record at data offset `cur`: length field, key, value.
pub open spec fn record_size(c: Seq<u8>, kl: nat, cur: int) -> nat {
    4 + kl + record_vlen(c, cur)
}

/// The log of region `c` is well-formed between data offsets `cur` and `end`:
/// walking records from `cur` lands exactly on `end`.
pub open spec fn log_wf(c: Seq<u8>, kl: nat, cur: int, end: int) -> bool
    decreases end - cur,
{
    if cur >= end {
        cur == end
    } else if cur + record_size(c, kl, cur) > end {
        false
    } else {
        log_wf(c, kl, cur + record_size(c, kl, cur), end)
    }
}

/// The index that a full scan of the log between `cur` and `end` builds:
/// each key maps to the insertion offset of its record; when a key occurs
/// more than once, the later record wins, as the scan inserts in order.
pub open spec fn log_offsets(c: Seq<u8>, kl: nat, cur: int, end: int) -> Map<Seq<u8>, int>
    decreases end - cur,
{
    if cur < end && cur + record_size(c, kl, cur) <= end {
        let rest = log_offsets(c, kl, cur + record_size(c, kl, cur), end);
        if rest.dom().contains(record_key(c, kl, cur)) {
            rest
        } else {
            rest.insert(record_key(c, kl, cur), cur)
        }
    } else {
        Map::empty()
    }
}

/// The logical contents of the store whose log ends at `end`: each key maps
/// to the value bytes of its record.
pub open spec fn log_view(c: Seq<u8>, kl: nat, end: int) -> Map<Seq<u8>, Seq<u8>> {
    log_offsets(c, kl, HEADER_SIZE as int, end).map_values(|off: int| record_value(c, kl, off))
}

/// Every offset the scan index holds points at a whole record, inside the
/// log, whose key is the one it is indexed under.
pub proof fn lemma_log_offsets_valid(c: Seq<u8>, kl: nat, cur: int, end: int)
    requires
        log_wf(c, kl, cur, end),
    ensures
        forall|k: Seq<u8>| #[trigger]
            log_offsets(c, kl, cur, end).dom().contains(k) ==> {
                let off = log_offsets(c, kl, cur, end)[k];
                &&& cur <= off
                &&& off + record_size(c, kl, off) <= end
                &&& record_key(c, kl, off) == k
            },
    decreases end - cur,
{
    let m = log_offsets(c, kl, cur, end);
    if cur < end && cur + record_size(c, kl, cur) <= end {
        let rs = record_size(c, kl, cur);
        let k0 = record_key(c, kl, cur);
        lemma_log_offsets_valid(c, kl, cur + rs, end);
        let rest = log_offsets(c, kl, cur + rs, end);
        assert forall|k: Seq<u8>| #[trigger] m.dom().contains(k) implies {
            let off = m[k];
            &&& cur <= off
            &&& off + record_size(c, kl, off) <= end
            &&& record_key(c, kl, off) == k
        } by {
            if rest.dom().contains(k) {
                assert(m[k] == rest[k]);
            } else {
                assert(k == k0 && m[k] == cur);
            }
        }
    } else {
        assert(m.dom() == Set::<Seq<u8>>::empty());
    }
}

/// Parsing is deterministic: when the walk from `cur0` lands exactly on
/// `mid`, and also parses cleanly through to `end`, the stretch from `mid`
/// to `end` parses cleanly on its own.
pub proof fn lemma_log_wf_split(c: Seq<u8>, kl: nat, cur0: int, mid: int, end: int)
    requires
        log_wf(c, kl, cur0, mid),
        log_wf(c, kl, cur0, end),
        mid <= end,
    ensures
        log_wf(c, kl, mid, end),
    decreases mid - cur0,
{
    if cur0 < mid {
        let rs = record_size(c, kl, cur0);
        assert(cur0 + rs <= mid);
        lemma_log_wf_split(c, kl, cur0 + rs, mid, end);
    }
}

/// Appending one record to a well-formed log extends it by one entry: the
/// new region `c2` agrees with `c` on the old log, holds a record at its old
/// end, and its scan index is the old one with the new key inserted.
pub proof fn lemma_log_append(c: Seq<u8>, c2: Seq<u8>, kl: nat, cur: int, end: int)
    requires
        0 <= cur,
        log_wf(c, kl, cur, end),
        c2.len() == c.len(),
        HEADER_SIZE + end + record_size(c2, kl, end) <= c.len(),
        forall|i: int| HEADER_SIZE + cur <= i < HEADER_SIZE + end ==> c2[i] == c[i],
    ensures
        log_wf(c2, kl, cur, end + record_size(c2, kl, end)),
        log_offsets(c2, kl, cur, end + record_size(c2, kl, end)) == log_offsets(
            c,
            kl,
            cur,
            end,
        ).insert(record_key(c2, kl, end), end),
    decreases end - cur,
{
    let rs2 = record_size(c2, kl, end);
    let k2 = record_key(c2, kl, end);
    let end2 = end + rs2;
    if cur >= end {
        assert(cur == end);
        assert(log_wf(c2, kl, end2, end2));
        assert(log_wf(c2, kl, cur, end2));
        assert(log_offsets(c2, kl, end2, end2) == Map::<Seq<u8>, int>::empty());
        assert(log_offsets(c2, kl, cur, end2) =~= log_offsets(c, kl, cur, end).insert(k2, end));
    } else {
        let rs = record_size(c, kl, cur);
        assert(cur + rs <= end);
        assert(c2.subrange(HEADER_SIZE + cur, HEADER_SIZE + cur + 4) =~= c.subrange(
            HEADER_SIZE + cur,
            HEADER_SIZE + cur + 4,
        ));
        assert(record_vlen(c2, cur) == record_vlen(c, cur));
        assert(record_key(c2, kl, cur) =~= record_key(c, kl, cur));
        let k0 = record_key(c, kl, cur);
        lemma_log_append(c, c2, kl, cur + rs, end);
        let rest = log_offsets(c, kl, cur + rs, end);
        let rest2 = log_offsets(c2, kl, cur + rs, end2);
        assert(rest2 == rest.insert(k2, end));
        let lhs = log_offsets(c2, kl, cur, end2);
        let rhs = log_offsets(c, kl, cur, end).insert(k2, end);
        if k0 == k2 {
            assert(rest2.dom().contains(k0));
            assert(lhs == rest2);
            if rest.dom().contains(k0) {
                assert(lhs =~= rhs);
            } else {
                assert(lhs =~= rhs);
            }
        } else {
            if rest.dom().contains(k0) {
                assert(rest2.dom().contains(k0));
                assert(lhs == rest2);
                assert(lhs =~= rhs);
            } else {
                assert(!rest2.dom().contains(k0));
                assert(lhs == rest2.insert(k0, cur));
                assert(lhs =~= rhs);
            }
        }
    }
}

/// Writes a record at the specified data offset: the value length, the key,
/// then the value bytes. Returns the next available data offset after the
/// write. Bytes outside the record are untouched.
pub fn write_record(data: &mut memmap::MmapMut, data_offset: u64, key: &[u8], value: &[u8]) -> (r:
    u64)
    requires
        region_bytes(*old(data)).len() <= usize::MAX,
        value@.len() < 0x1_0000_0000,
        HEADER_SIZE + data_offset + 4 + key@.len() + value@.len() <= region_bytes(
            *old(data),
        ).len(),
    ensures
        region_bytes(*final(data)).len() == region_bytes(*old(data)).len(),
        r == data_offset + 4 + key@.len() + value@.len(),
        record_vlen(region_bytes(*final(data)), data_offset as int) == value@.len(),
        record_key(region_bytes(*final(data)), key@.len(), data_offset as int) == key@,
        record_value(region_bytes(*final(data)), key@.len(), data_offset as int) == value@,
        record_size(region_bytes(*final(data)), key@.len(), data_offset as int) == 4 + key@.len()
            + value@.len(),
        forall|i: int|
            0 <= i < region_bytes(*old(data)).len() && !(HEADER_SIZE + data_offset <= i
                < HEADER_SIZE + data_offset + 4 + key@.len() + value@.len()) ==> region_bytes(
                *final(data),
            )[i] == region_bytes(*old(data))[i],
{
    let kl = key.len();
    let vlen = value.len() as u32;
    let mo = data_offset_to_memory_offset(data_offset);
    let vlen_bytes = u32_to_le_bytes(vlen);
    region_write(data, mo, vlen_bytes.as_slice());
    region_write(data, mo + 4, key);
    region_write(data, mo + 4 + kl, value);
    proof {
        let c = region_bytes(*old(data));
        let c3 = region_bytes(*final(data));
        let off = data_offset as int;
        assert(c3.subrange(HEADER_SIZE + off, HEADER_SIZE + off + 4)
            =~= vstd::bytes::spec_u32_to_le_bytes(vlen));
        crate::codec::lemma_u32_at_encoded(c3, HEADER_SIZE + off, vlen);
        assert(record_key(c3, key@.len(), off) =~= key@);
        assert(record_value(c3, key@.len(), off) =~= value@);
    }
    data_offset + 4 + kl as u64 + value.len() as u64
}

/// Reads the record header at the given data offset: the value length and
/// the key.
pub fn record_header_at(data: &memmap::MmapMut, data_offset: u64, key_len: usize) -> (r: (
    u32,
    Vec<u8>,
))
    requires
        region_bytes(*data).len() <= usize::MAX,
        HEADER_SIZE + data_offset + 4 + key_len <= region_bytes(*data).len(),
    ensures
        r.0 as nat == record_vlen(region_bytes(*data), data_offset as int),
        r.1@ == record_key(region_bytes(*data), key_len as nat, data_offset as int),
        r.1@.len() == key_len,
{
    let mo = data_offset_to_memory_offset(data_offset);
    let vlen_bytes = region_read(data, mo, 4);
    let vlen = read_u32_at(vlen_bytes.as_slice(), 0);
    let key = region_read(data, mo + 4, key_len);
    proof {
        let c = region_bytes(*data);
        let off = data_offset as int;
        assert(vlen_bytes@.subrange(0, 4) =~= c.subrange(HEADER_SIZE + off, HEADER_SIZE + off + 4));
        assert(u32_at(vlen_bytes@, 0) == u32_at(c, HEADER_SIZE + off));
        assert(key@ =~= record_key(c, key_len as nat, off));
    }
    (vlen, key)
}

/// Reads the value of the record at the given data offset: exactly
/// `value_length` bytes immediately following the key field.
pub fn read_value(data: &memmap::MmapMut, data_offset: u64, key_len: usize) -> (r: Vec<u8>)
    requires
        region_bytes(*data).len() <= usize::MAX,
        HEADER_SIZE + data_offset + record_size(
            region_bytes(*data),
            key_len as nat,
            data_offset as int,
        ) <= region_bytes(*data).len(),
    ensures
        r@ == record_value(region_bytes(*data), key_len as nat, data_offset as int),
{
    let (vlen, _key) = record_header_at(data, data_offset, key_len);
    let mo = data_offset_to_memory_offset(data_offset);
    region_read(data, mo + 4 + key_len, vlen as usize)
}

} // verus!
