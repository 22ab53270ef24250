//! The storage engine: an append-only key-value store over a mapped region.
//!
//! The engine owns the region and an in-memory index from key to insertion
//! offset. The index is derived state: it is rebuilt by a full scan of the
//! log on every open, and extended on each write. The header's `next_insert`
//! field is the durable source of truth for the end of the log; a write
//! places the record's bytes first and advances the pointer only afterwards,
//! so a write that was interrupted before the pointer advanced leaves the
//! store exactly as it was.

use crate::codec::{bytes_eq, read_u64_at};
use crate::error::{InvalidDatabaseError, StufferShackError};
use crate::headers::{
    header_endianness, header_key_length, header_magic, header_next_insert, header_version,
    header_wf, DatabaseHeader, HEADER_SIZE,
};
use crate::records::{
    lemma_log_append, lemma_log_offsets_valid, log_offsets, log_view, log_wf, read_value,
    record_header_at, record_key, record_size, record_value, record_vlen, write_record,
};
use crate::region::{
    region_bytes, region_flush, region_len, region_map_anon, region_read, region_write,
};
use vstd::bytes::u64_to_le_bytes;
use vstd::pervasive::VecAdditionalExecFns;
use vstd::prelude::*;
use vstd::slice::slice_to_vec;

verus! {

broadcast use vstd::seq::group_seq_axioms;

// ---------------------------------------------------------------------------
// The in-memory index: an association list from key to insertion offset.
// ---------------------------------------------------------------------------

/// The map that an association list denotes; a later entry for the same key
/// wins, as with repeated inserts.
pub open spec fn index_view(s: Seq<(Vec<u8>, u64)>) -> Map<Seq<u8>, int>
    decreases s.len(),
{
    if s.len() == 0 {
        Map::empty()
    } else {
        index_view(s.drop_last()).insert(s.last().0@, s.last().1 as int)
    }
}

/// No two entries of the association list hold the same key.
pub open spec fn index_keys_distinct(s: Seq<(Vec<u8>, u64)>) -> bool {
    forall|i: int, j: int| 0 <= i < j < s.len() ==> s[i].0@ != s[j].0@
}

/// A key is in the denoted map exactly when some entry holds it.
proof fn lemma_index_view_contains(s: Seq<(Vec<u8>, u64)>, k: Seq<u8>)
    ensures
        index_view(s).dom().contains(k) <==> exists|i: int| 0 <= i < s.len() && s[i].0@ == k,
    decreases s.len(),
{
    if s.len() == 0 {
        assert(index_view(s).dom() == Set::<Seq<u8>>::empty());
    } else {
        let rest = s.drop_last();
        lemma_index_view_contains(rest, k);
        if s.last().0@ == k {
            assert(s[s.len() - 1].0@ == k);
        } else {
            if exists|i: int| 0 <= i < rest.len() && rest[i].0@ == k {
                let i = choose|i: int| 0 <= i < rest.len() && rest[i].0@ == k;
                assert(s[i].0@ == k);
            }
            if exists|i: int| 0 <= i < s.len() && s[i].0@ == k {
                let i = choose|i: int| 0 <= i < s.len() && s[i].0@ == k;
                assert(i < s.len() - 1);
                assert(rest[i].0@ == k);
            }
        }
    }
}

/// With distinct keys, the entry holding a key gives its value in the map.
proof fn lemma_index_view_lookup(s: Seq<(Vec<u8>, u64)>, i: int)
    requires
        index_keys_distinct(s),
        0 <= i < s.len(),
    ensures
        index_view(s).dom().contains(s[i].0@),
        index_view(s)[s[i].0@] == s[i].1 as int,
    decreases s.len(),
{
    let rest = s.drop_last();
    if i == s.len() - 1 {
    } else {
        assert(index_keys_distinct(rest)) by {
            assert(forall|x: int, y: int|
                0 <= x < y < rest.len() ==> rest[x].0@ == s[x].0@ && rest[y].0@ == s[y].0@);
        }
        assert(rest[i] == s[i]);
        lemma_index_view_lookup(rest, i);
        assert(s[i].0@ != s.last().0@);
    }
}

/// Replacing the entry that holds a key denotes an insert of that key.
proof fn lemma_index_view_update(s: Seq<(Vec<u8>, u64)>, i: int, p: (Vec<u8>, u64))
    requires
        index_keys_distinct(s),
        0 <= i < s.len(),
        s[i].0@ == p.0@,
    ensures
        index_view(s.update(i, p)) == index_view(s).insert(p.0@, p.1 as int),
        index_keys_distinct(s.update(i, p)),
    decreases s.len(),
{
    let s2 = s.update(i, p);
    assert(index_keys_distinct(s2)) by {
        assert(forall|x: int|
            0 <= x < s2.len() ==> s2[x].0@ == (if x == i {
                p.0@
            } else {
                s[x].0@
            }));
    }
    if i == s.len() - 1 {
        assert(s2.drop_last() =~= s.drop_last());
        assert(s2.last() == p);
        assert(index_view(s2) =~= index_view(s).insert(p.0@, p.1 as int));
    } else {
        let rest = s.drop_last();
        assert(index_keys_distinct(rest)) by {
            assert(forall|x: int, y: int|
                0 <= x < y < rest.len() ==> rest[x].0@ == s[x].0@ && rest[y].0@ == s[y].0@);
        }
        assert(rest[i] == s[i]);
        lemma_index_view_update(rest, i, p);
        assert(s2.drop_last() =~= rest.update(i, p));
        assert(s2.last() == s.last());
        assert(s[i].0@ != s.last().0@);
        assert(index_view(s2) == index_view(rest.update(i, p)).insert(s.last().0@, s.last().1 as int));
        assert(index_view(s2) =~= index_view(s).insert(p.0@, p.1 as int));
    }
}

/// Looks a key up in the association list.
fn index_lookup(index: &Vec<(Vec<u8>, u64)>, key: &[u8]) -> (r: Option<u64>)
    requires
        index_keys_distinct(index@),
    ensures
        match r {
            Some(off) => index_view(index@).dom().contains(key@) && index_view(index@)[key@]
                == off as int,
            None => !index_view(index@).dom().contains(key@),
        },
{
    let n = index.len();
    let mut i: usize = 0;
    while i < n
        invariant
            index_keys_distinct(index@),
            n == index@.len(),
            0 <= i <= n,
            forall|j: int| 0 <= j < i ==> index@[j].0@ != key@,
        decreases n - i,
    {
        if bytes_eq(index[i].0.as_slice(), key) {
            proof {
                lemma_index_view_lookup(index@, i as int);
            }
            return Some(index[i].1);
        }
        i = i + 1;
    }
    proof {
        lemma_index_view_contains(index@, key@);
    }
    None
}

/// Inserts a key, replacing the entry that already holds it, if any.
fn index_insert(index: &mut Vec<(Vec<u8>, u64)>, key: Vec<u8>, off: u64)
    requires
        index_keys_distinct(old(index)@),
    ensures
        index_view(final(index)@) == index_view(old(index)@).insert(key@, off as int),
        index_keys_distinct(final(index)@),
{
    let n = index.len();
    let mut i: usize = 0;
    while i < n
        invariant
            index_keys_distinct(index@),
            index@ == old(index)@,
            n == index@.len(),
            0 <= i <= n,
            forall|j: int| 0 <= j < i ==> index@[j].0@ != key@,
        decreases n - i,
    {
        if bytes_eq(index[i].0.as_slice(), key.as_slice()) {
            let ghost s = index@;
            let ghost p = (key, off);
            index.set(i, (key, off));
            proof {
                lemma_index_view_update(s, i as int, p);
            }
            return;
        }
        i = i + 1;
    }
    let ghost s = index@;
    let ghost p = (key, off);
    index.push((key, off));
    proof {
        assert(index@.drop_last() =~= s);
        assert(index@.last() == p);
        assert(index_view(index@) == index_view(s).insert(p.0@, p.1 as int));
        assert(index_keys_distinct(index@)) by {
            assert(forall|x: int| 0 <= x < s.len() ==> index@[x] == s[x]);
        }
    }
}

// ---------------------------------------------------------------------------
// Header field access within the region.
// ---------------------------------------------------------------------------

/// A change that leaves bytes 0..24 and 32..34 alone leaves every validated
/// header field alone.
proof fn lemma_header_fields_preserved(c: Seq<u8>, c2: Seq<u8>)
    requires
        c2.len() == c.len(),
        c.len() >= HEADER_SIZE,
        forall|i: int| 0 <= i < 24 ==> c2[i] == c[i],
        forall|i: int| 32 <= i < 34 ==> c2[i] == c[i],
    ensures
        header_magic(c2) == header_magic(c),
        header_endianness(c2) == header_endianness(c),
        header_version(c2) == header_version(c),
        header_key_length(c2) == header_key_length(c),
{
    assert(c2.subrange(0, 16) =~= c.subrange(0, 16));
    assert(c2.subrange(16, 20) =~= c.subrange(16, 20));
    assert(c2.subrange(20, 24) =~= c.subrange(20, 24));
    assert(c2.subrange(32, 34) =~= c.subrange(32, 34));
}

/// Retrieves the end of the log from the db header: the `next_insert` field.
fn store_length(data: &memmap::MmapMut) -> (r: u64)
    requires
        region_bytes(*data).len() <= usize::MAX,
        region_bytes(*data).len() >= HEADER_SIZE,
    ensures
        r == header_next_insert(region_bytes(*data)),
{
    let b = region_read(data, 24, 8);
    let r = read_u64_at(b.as_slice(), 0);
    proof {
        assert(b@.subrange(0, 8) =~= region_bytes(*data).subrange(24, 32));
    }
    r
}

/// Stores the end of the log in the db header's `next_insert` field; no
/// other byte of the region changes.
fn write_store_length(data: &mut memmap::MmapMut, size: u64)
    requires
        region_bytes(*old(data)).len() <= usize::MAX,
        region_bytes(*old(data)).len() >= HEADER_SIZE,
    ensures
        region_bytes(*final(data)).len() == region_bytes(*old(data)).len(),
        header_next_insert(region_bytes(*final(data))) == size,
        forall|i: int|
            0 <= i < region_bytes(*old(data)).len() && !(24 <= i < 32) ==> region_bytes(
                *final(data),
            )[i] == region_bytes(*old(data))[i],
{
    let b = u64_to_le_bytes(size);
    region_write(data, 24, b.as_slice());
    proof {
        let c2 = region_bytes(*data);
        assert(c2.subrange(24, 32) =~= vstd::bytes::spec_u64_to_le_bytes(size));
        crate::codec::lemma_u64_at_encoded(c2, 24, size);
    }
}

// ---------------------------------------------------------------------------
// The engine.
// ---------------------------------------------------------------------------

/// Whether region `c` opens as an existing store with keys of `key_size`
/// bytes: first the header checks, in their order, then the structure of the
/// log, which must consist of whole records ending exactly at `next_insert`.
pub open spec fn spec_open_existing(c: Seq<u8>, key_size: nat) -> Result<
    (),
    InvalidDatabaseError,
> {
    match crate::headers::spec_validate(c, key_size) {
        Err(e) => Err(e),
        Ok(()) => {
            let ni = header_next_insert(c) as int;
            if HEADER_SIZE <= ni && HEADER_SIZE + ni <= c.len() && log_wf(
                c,
                key_size,
                HEADER_SIZE as int,
                ni,
            ) {
                Ok(())
            } else {
                Err(InvalidDatabaseError::TruncatedRecord)
            }
        },
    }
}

/// An append-only key-value store over a memory-mapped region.
///
/// A region is exclusively owned by one engine instance, and writes take
/// `&mut self`: the borrow checker makes the engine single-writer, and
/// reads never race a write. Two engine instances over the same backing
/// file are not supported.
#[derive(Debug)]
pub struct StufferShack {
    /// Maps a key to the data offset of its record.
    index: Vec<(Vec<u8>, u64)>,
    /// Internal data map.
    data: memmap::MmapMut,
    /// The fixed key size, in bytes, of this store.
    key_len: usize,
}

impl StufferShack {
    /// The bytes of the mapped region backing this store.
    pub closed spec fn contents(&self) -> Seq<u8> {
        region_bytes(self.data)
    }

    /// The fixed key size of this store, in bytes.
    pub closed spec fn key_size(&self) -> nat {
        self.key_len as nat
    }

    /// The insertion pointer: the data offset one past the last record, and
    /// the store's logical size.
    pub open spec fn next_insert_spec(&self) -> u64 {
        header_next_insert(self.contents())
    }

    /// The logical contents of the store: the map from each stored key to
    /// its value bytes.
    pub open spec fn kv(&self) -> Map<Seq<u8>, Seq<u8>> {
        log_view(self.contents(), self.key_size(), self.next_insert_spec() as int)
    }

    /// The engine's invariant: the header is valid and owns a well-formed
    /// record log, and the in-memory index is exactly the index that a scan
    /// of that log builds.
    pub closed spec fn wf(&self) -> bool {
        let c = self.contents();
        let ni = header_next_insert(c) as int;
        &&& c.len() <= usize::MAX
        &&& c.len() >= 2 * HEADER_SIZE
        &&& header_wf(c, self.key_size())
        &&& HEADER_SIZE <= ni
        &&& HEADER_SIZE + ni <= c.len()
        &&& log_wf(c, self.key_size(), HEADER_SIZE as int, ni)
        &&& index_view(self.index@) == log_offsets(
            c,
            self.key_size(),
            HEADER_SIZE as int,
            ni,
        )
        &&& index_keys_distinct(self.index@)
    }

    /// Builds an engine over a mapped region. A fresh region (`needs_init`)
    /// has its header reset and checked; an existing one has its header
    /// validated and its log scanned to rebuild the index. The region must
    /// hold room for the header and the first record's offset.
    ///
    /// On failure the region is handed back with the error, its bytes
    /// unchanged: a rejected open writes nothing, so it cannot leave a
    /// partially initialized header behind for a later open to see.
    pub fn new(data: memmap::MmapMut, needs_init: bool, key_size: usize) -> (r: Result<
        StufferShack,
        (memmap::MmapMut, StufferShackError),
    >)
        requires
            region_bytes(data).len() <= usize::MAX,
            region_bytes(data).len() >= 2 * HEADER_SIZE,
        ensures
            match r {
                Ok(shack) => {
                    &&& shack.wf()
                    &&& shack.key_size() == key_size as nat
                    &&& shack.contents().len() == region_bytes(data).len()
                    &&& if needs_init {
                        &&& key_size <= u16::MAX as nat
                        &&& shack.kv() == Map::<Seq<u8>, Seq<u8>>::empty()
                        &&& shack.next_insert_spec() == HEADER_SIZE as u64
                    } else {
                        &&& spec_open_existing(region_bytes(data), key_size as nat) is Ok
                        &&& shack.contents() == region_bytes(data)
                        &&& shack.kv() == log_view(
                            region_bytes(data),
                            key_size as nat,
                            header_next_insert(region_bytes(data)) as int,
                        )
                        &&& shack.next_insert_spec() == header_next_insert(region_bytes(data))
                    }
                },
                Err(p) => {
                    &&& region_bytes(p.0) == region_bytes(data)
                    &&& if needs_init {
                        &&& key_size > u16::MAX as nat
                        &&& p.1 == StufferShackError::DatabaseInit(
                            InvalidDatabaseError::KeyLengthOverflow,
                        )
                    } else {
                        &&& spec_open_existing(region_bytes(data), key_size as nat) matches Err(v)
                            && p.1 == StufferShackError::DatabaseInit(v)
                    }
                },
            },
    {
        let len = region_len(&data);
        if needs_init {
            if key_size > u16::MAX as usize {
                return Err(
                    (data, StufferShackError::DatabaseInit(InvalidDatabaseError::KeyLengthOverflow)),
                );
            }
            let mut data = data;
            let mut hdr = DatabaseHeader {
                magic_bytes: Vec::new(),
                endianness_check: 0,
                version: 0,
                next_insert: 0,
                key_length: 0,
            };
            hdr.reset(key_size as u16);
            let encoded = hdr.encode();
            region_write(&mut data, 0, encoded.as_slice());
            region_flush(&data);
            proof {
                let c = region_bytes(data);
                assert(c.subrange(0, 16) =~= encoded@.subrange(0, 16));
                assert(c.subrange(16, 20) =~= encoded@.subrange(16, 20));
                assert(c.subrange(20, 24) =~= encoded@.subrange(20, 24));
                assert(c.subrange(24, 32) =~= encoded@.subrange(24, 32));
                assert(c.subrange(32, 34) =~= encoded@.subrange(32, 34));
                assert(header_wf(c, key_size as nat));
                assert(header_next_insert(c) == HEADER_SIZE as u64);
            }
            // Self-consistency check, as on any other open.
            let hbytes = region_read(&data, 0, HEADER_SIZE);
            let hdr2 = DatabaseHeader::decode(hbytes.as_slice());
            proof {
                crate::headers::lemma_header_prefix(region_bytes(data));
            }
            match hdr2.check_valid(key_size) {
                Err(e) => {
                    return Err((data, StufferShackError::DatabaseInit(e)));
                },
                Ok(()) => {},
            }
            let shack = StufferShack { index: Vec::new(), data, key_len: key_size };
            proof {
                let c = shack.contents();
                let ks = key_size as nat;
                assert(log_wf(c, ks, HEADER_SIZE as int, HEADER_SIZE as int));
                assert(log_offsets(c, ks, HEADER_SIZE as int, HEADER_SIZE as int) == Map::<
                    Seq<u8>,
                    int,
                >::empty());
                assert(index_view(shack.index@) == Map::<Seq<u8>, int>::empty());
                assert(shack.kv() =~= Map::<Seq<u8>, Seq<u8>>::empty());
            }
            Ok(shack)
        } else {
            let ghost c = region_bytes(data);
            let ghost ks = key_size as nat;
            let hbytes = region_read(&data, 0, HEADER_SIZE);
            let hdr = DatabaseHeader::decode(hbytes.as_slice());
            proof {
                crate::headers::lemma_header_prefix(c);
            }
            match hdr.check_valid(key_size) {
                Err(e) => {
                    return Err((data, StufferShackError::DatabaseInit(e)));
                },
                Ok(()) => {},
            }
            let ni = hdr.next_insert;
            if ni < HEADER_SIZE as u64 || ni as u128 + HEADER_SIZE as u128 > len as u128 {
                return Err(
                    (data, StufferShackError::DatabaseInit(InvalidDatabaseError::TruncatedRecord)),
                );
            }
            let kl64 = key_size as u64;
            let mut index: Vec<(Vec<u8>, u64)> = Vec::new();
            let mut cur: u64 = HEADER_SIZE as u64;
            proof {
                assert(log_wf(c, ks, HEADER_SIZE as int, HEADER_SIZE as int));
                assert(log_offsets(c, ks, HEADER_SIZE as int, HEADER_SIZE as int) == Map::<
                    Seq<u8>,
                    int,
                >::empty());
            }
            while cur < ni
                invariant
                    !needs_init,
                    region_bytes(data) == c,
                    ks == key_size as nat,
                    key_size <= u16::MAX as usize,
                    kl64 == key_size as u64,
                    ni == header_next_insert(c),
                    crate::headers::spec_validate(c, ks) is Ok,
                    HEADER_SIZE <= cur <= ni,
                    HEADER_SIZE + ni <= c.len(),
                    c.len() <= usize::MAX,
                    log_wf(c, ks, HEADER_SIZE as int, cur as int),
                    index_view(index@) == log_offsets(c, ks, HEADER_SIZE as int, cur as int),
                    index_keys_distinct(index@),
                decreases ni - cur,
            {
                // Does a record header fit between cur and ni?
                if ni - cur < 4 + kl64 {
                    proof {
                        assert(!log_wf(c, ks, HEADER_SIZE as int, ni as int)) by {
                            if log_wf(c, ks, HEADER_SIZE as int, ni as int) {
                                crate::records::lemma_log_wf_split(
                                    c,
                                    ks,
                                    HEADER_SIZE as int,
                                    cur as int,
                                    ni as int,
                                );
                                assert(log_wf(c, ks, cur as int, ni as int));
                                assert(cur + record_size(c, ks, cur as int) <= ni);
                                assert(false);
                            }
                        }
                        assert(crate::headers::spec_validate(c, ks) is Ok);
                        assert(spec_open_existing(c, ks) == Err::<(), InvalidDatabaseError>(
                            InvalidDatabaseError::TruncatedRecord,
                        ));
                    }
                    return Err(
                        (data, StufferShackError::DatabaseInit(InvalidDatabaseError::TruncatedRecord)),
                    );
                }
                let (vlen, key) = record_header_at(&data, cur, key_size);
                // Does the whole record fit between cur and ni?
                if (vlen as u64) > ni - cur - 4 - kl64 {
                    proof {
                        assert(!log_wf(c, ks, HEADER_SIZE as int, ni as int)) by {
                            if log_wf(c, ks, HEADER_SIZE as int, ni as int) {
                                crate::records::lemma_log_wf_split(
                                    c,
                                    ks,
                                    HEADER_SIZE as int,
                                    cur as int,
                                    ni as int,
                                );
                                assert(log_wf(c, ks, cur as int, ni as int));
                                assert(record_vlen(c, cur as int) == vlen as nat);
                                assert(cur + record_size(c, ks, cur as int) <= ni);
                                assert(false);
                            }
                        }
                        assert(crate::headers::spec_validate(c, ks) is Ok);
                        assert(spec_open_existing(c, ks) == Err::<(), InvalidDatabaseError>(
                            InvalidDatabaseError::TruncatedRecord,
                        ));
                    }
                    return Err(
                        (data, StufferShackError::DatabaseInit(InvalidDatabaseError::TruncatedRecord)),
                    );
                }
                proof {
                    lemma_log_append(c, c, ks, HEADER_SIZE as int, cur as int);
                }
                index_insert(&mut index, key, cur);
                cur = cur + 4 + kl64 + vlen as u64;
            }
            let shack = StufferShack { index, data, key_len: key_size };
            proof {
                assert(shack.contents() == c);
                assert(header_wf(c, ks));
                assert(cur == ni);
            }
            Ok(shack)
        }
    }

    /// Opens a fresh store backed by an anonymous region of `size` bytes,
    /// with keys of `key_size` bytes.
    pub fn open_ephemeral(size: usize, key_size: usize) -> (r: Result<
        StufferShack,
        StufferShackError,
    >)
        requires
            size >= 2 * HEADER_SIZE,
        ensures
            r matches Ok(shack) ==> {
                &&& key_size <= u16::MAX as nat
                &&& shack.wf()
                &&& shack.key_size() == key_size as nat
                &&& shack.kv() == Map::<Seq<u8>, Seq<u8>>::empty()
                &&& shack.next_insert_spec() == HEADER_SIZE as u64
                &&& shack.contents().len() == size
            },
            r matches Err(e) ==> (e matches StufferShackError::DatabaseOpen(_) || (key_size
                > u16::MAX as nat && e == StufferShackError::DatabaseInit(
                InvalidDatabaseError::KeyLengthOverflow,
            ))),
            key_size > u16::MAX as nat ==> !(r is Ok),
    {
        match region_map_anon(size) {
            Err(e) => Err(StufferShackError::DatabaseOpen(e)),
            Ok(data) => match Self::new(data, true, key_size) {
                Ok(shack) => Ok(shack),
                Err((_rejected, e)) => Err(e),
            },
        }
    }

    /// Rebuilds the engine from its own region, as a fresh open of the same
    /// backing store would: the reconstructed index serves the same keys and
    /// values, and the size is unchanged.
    pub fn reopen(self) -> (r: Result<StufferShack, StufferShackError>)
        requires
            self.wf(),
        ensures
            r is Ok,
            r matches Ok(shack) ==> {
                &&& shack.wf()
                &&& shack.key_size() == self.key_size()
                &&& shack.kv() == self.kv()
                &&& shack.next_insert_spec() == self.next_insert_spec()
            },
    {
        let key_len = self.key_len;
        proof {
            assert(crate::headers::spec_validate(self.contents(), self.key_size()) is Ok);
        }
        match Self::new(self.data, false, key_len) {
            Ok(shack) => Ok(shack),
            Err((_rejected, e)) => Err(e),
        }
    }

    /// The logical size of the store in bytes: the header's `next_insert`
    /// field, which grows by the size of each record written and never
    /// shrinks.
    pub fn size(&self) -> (r: u64)
        requires
            self.wf(),
        ensures
            r == self.next_insert_spec(),
    {
        store_length(&self.data)
    }

    /// Looks `key` up and returns a copy of its value bytes, or `None` when
    /// the key was never written.
    pub fn read(&self, key: &[u8]) -> (r: Option<Vec<u8>>)
        requires
            self.wf(),
        ensures
            match r {
                Some(v) => self.kv().dom().contains(key@) && v@ == self.kv()[key@],
                None => !self.kv().dom().contains(key@),
            },
    {
        let off = match index_lookup(&self.index, key) {
            None => {
                return None;
            },
            Some(off) => off,
        };
        proof {
            let c = self.contents();
            let ks = self.key_size();
            let ni = self.next_insert_spec() as int;
            lemma_log_offsets_valid(c, ks, HEADER_SIZE as int, ni);
            assert(log_offsets(c, ks, HEADER_SIZE as int, ni).dom().contains(key@));
            assert(off as int == log_offsets(c, ks, HEADER_SIZE as int, ni)[key@]);
        }
        Some(read_value(&self.data, off, self.key_len))
    }

    /// Appends a record for `key`, which must not be present yet. The record
    /// bytes are placed and flushed before the insertion pointer advances;
    /// on any error the store is unchanged.
    pub fn write(&mut self, key: &[u8], value: &[u8]) -> (r: Result<(), StufferShackError>)
        requires
            old(self).wf(),
            key@.len() == old(self).key_size(),
        ensures
            final(self).wf(),
            final(self).key_size() == old(self).key_size(),
            final(self).contents().len() == old(self).contents().len(),
            match r {
                Ok(()) => {
                    &&& !old(self).kv().dom().contains(key@)
                    &&& value@.len() < 0x1_0000_0000
                    &&& HEADER_SIZE + old(self).next_insert_spec() + 4 + key@.len() + value@.len()
                        <= old(self).contents().len()
                    &&& final(self).kv() == old(self).kv().insert(key@, value@)
                    &&& final(self).next_insert_spec() == old(self).next_insert_spec() + 4
                        + key@.len() + value@.len()
                    &&& forall|i: int|
                        0 <= i < old(self).contents().len() && !(HEADER_SIZE + old(
                            self,
                        ).next_insert_spec() <= i < HEADER_SIZE + final(self).next_insert_spec())
                            && !(24 <= i < 32) ==> final(self).contents()[i] == old(
                            self,
                        ).contents()[i]
                },
                Err(e) => {
                    &&& *final(self) == *old(self)
                    &&& (e == StufferShackError::DuplicateKey <==> old(self).kv().dom().contains(
                        key@,
                    ))
                    &&& (e == StufferShackError::ValueTooLarge <==> !old(
                        self,
                    ).kv().dom().contains(key@) && value@.len() >= 0x1_0000_0000)
                    &&& (e == StufferShackError::StoreFull <==> !old(self).kv().dom().contains(
                        key@,
                    ) && value@.len() < 0x1_0000_0000 && HEADER_SIZE + old(
                        self,
                    ).next_insert_spec() + 4 + key@.len() + value@.len() > old(
                        self,
                    ).contents().len())
                },
            },
            (r is Ok) <==> (!old(self).kv().dom().contains(key@) && value@.len() < 0x1_0000_0000
                && HEADER_SIZE + old(self).next_insert_spec() + 4 + key@.len() + value@.len()
                <= old(self).contents().len()),
    {
        let ghost c = self.contents();
        let ghost ks = old(self).key_size();
        let ghost ni_old = self.next_insert_spec() as int;
        proof {
            assert(self.kv().dom() =~= log_offsets(c, ks, HEADER_SIZE as int, ni_old).dom());
        }
        if index_lookup(&self.index, key).is_some() {
            return Err(StufferShackError::DuplicateKey);
        }
        if value.len() as u64 >= 0x1_0000_0000u64 {
            return Err(StufferShackError::ValueTooLarge);
        }
        let len = region_len(&self.data);
        let insertion_point = store_length(&self.data);
        let kl = self.key_len;
        if HEADER_SIZE as u128 + insertion_point as u128 + 4 + kl as u128 + value.len() as u128
            > len as u128 {
            return Err(StufferShackError::StoreFull);
        }
        // Place the record's bytes, and flush them, before the insertion
        // pointer advances past them.
        let next_insertion_point = write_record(&mut self.data, insertion_point, key, value);
        region_flush(&self.data);
        let ghost c1 = region_bytes(self.data);
        write_store_length(&mut self.data, next_insertion_point);
        region_flush(&self.data);
        let ghost c2 = region_bytes(self.data);
        // Update index.
        index_insert(&mut self.index, slice_to_vec(key), insertion_point);
        proof {
            let rs = 4 + ks + value@.len();
            let ni_new = ni_old + rs;
            // The record's bytes survive the pointer write.
            assert(c2.subrange(HEADER_SIZE + ni_old, HEADER_SIZE + ni_old + 4) =~= c1.subrange(
                HEADER_SIZE + ni_old,
                HEADER_SIZE + ni_old + 4,
            ));
            assert(record_vlen(c2, ni_old) == record_vlen(c1, ni_old));
            assert(record_key(c2, ks, ni_old) =~= record_key(c1, ks, ni_old));
            assert(record_value(c2, ks, ni_old) =~= record_value(c1, ks, ni_old));
            assert(record_size(c2, ks, ni_old) == rs);
            // The validated header fields survive both writes.
            lemma_header_fields_preserved(c, c2);
            assert(header_wf(c2, ks));
            assert(header_next_insert(c2) == ni_new);
            // The old log survives both writes, extended by the new record.
            assert(forall|i: int|
                HEADER_SIZE + HEADER_SIZE <= i < HEADER_SIZE + ni_old ==> c2[i] == c[i]);
            lemma_log_append(c, c2, ks, HEADER_SIZE as int, ni_old);
            assert(log_offsets(c2, ks, HEADER_SIZE as int, ni_new) == log_offsets(
                c,
                ks,
                HEADER_SIZE as int,
                ni_old,
            ).insert(key@, ni_old));
            assert(index_view(self.index@) == log_offsets(c2, ks, HEADER_SIZE as int, ni_new));
            // Old records decode to the same values in the new region.
            lemma_log_offsets_valid(c, ks, HEADER_SIZE as int, ni_old);
            assert forall|k: Seq<u8>| #[trigger]
                log_offsets(c, ks, HEADER_SIZE as int, ni_old).dom().contains(k) implies {
                &&& record_vlen(c2, log_offsets(c, ks, HEADER_SIZE as int, ni_old)[k])
                    == record_vlen(c, log_offsets(c, ks, HEADER_SIZE as int, ni_old)[k])
                &&& record_value(c2, ks, log_offsets(c, ks, HEADER_SIZE as int, ni_old)[k])
                    == record_value(c, ks, log_offsets(c, ks, HEADER_SIZE as int, ni_old)[k])
            } by {
                let o = log_offsets(c, ks, HEADER_SIZE as int, ni_old)[k];
                assert(c2.subrange(HEADER_SIZE + o, HEADER_SIZE + o + 4) =~= c.subrange(
                    HEADER_SIZE + o,
                    HEADER_SIZE + o + 4,
                ));
                assert(record_vlen(c2, o) == record_vlen(c, o));
                assert(record_value(c2, ks, o) =~= record_value(c, ks, o));
            }
            // And so the store's logical contents gain exactly (key, value).
            assert(final(self).kv() =~= old(self).kv().insert(key@, value@));
            // Only the new record's bytes and the next_insert field changed.
            assert forall|i: int|
                0 <= i < c.len() && !(HEADER_SIZE + ni_old <= i < HEADER_SIZE + ni_new) && !(24
                    <= i < 32) implies c2[i] == c[i] by {
                assert(c1[i] == c[i]);
                assert(c2[i] == c1[i]);
            }
        }
        Ok(())
    }
}

// ---------------------------------------------------------------------------
// Laws.
// ---------------------------------------------------------------------------

/// Round trip: after a successful write of `(key, value)` — whose contract
/// says the store's contents become the old ones with `key` bound to
/// `value` — a read of `key` finds it and yields exactly `value`.
pub proof fn lemma_round_trip(pre: StufferShack, post: StufferShack, key: Seq<u8>, value: Seq<u8>)
    requires
        post.kv() == pre.kv().insert(key, value),
    ensures
        post.kv().dom().contains(key),
        post.kv()[key] == value,
{
}

/// A successful write of one key leaves every other key's binding exactly
/// as it was. Together with [`lemma_round_trip`] this carries a round trip
/// across any sequence of writes of pairwise-distinct keys: each key still
/// reads back the value it was written with after all the others.
pub proof fn lemma_write_preserves_other_keys(
    pre: StufferShack,
    post: StufferShack,
    written: Seq<u8>,
    value: Seq<u8>,
    key: Seq<u8>,
)
    requires
        post.kv() == pre.kv().insert(written, value),
        key != written,
        pre.kv().dom().contains(key),
    ensures
        post.kv().dom().contains(key),
        post.kv()[key] == pre.kv()[key],
{
}

/// Uniqueness: a write that fails — as one of an already-present key does —
/// leaves the store unchanged, so the value previously stored under the key
/// is unaltered.
pub proof fn lemma_failed_write_preserves(pre: StufferShack, post: StufferShack, key: Seq<u8>)
    requires
        post.kv() == pre.kv(),
        pre.kv().dom().contains(key),
    ensures
        post.kv().dom().contains(key),
        post.kv()[key] == pre.kv()[key],
{
}

/// Crash-recovery equivalence: two well-formed engines over identical
/// region bytes — one before closing, one freshly opened — agree on every
/// key, every value, and the store's size.
pub proof fn lemma_reopen_equivalence(e1: StufferShack, e2: StufferShack)
    requires
        e1.wf(),
        e2.wf(),
        e1.contents() == e2.contents(),
    ensures
        e2.key_size() == e1.key_size(),
        e2.kv() == e1.kv(),
        e2.next_insert_spec() == e1.next_insert_spec(),
{
}

} // verus!
