//! The fixed 64-byte database header.
//!
//! Layout, byte-exact, at offset 0 of the mapped region:
//!
//! | offset | size | field                                   |
//! |--------|------|-----------------------------------------|
//! | 0      | 16   | magic signature                         |
//! | 16     | 4    | endianness sentinel                     |
//! | 20     | 4    | format version (must be 1)              |
//! | 24     | 8    | next_insert                             |
//! | 32     | 2    | key_length                              |
//! | 34     | 30   | reserved, zero-filled                   |

use crate::codec::{read_u16_at, read_u32_at, read_u64_at, u16_at, u32_at, u64_at};
use crate::error::InvalidDatabaseError;
use vstd::bytes::{u16_to_le_bytes, u32_to_le_bytes, u64_to_le_bytes};
use vstd::prelude::*;
use vstd::slice::{slice_subrange, slice_to_vec};

verus! {

broadcast use vstd::seq::group_seq_axioms;

/// The size of the database header in bytes.
pub const HEADER_SIZE: usize = 64;

/// Magic number used to check endianness.
pub const ENDIANNESS_CHECK_CONST: u32 = 0xA1B2C3D4;

/// The format version this implementation supports.
pub const SUPPORTED_VERSION: u32 = 1;

/// The magic bytes, indicating that a region holds a stuffer shack database:
/// the ASCII string `STUFFER_SHACK___`.
pub open spec fn spec_magic() -> Seq<u8> {
    seq![
        83u8, 84u8, 85u8, 70u8, 70u8, 69u8, 82u8, 95u8, 83u8, 72u8, 65u8, 67u8, 75u8, 95u8, 95u8,
        95u8,
    ]
}

/// The magic bytes as a vector.
pub fn magic_bytes() -> (r: Vec<u8>)
    ensures
        r@ == spec_magic(),
{
    let r: Vec<u8> = vec![83, 84, 85, 70, 70, 69, 82, 95, 83, 72, 65, 67, 75, 95, 95, 95];
    proof {
        assert(r@ =~= spec_magic());
    }
    r
}

/// The magic signature stored in a region's header.
pub open spec fn header_magic(c: Seq<u8>) -> Seq<u8> {
    c.subrange(0, 16)
}

/// The endianness sentinel stored in a region's header.
pub open spec fn header_endianness(c: Seq<u8>) -> u32 {
    u32_at(c, 16)
}

/// The format version stored in a region's header.
pub open spec fn header_version(c: Seq<u8>) -> u32 {
    u32_at(c, 20)
}

/// The insertion pointer stored in a region's header: the data offset at
/// which the next record will be appended.
pub open spec fn header_next_insert(c: Seq<u8>) -> u64 {
    u64_at(c, 24)
}

/// The key length stored in a region's header.
pub open spec fn header_key_length(c: Seq<u8>) -> u16 {
    u16_at(c, 32)
}

/// The header of region `c` is valid for a store with keys of `key_size`
/// bytes: magic, endianness sentinel and version hold their expected
/// constants, and the stored key length matches.
pub open spec fn header_wf(c: Seq<u8>, key_size: nat) -> bool {
    &&& header_magic(c) == spec_magic()
    &&& header_endianness(c) == ENDIANNESS_CHECK_CONST
    &&& header_version(c) == SUPPORTED_VERSION
    &&& header_key_length(c) as nat == key_size
}

/// What validating the header of region `c` against `key_size` yields: the
/// first check that fails, in the order magic, endianness, version,
/// key-length overflow, key-length mismatch; success when all pass.
pub open spec fn spec_validate(c: Seq<u8>, key_size: nat) -> Result<(), InvalidDatabaseError> {
    if header_magic(c) != spec_magic() {
        Err(InvalidDatabaseError::InvalidMagic)
    } else if header_endianness(c) != ENDIANNESS_CHECK_CONST {
        Err(InvalidDatabaseError::EndiannessMismatch)
    } else if header_version(c) != SUPPORTED_VERSION {
        Err(InvalidDatabaseError::UnsupportedVersion { version: header_version(c) })
    } else if key_size > u16::MAX as nat {
        Err(InvalidDatabaseError::KeyLengthOverflow)
    } else if header_key_length(c) as nat != key_size {
        Err(
            InvalidDatabaseError::KeyLengthMismatch {
                expected: key_size as u16,
                actual: header_key_length(c),
            },
        )
    } else {
        Ok(())
    }
}

/// The header fields of a region are those of its first 64 bytes.
pub proof fn lemma_header_prefix(c: Seq<u8>)
    requires
        c.len() >= HEADER_SIZE,
    ensures
        header_magic(c.subrange(0, HEADER_SIZE as int)) == header_magic(c),
        header_endianness(c.subrange(0, HEADER_SIZE as int)) == header_endianness(c),
        header_version(c.subrange(0, HEADER_SIZE as int)) == header_version(c),
        header_next_insert(c.subrange(0, HEADER_SIZE as int)) == header_next_insert(c),
        header_key_length(c.subrange(0, HEADER_SIZE as int)) == header_key_length(c),
{
    let hb = c.subrange(0, HEADER_SIZE as int);
    assert(hb.subrange(0, 16) =~= c.subrange(0, 16));
    assert(hb.subrange(16, 20) =~= c.subrange(16, 20));
    assert(hb.subrange(20, 24) =~= c.subrange(20, 24));
    assert(hb.subrange(24, 32) =~= c.subrange(24, 32));
    assert(hb.subrange(32, 34) =~= c.subrange(32, 34));
}

/// The packed fields of an encoded header occupy the expected offsets.
proof fn lemma_packed_fields(m: Seq<u8>, e: Seq<u8>, v: Seq<u8>, n: Seq<u8>, k: Seq<u8>)
    requires
        m.len() == 16,
        e.len() == 4,
        v.len() == 4,
        n.len() == 8,
        k.len() == 2,
    ensures
        (m + e + v + n + k).len() == 34,
        (m + e + v + n + k).subrange(0, 16) == m,
        (m + e + v + n + k).subrange(16, 20) == e,
        (m + e + v + n + k).subrange(20, 24) == v,
        (m + e + v + n + k).subrange(24, 32) == n,
        (m + e + v + n + k).subrange(32, 34) == k,
{
    let p = m + e + v + n + k;
    assert forall|j: int| 0 <= j < 16 implies p[j] == m[j] by {
        assert((m + e)[j] == m[j]);
        assert((m + e + v)[j] == (m + e)[j]);
        assert((m + e + v + n)[j] == (m + e + v)[j]);
        assert(p[j] == (m + e + v + n)[j]);
    }
    assert forall|j: int| 16 <= j < 20 implies p[j] == e[j - 16] by {
        assert((m + e)[j] == e[j - 16]);
        assert((m + e + v)[j] == (m + e)[j]);
        assert((m + e + v + n)[j] == (m + e + v)[j]);
        assert(p[j] == (m + e + v + n)[j]);
    }
    assert forall|j: int| 20 <= j < 24 implies p[j] == v[j - 20] by {
        assert((m + e + v)[j] == v[j - 20]);
        assert((m + e + v + n)[j] == (m + e + v)[j]);
        assert(p[j] == (m + e + v + n)[j]);
    }
    assert forall|j: int| 24 <= j < 32 implies p[j] == n[j - 24] by {
        assert((m + e + v + n)[j] == n[j - 24]);
        assert(p[j] == (m + e + v + n)[j]);
    }
    assert forall|j: int| 32 <= j < 34 implies p[j] == k[j - 32] by {
        assert(p[j] == k[j - 32]);
    }
    assert(p.subrange(0, 16) =~= m);
    assert(p.subrange(16, 20) =~= e);
    assert(p.subrange(20, 24) =~= v);
    assert(p.subrange(24, 32) =~= n);
    assert(p.subrange(32, 34) =~= k);
}

/// Database header, in decoded form.
///
/// The reserved tail of the encoded header carries no information and has no
/// field here; [`DatabaseHeader::encode`] writes it as zeroes.
pub struct DatabaseHeader {
    /// Magic bytes, see [`spec_magic`].
    pub magic_bytes: Vec<u8>,
    /// The value [`ENDIANNESS_CHECK_CONST`], stored little-endian.
    pub endianness_check: u32,
    /// Database version. Currently must be 1.
    pub version: u32,
    /// The insertion pointer for new values.
    pub next_insert: u64,
    /// The size of a key.
    pub key_length: u16,
}

/// What [`DatabaseHeader::check_valid`] returns: the first check that fails,
/// in the order magic, endianness, version, key-length overflow, key-length
/// mismatch; success when all pass.
pub open spec fn spec_check_valid(h: DatabaseHeader, key_size: nat) -> Result<
    (),
    InvalidDatabaseError,
> {
    if h.magic_bytes@ != spec_magic() {
        Err(InvalidDatabaseError::InvalidMagic)
    } else if h.endianness_check != ENDIANNESS_CHECK_CONST {
        Err(InvalidDatabaseError::EndiannessMismatch)
    } else if h.version != SUPPORTED_VERSION {
        Err(InvalidDatabaseError::UnsupportedVersion { version: h.version })
    } else if key_size > u16::MAX as nat {
        Err(InvalidDatabaseError::KeyLengthOverflow)
    } else if h.key_length as nat != key_size {
        Err(
            InvalidDatabaseError::KeyLengthMismatch {
                expected: key_size as u16,
                actual: h.key_length,
            },
        )
    } else {
        Ok(())
    }
}

impl DatabaseHeader {
    /// Decodes the header stored in the first [`HEADER_SIZE`] bytes of `b`.
    pub fn decode(b: &[u8]) -> (h: DatabaseHeader)
        requires
            b@.len() >= HEADER_SIZE,
        ensures
            h.magic_bytes@ == header_magic(b@),
            h.endianness_check == header_endianness(b@),
            h.version == header_version(b@),
            h.next_insert == header_next_insert(b@),
            h.key_length == header_key_length(b@),
    {
        DatabaseHeader {
            magic_bytes: slice_to_vec(slice_subrange(b, 0, 16)),
            endianness_check: read_u32_at(b, 16),
            version: read_u32_at(b, 20),
            next_insert: read_u64_at(b, 24),
            key_length: read_u16_at(b, 32),
        }
    }

    /// Encodes the header as its 64-byte on-disk form, reserved bytes zeroed.
    pub fn encode(&self) -> (r: Vec<u8>)
        requires
            self.magic_bytes@.len() == 16,
        ensures
            r@.len() == HEADER_SIZE,
            header_magic(r@) == self.magic_bytes@,
            header_endianness(r@) == self.endianness_check,
            header_version(r@) == self.version,
            header_next_insert(r@) == self.next_insert,
            header_key_length(r@) == self.key_length,
            forall|i: int| 34 <= i < 64 ==> r@[i] == 0u8,
    {
        let ghost packed = self.magic_bytes@ + vstd::bytes::spec_u32_to_le_bytes(
            self.endianness_check,
        ) + vstd::bytes::spec_u32_to_le_bytes(self.version) + vstd::bytes::spec_u64_to_le_bytes(
            self.next_insert,
        ) + vstd::bytes::spec_u16_to_le_bytes(self.key_length);
        let mut r: Vec<u8> = slice_to_vec(self.magic_bytes.as_slice());
        let mut endian = u32_to_le_bytes(self.endianness_check);
        let mut version = u32_to_le_bytes(self.version);
        let mut next_insert = u64_to_le_bytes(self.next_insert);
        let mut key_length = u16_to_le_bytes(self.key_length);
        r.append(&mut endian);
        r.append(&mut version);
        r.append(&mut next_insert);
        r.append(&mut key_length);
        proof {
            assert(r@ =~= packed);
        }
        let mut i: usize = 34;
        while i < 64
            invariant
                34 <= i <= 64,
                r@.len() == i,
                r@.subrange(0, 34) == packed,
                forall|j: int| 34 <= j < i ==> r@[j] == 0u8,
            decreases 64 - i,
        {
            r.push(0);
            proof {
                assert(r@.subrange(0, 34) =~= packed);
            }
            i = i + 1;
        }
        proof {
            lemma_packed_fields(
                self.magic_bytes@,
                vstd::bytes::spec_u32_to_le_bytes(self.endianness_check),
                vstd::bytes::spec_u32_to_le_bytes(self.version),
                vstd::bytes::spec_u64_to_le_bytes(self.next_insert),
                vstd::bytes::spec_u16_to_le_bytes(self.key_length),
            );
            assert(forall|j: int| 0 <= j < 34 ==> r@[j] == packed[j]) by {
                assert(r@.subrange(0, 34) == packed);
            }
            assert(header_magic(r@) =~= packed.subrange(0, 16));
            assert(r@.subrange(16, 20) =~= packed.subrange(16, 20));
            crate::codec::lemma_u32_at_encoded(r@, 16, self.endianness_check);
            assert(r@.subrange(20, 24) =~= packed.subrange(20, 24));
            crate::codec::lemma_u32_at_encoded(r@, 20, self.version);
            assert(r@.subrange(24, 32) =~= packed.subrange(24, 32));
            crate::codec::lemma_u64_at_encoded(r@, 24, self.next_insert);
            assert(r@.subrange(32, 34) =~= packed.subrange(32, 34));
            crate::codec::lemma_u16_at_encoded(r@, 32, self.key_length);
        }
        r
    }

    /// Checks that the header is valid for keys of `key_size` bytes.
    pub fn check_valid(&self, key_size: usize) -> (r: Result<(), InvalidDatabaseError>)
        ensures
            r == spec_check_valid(*self, key_size as nat),
            r is Ok <==> (self.magic_bytes@ == spec_magic() && self.endianness_check
                == ENDIANNESS_CHECK_CONST && self.version == SUPPORTED_VERSION && self.key_length
                as nat == key_size as nat),
    {
        let magic = magic_bytes();
        if !crate::codec::bytes_eq(self.magic_bytes.as_slice(), magic.as_slice()) {
            return Err(InvalidDatabaseError::InvalidMagic);
        }
        if self.endianness_check != ENDIANNESS_CHECK_CONST {
            return Err(InvalidDatabaseError::EndiannessMismatch);
        }
        if self.version != SUPPORTED_VERSION {
            return Err(InvalidDatabaseError::UnsupportedVersion { version: self.version });
        }
        if key_size > u16::MAX as usize {
            return Err(InvalidDatabaseError::KeyLengthOverflow);
        }
        if self.key_length as usize != key_size {
            return Err(
                InvalidDatabaseError::KeyLengthMismatch {
                    expected: key_size as u16,
                    actual: self.key_length,
                },
            );
        }
        Ok(())
    }

    /// Resets the header to that of a freshly created, empty store with keys
    /// of `key_size` bytes: the insertion pointer starts at [`HEADER_SIZE`].
    pub fn reset(&mut self, key_size: u16)
        ensures
            final(self).magic_bytes@ == spec_magic(),
            final(self).endianness_check == ENDIANNESS_CHECK_CONST,
            final(self).version == SUPPORTED_VERSION,
            final(self).next_insert == HEADER_SIZE as u64,
            final(self).key_length == key_size,
    {
        self.magic_bytes = magic_bytes();
        self.endianness_check = ENDIANNESS_CHECK_CONST;
        self.version = SUPPORTED_VERSION;
        self.next_insert = HEADER_SIZE as u64;
        self.key_length = key_size;
    }
}

} // verus!
