//! The on-disk format: header validation, field codecs, typed access.

use stuffer_shack::codec::{bytes_eq, read_u16_at, read_u32_at, read_u64_at};
use stuffer_shack::error::{InvalidDatabaseError, StufferShackError};
use stuffer_shack::headers::DatabaseHeader;
use stuffer_shack::records::data_offset_to_memory_offset;
use stuffer_shack::shack::StufferShack;
use stuffer_shack::unchecked_cast::{Pod, UncheckedCast, UncheckedCastMut};

const MAGIC: &[u8; 16] = b"STUFFER_SHACK___";

/// Builds an anonymous region holding a header with the given fields.
fn region_with_header(
    magic: &[u8; 16],
    endianness: u32,
    version: u32,
    next_insert: u64,
    key_length: u16,
) -> memmap::MmapMut {
    let mut map = memmap::MmapMut::map_anon(4096).unwrap();
    map[0..16].copy_from_slice(magic);
    map[16..20].copy_from_slice(&endianness.to_le_bytes());
    map[20..24].copy_from_slice(&version.to_le_bytes());
    map[24..32].copy_from_slice(&next_insert.to_le_bytes());
    map[32..34].copy_from_slice(&key_length.to_le_bytes());
    map
}

fn open_err(map: memmap::MmapMut, key_size: usize) -> InvalidDatabaseError {
    match StufferShack::new(map, false, key_size) {
        Ok(_) => panic!("open unexpectedly succeeded"),
        Err((_, StufferShackError::DatabaseInit(e))) => e,
        Err((_, other)) => panic!("unexpected error: {:?}", other),
    }
}

#[test]
fn failed_open_hands_region_back_unchanged() {
    let map = region_with_header(MAGIC, 0xA1B2C3D4, 2, 64, 32);
    let before: Vec<u8> = map[..].to_vec();
    match StufferShack::new(map, false, 32) {
        Ok(_) => panic!("open unexpectedly succeeded"),
        Err((rejected, e)) => {
            assert!(matches!(
                e,
                StufferShackError::DatabaseInit(InvalidDatabaseError::UnsupportedVersion {
                    version: 2
                })
            ));
            assert_eq!(&rejected[..], &before[..]);
        }
    }
}

#[test]
fn open_rejects_bad_magic() {
    let map = region_with_header(&[0u8; 16], 0xA1B2C3D4, 1, 64, 32);
    assert_eq!(open_err(map, 32), InvalidDatabaseError::InvalidMagic);
}

#[test]
fn open_rejects_endianness_mismatch() {
    // The sentinel as a big-endian writer would have laid it down.
    let map = region_with_header(MAGIC, 0xD4C3B2A1, 1, 64, 32);
    assert_eq!(open_err(map, 32), InvalidDatabaseError::EndiannessMismatch);
}

#[test]
fn open_rejects_unsupported_version() {
    let map = region_with_header(MAGIC, 0xA1B2C3D4, 2, 64, 32);
    assert_eq!(
        open_err(map, 32),
        InvalidDatabaseError::UnsupportedVersion { version: 2 }
    );
}

#[test]
fn open_rejects_key_length_mismatch() {
    let map = region_with_header(MAGIC, 0xA1B2C3D4, 1, 64, 16);
    assert_eq!(
        open_err(map, 32),
        InvalidDatabaseError::KeyLengthMismatch {
            expected: 32,
            actual: 16
        }
    );
}

#[test]
fn open_rejects_key_length_overflow() {
    let map = region_with_header(MAGIC, 0xA1B2C3D4, 1, 64, 32);
    assert_eq!(open_err(map, 70_000), InvalidDatabaseError::KeyLengthOverflow);
}

#[test]
fn open_rejects_next_insert_past_capacity() {
    let map = region_with_header(MAGIC, 0xA1B2C3D4, 1, 1 << 40, 32);
    assert_eq!(open_err(map, 32), InvalidDatabaseError::TruncatedRecord);
}

#[test]
fn open_rejects_next_insert_below_header_size() {
    let map = region_with_header(MAGIC, 0xA1B2C3D4, 1, 0, 32);
    assert_eq!(open_err(map, 32), InvalidDatabaseError::TruncatedRecord);
}

#[test]
fn open_rejects_record_overrunning_log() {
    // next_insert declares two bytes of log: no record header fits in them.
    let map = region_with_header(MAGIC, 0xA1B2C3D4, 1, 66, 32);
    assert_eq!(open_err(map, 32), InvalidDatabaseError::TruncatedRecord);
}

#[test]
fn open_rejects_record_value_overrunning_log() {
    // One record whose declared value length runs past next_insert.
    let mut map = region_with_header(MAGIC, 0xA1B2C3D4, 1, 64 + 4 + 32 + 8, 32);
    let record_start = data_offset_to_memory_offset(64);
    map[record_start..record_start + 4].copy_from_slice(&100u32.to_le_bytes());
    assert_eq!(open_err(map, 32), InvalidDatabaseError::TruncatedRecord);
}

#[test]
fn open_accepts_valid_existing_region() {
    // An empty, freshly reset store: next_insert equals the header size.
    let map = region_with_header(MAGIC, 0xA1B2C3D4, 1, 64, 32);
    let shack = StufferShack::new(map, false, 32).expect("open failed");
    assert_eq!(shack.size(), 64);
    assert_eq!(shack.read(&[0u8; 32]), None);
}

#[test]
fn check_valid_reports_first_failure() {
    let mut hdr = DatabaseHeader {
        magic_bytes: Vec::new(),
        endianness_check: 0,
        version: 0,
        next_insert: 0,
        key_length: 0,
    };
    hdr.reset(32);
    assert!(hdr.check_valid(32).is_ok());
    assert_eq!(
        hdr.check_valid(16),
        Err(InvalidDatabaseError::KeyLengthMismatch {
            expected: 16,
            actual: 32
        })
    );
    assert_eq!(
        hdr.check_valid(1 << 17),
        Err(InvalidDatabaseError::KeyLengthOverflow)
    );

    hdr.version = 9;
    assert_eq!(
        hdr.check_valid(32),
        Err(InvalidDatabaseError::UnsupportedVersion { version: 9 })
    );

    hdr.endianness_check = 1;
    assert_eq!(
        hdr.check_valid(32),
        Err(InvalidDatabaseError::EndiannessMismatch)
    );

    hdr.magic_bytes = vec![0; 16];
    assert_eq!(hdr.check_valid(32), Err(InvalidDatabaseError::InvalidMagic));
}

#[test]
fn header_reset_fields() {
    let mut hdr = DatabaseHeader {
        magic_bytes: Vec::new(),
        endianness_check: 0,
        version: 0,
        next_insert: 99,
        key_length: 0,
    };
    hdr.reset(32);
    assert_eq!(hdr.magic_bytes, MAGIC.to_vec());
    assert_eq!(hdr.endianness_check, 0xA1B2C3D4);
    assert_eq!(hdr.version, 1);
    assert_eq!(hdr.next_insert, 64);
    assert_eq!(hdr.key_length, 32);
}

#[test]
fn header_encode_decode_round_trip() {
    let mut hdr = DatabaseHeader {
        magic_bytes: Vec::new(),
        endianness_check: 0,
        version: 0,
        next_insert: 0,
        key_length: 0,
    };
    hdr.reset(48);
    hdr.next_insert = 0x1122334455667788;
    let bytes = hdr.encode();
    assert_eq!(bytes.len(), 64);
    assert_eq!(&bytes[0..16], MAGIC);
    assert_eq!(&bytes[34..64], &[0u8; 30]);

    let decoded = DatabaseHeader::decode(&bytes);
    assert_eq!(decoded.magic_bytes, hdr.magic_bytes);
    assert_eq!(decoded.endianness_check, hdr.endianness_check);
    assert_eq!(decoded.version, hdr.version);
    assert_eq!(decoded.next_insert, hdr.next_insert);
    assert_eq!(decoded.key_length, hdr.key_length);
}

#[test]
fn field_readers_decode_little_endian() {
    let bytes = [0x78u8, 0x56, 0x34, 0x12, 0xEF, 0xCD, 0xAB, 0x89, 0x00, 0x01];
    assert_eq!(read_u16_at(&bytes, 0), 0x5678);
    assert_eq!(read_u32_at(&bytes, 0), 0x12345678);
    assert_eq!(read_u32_at(&bytes, 4), 0x89ABCDEF);
    assert_eq!(read_u64_at(&bytes, 0), 0x89ABCDEF12345678);
    assert_eq!(read_u16_at(&bytes, 8), 0x0100);
}

#[test]
fn bytes_eq_compares_contents() {
    assert!(bytes_eq(b"", b""));
    assert!(bytes_eq(b"abc", b"abc"));
    assert!(!bytes_eq(b"abc", b"abd"));
    assert!(!bytes_eq(b"abc", b"abcd"));
}

#[test]
fn data_offset_translation_adds_header_size() {
    assert_eq!(data_offset_to_memory_offset(0), 64);
    assert_eq!(data_offset_to_memory_offset(64), 128);
    assert_eq!(data_offset_to_memory_offset(1000), 1064);
}

#[test]
fn typed_view_round_trips_plain_values() {
    let mut map = memmap::MmapMut::map_anon(64).unwrap();
    map.put(0, 0xDEADBEEFu32);
    map.put(8, 0x1122334455667788u64);
    map.put(20, 0xCAFEu16);
    let a: u32 = map.at(0);
    let b: u64 = map.at(8);
    let c: u16 = map.at(20);
    assert_eq!(a, 0xDEADBEEF);
    assert_eq!(b, 0x1122334455667788);
    assert_eq!(c, 0xCAFE);
    // The bytes underneath are little-endian.
    assert_eq!(&map[0..4], &[0xEF, 0xBE, 0xAD, 0xDE]);
}

#[test]
fn pod_encodes_little_endian() {
    assert_eq!(0x1234u16.encode(), vec![0x34, 0x12]);
    assert_eq!(0xDEADBEEFu32.encode(), vec![0xEF, 0xBE, 0xAD, 0xDE]);
    assert_eq!(
        1u64.encode(),
        vec![1, 0, 0, 0, 0, 0, 0, 0]
    );
    assert_eq!(u16::read_from(&[0x34, 0x12]), 0x1234);
    assert_eq!(u32::read_from(&[0xEF, 0xBE, 0xAD, 0xDE]), 0xDEADBEEF);
    assert_eq!(u64::read_from(&[2, 0, 0, 0, 0, 0, 0, 0]), 2);
}

#[test]
fn engine_writes_expected_record_bytes() {
    // Open an engine on a region, write one record, reopen the raw region
    // and check the exact bytes the engine laid down.
    let map = region_with_header(MAGIC, 0xA1B2C3D4, 1, 64, 4);
    let mut shack = StufferShack::new(map, false, 4).unwrap();
    shack.write(b"KEY!", b"value").unwrap();
    assert_eq!(shack.size(), 64 + 4 + 4 + 5);

    let shack = shack.reopen().unwrap();
    assert_eq!(shack.read(b"KEY!"), Some(b"value".to_vec()));
}
