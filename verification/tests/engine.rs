//! Behavior of the storage engine: round trips, uniqueness, recovery, size.

use stuffer_shack::error::{InvalidDatabaseError, StufferShackError};
use stuffer_shack::shack::StufferShack;

const KEY_SIZE: usize = 32;
const CAPACITY: usize = 1024 * 1024;

fn open(capacity: usize) -> StufferShack {
    StufferShack::open_ephemeral(capacity, KEY_SIZE).expect("open_ephemeral failed")
}

#[test]
fn concrete_scenario_32_byte_keys() {
    let mut shack = open(CAPACITY);

    let key_zero = [0u8; 32];
    assert!(shack.write(&key_zero, b"hello").is_ok());
    assert_eq!(shack.read(&key_zero), Some(b"hello".to_vec()));

    let err = shack.write(&key_zero, b"x").unwrap_err();
    assert!(matches!(err, StufferShackError::DuplicateKey));

    let key_one = [1u8; 32];
    assert!(shack.write(&key_one, b"").is_ok());
    assert_eq!(shack.read(&key_one), Some(Vec::new()));

    let shack = shack.reopen().expect("reopen failed");
    assert_eq!(shack.read(&key_zero), Some(b"hello".to_vec()));
    assert_eq!(shack.read(&key_one), Some(Vec::new()));
}

#[test]
fn round_trip_many_keys() {
    let mut shack = open(CAPACITY);
    for byte in 0u8..100 {
        let key = [byte; 32];
        let value: Vec<u8> = (0..byte as usize * 3).map(|v| v as u8).collect();
        assert!(shack.write(&key, &value).is_ok());
    }
    for byte in 0u8..100 {
        let key = [byte; 32];
        let value: Vec<u8> = (0..byte as usize * 3).map(|v| v as u8).collect();
        assert_eq!(shack.read(&key), Some(value));
    }
}

#[test]
fn read_absent_key() {
    let mut shack = open(CAPACITY);
    assert_eq!(shack.read(&[7u8; 32]), None);
    shack.write(&[1u8; 32], b"present").unwrap();
    assert_eq!(shack.read(&[7u8; 32]), None);
}

#[test]
fn duplicate_key_preserves_value_and_size() {
    let mut shack = open(CAPACITY);
    let key = [9u8; 32];
    shack.write(&key, b"original").unwrap();
    let size_before = shack.size();

    let err = shack.write(&key, b"replacement").unwrap_err();
    assert!(matches!(err, StufferShackError::DuplicateKey));
    assert_eq!(shack.read(&key), Some(b"original".to_vec()));
    assert_eq!(shack.size(), size_before);
}

#[test]
fn size_starts_at_header_size() {
    let shack = open(CAPACITY);
    assert_eq!(shack.size(), 64);
}

#[test]
fn size_grows_by_exact_record_size() {
    let mut shack = open(CAPACITY);
    let mut expected: u64 = 64;
    assert_eq!(shack.size(), expected);

    shack.write(&[1u8; 32], b"hello").unwrap();
    expected += 4 + 32 + 5;
    assert_eq!(shack.size(), expected);

    shack.write(&[2u8; 32], b"").unwrap();
    expected += 4 + 32;
    assert_eq!(shack.size(), expected);

    let value = vec![0xAB; 1000];
    shack.write(&[3u8; 32], &value).unwrap();
    expected += 4 + 32 + 1000;
    assert_eq!(shack.size(), expected);
}

#[test]
fn size_unchanged_by_failed_writes() {
    let mut shack = open(CAPACITY);
    shack.write(&[1u8; 32], b"v").unwrap();
    let size = shack.size();
    assert!(shack.write(&[1u8; 32], b"w").is_err());
    assert_eq!(shack.size(), size);
}

#[test]
fn reopen_recovers_index_and_size() {
    let mut shack = open(CAPACITY);
    let values: Vec<Vec<u8>> = vec![
        b"first".to_vec(),
        Vec::new(),
        vec![0u8; 300],
        b"x".to_vec(),
        (0u8..=255).collect(),
    ];
    for (i, value) in values.iter().enumerate() {
        let key = [i as u8 + 10; 32];
        shack.write(&key, value).unwrap();
    }
    let size_before = shack.size();

    let shack = shack.reopen().expect("reopen failed");
    assert_eq!(shack.size(), size_before);
    for (i, value) in values.iter().enumerate() {
        let key = [i as u8 + 10; 32];
        assert_eq!(shack.read(&key), Some(value.clone()));
    }
    assert_eq!(shack.read(&[200u8; 32]), None);
}

#[test]
fn reopen_empty_store() {
    let shack = open(CAPACITY);
    let shack = shack.reopen().expect("reopen failed");
    assert_eq!(shack.size(), 64);
    assert_eq!(shack.read(&[0u8; 32]), None);
}

#[test]
fn reopen_twice_then_write() {
    let mut shack = open(CAPACITY);
    shack.write(&[1u8; 32], b"one").unwrap();
    let mut shack = shack.reopen().unwrap();
    shack.write(&[2u8; 32], b"two").unwrap();
    let shack = shack.reopen().unwrap();
    assert_eq!(shack.read(&[1u8; 32]), Some(b"one".to_vec()));
    assert_eq!(shack.read(&[2u8; 32]), Some(b"two".to_vec()));
}

#[test]
fn store_full_is_reported_and_harmless() {
    // Capacity 256: the header takes 64 bytes, the first record starts at
    // memory offset 128, so 128 bytes remain for records.
    let mut shack = StufferShack::open_ephemeral(256, KEY_SIZE).unwrap();

    let err = shack.write(&[1u8; 32], &vec![0u8; 100]).unwrap_err();
    assert!(matches!(err, StufferShackError::StoreFull));
    assert_eq!(shack.size(), 64);

    // 4 + 32 + 60 = 96 bytes fit.
    assert!(shack.write(&[1u8; 32], &vec![7u8; 60]).is_ok());
    let err = shack.write(&[2u8; 32], &vec![0u8; 60]).unwrap_err();
    assert!(matches!(err, StufferShackError::StoreFull));
    assert_eq!(shack.read(&[1u8; 32]), Some(vec![7u8; 60]));
}

#[test]
fn key_length_overflow_on_open() {
    let err = StufferShack::open_ephemeral(CAPACITY, 70_000).unwrap_err();
    match err {
        StufferShackError::DatabaseInit(e) => {
            assert_eq!(e, InvalidDatabaseError::KeyLengthOverflow)
        }
        other => panic!("unexpected error: {:?}", other),
    }
}

#[test]
fn zero_length_keys_are_usable() {
    let mut shack = StufferShack::open_ephemeral(4096, 0).unwrap();
    shack.write(b"", b"only value").unwrap();
    assert_eq!(shack.read(b""), Some(b"only value".to_vec()));
    assert!(matches!(
        shack.write(b"", b"again").unwrap_err(),
        StufferShackError::DuplicateKey
    ));
    assert_eq!(shack.size(), 64 + 4 + 10);
}

#[test]
fn binary_values_round_trip() {
    let mut shack = open(CAPACITY);
    let value: Vec<u8> = (0..=255u8).cycle().take(7000).collect();
    shack.write(&[42u8; 32], &value).unwrap();
    assert_eq!(shack.read(&[42u8; 32]), Some(value));
}
