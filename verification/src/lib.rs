//! An embedded, append-only key-value store backed by a memory-mapped region.
//!
//! The store is a write-ahead-log-style database with fixed-length keys: a
//! 64-byte header followed by a strictly growing log of records, each record
//! being a 4-byte value length, the key, and the value bytes. An in-memory
//! index from key to record offset is rebuilt by scanning the log whenever
//! the store is opened.

pub mod codec;
pub mod error;
pub mod headers;
pub mod records;
pub mod region;
pub mod shack;
pub mod unchecked_cast;
