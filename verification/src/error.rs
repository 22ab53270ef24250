//! The failure kinds surfaced by the store.

use vstd::prelude::*;

verus! {

/// Relies on std::io::Error: carried opaquely inside [`StufferShackError`] so
/// that a fault reported by the memory-mapping layer reaches the caller.
#[verifier::external_type_specification]
#[verifier::external_body]
pub struct ExIoError(std::io::Error);

/// A database (header or log structure) validation error.
#[derive(Clone, Copy, Debug, PartialEq, Eq, Structural)]
pub enum InvalidDatabaseError {
    /// The first bytes were not equal to the magic file signature.
    InvalidMagic,
    /// The endianness sentinel found in the header differed from the expected one.
    EndiannessMismatch,
    /// The format version found in the header is not supported.
    UnsupportedVersion {
        /// The version found in the database header.
        version: u32,
    },
    /// The key length configured for this store does not match the opened database.
    KeyLengthMismatch {
        /// The key length that was expected, from how the store was opened.
        expected: u16,
        /// The key length found in the database header.
        actual: u16,
    },
    /// The configured key length is too large to fit the header's 16-bit field.
    KeyLengthOverflow,
    /// A record in the log overruns the region that `next_insert` declares,
    /// or `next_insert` itself lies outside the mapped region.
    TruncatedRecord,
}

/// Top-level error for the store.
#[derive(Debug)]
pub enum StufferShackError {
    /// Error opening or mapping the backing region.
    DatabaseOpen(std::io::Error),
    /// The backing region does not hold a valid database.
    DatabaseInit(InvalidDatabaseError),
    /// The key being written is already present; keys are never overwritten.
    DuplicateKey,
    /// The value being written does not fit the record's 32-bit length field.
    ValueTooLarge,
    /// The record being written does not fit in the remaining reserved capacity.
    StoreFull,
}

} // verus!
