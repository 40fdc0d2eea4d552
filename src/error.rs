//! The kinds of failure the library reports.
use vstd::prelude::*;

verus! {

/// Why an operation failed. Every failure aborts the operation it happens in;
/// none is retried here.
#[derive(Debug, Clone, Copy, PartialEq, Eq, Structural)]
pub enum ErrorKind {
    /// The authentication tag did not verify: wrong key or passphrase, or
    /// damaged bytes. Nothing more is told.
    CryptoError,
    /// A blob, manifest or commit carries a format version this library does not read.
    VersionError,
    /// Bytes fetched under an address do not hash to that address.
    IntegrityError,
    /// The remote HEAD moved since it was last observed.
    ConcurrencyConflict,
    /// A commit or blob that is needed is not present locally.
    NotFoundError,
    /// The project configuration is malformed or incomplete.
    ConfigError,
    /// The system's random number generator could not be read.
    EntropyUnavailable,
    /// A payload too long for the cipher (`u32::MAX` blocks of 64 bytes or more).
    PayloadTooLarge,
    /// Plaintext that opened correctly does not decode as the expected record.
    MalformedData,
}

} // verus!
