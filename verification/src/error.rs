//! Error types for the media-lock library.

use vstd::prelude::*;

verus! {

/// `std::io::Error` travels through the library unchanged.
#[verifier::external_type_specification]
#[verifier::external_body]
pub struct ExIoError(std::io::Error);

/// `serde_json::Error` travels through the library unchanged.
#[verifier::external_type_specification]
#[verifier::external_body]
pub struct ExJsonError(serde_json::Error);

/// Main error type of the library.
#[derive(Debug)]
pub enum AppError {
    /// The file is locked by another session (holds the lock file path).
    FileLocked(String),
    /// No usable password was supplied.
    InvalidPassword,
    /// Authentication failed (wrong password or corrupted file).
    AuthenticationFailed,
    /// The file already carries the encryption footer.
    AlreadyEncrypted,
    /// The file carries no encryption footer.
    NotEncrypted,
    /// A previous session left a write-ahead log behind; recovery is required.
    PreviousSessionFailed,
    /// The container format is not supported.
    UnsupportedFormat(String),
    /// The file structure is invalid.
    InvalidStructure(String),
    /// The write-ahead log is incomplete or corrupted.
    WalChecksumError,
    /// An I/O error.
    Io(std::io::Error),
    /// A JSON (lock file) error.
    Json(serde_json::Error),
    /// A cryptographic primitive failed.
    Crypto(String),
    /// A parser error.
    Parser(String),
    /// An offset or length computation overflowed.
    IntegerOverflow,
}

/// The error `std::io::ErrorKind::UnexpectedEof`, which the parsers report when
/// a structure runs past the end of the data.
#[verifier::external_body]
pub(crate) fn unexpected_eof() -> (e: std::io::Error) {
    std::io::Error::from(std::io::ErrorKind::UnexpectedEof)
}

} // verus!
