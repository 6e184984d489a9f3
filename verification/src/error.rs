//! Errors of serialization and deserialization.

use vstd::prelude::*;

verus! {

/// An error of the byte source or sink.
#[verifier::external_type_specification]
#[verifier::external_body]
pub struct ExIoError(std::io::Error);

/// The kind of an error of the byte source or sink.
#[verifier::external_type_specification]
#[verifier::external_body]
pub struct ExIoErrorKind(std::io::ErrorKind);

/// Serialization and deserialization error.
#[derive(Debug)]
pub enum Error {
    /// The byte source or sink failed.
    Io(std::io::Error),
    /// A varint does not end within its width.
    BadVarint,
    /// A length does not fit in `usize` or `u64`.
    UsizeOverflow,
    /// A read reached beyond the end of its block.
    EndOfBlock,
    /// The data is nested deeper than the configured limit.
    RecursionLimit,
    /// A length marker or an element announcement is invalid.
    BadLen,
    /// An identifier is reserved or not valid UTF-8.
    BadIdentifier,
    /// A boolean is neither 0 nor 1.
    BadBool,
    /// A character is empty or not valid UTF-8.
    BadChar,
    /// A string is not valid UTF-8.
    BadString,
    /// An option tag is neither 0 nor 1.
    BadOption,
    /// The format is not self-describing.
    DeserializeAnyUnsupported,
    /// The data does not begin with a header.
    BadHeader,
    /// The header states whether identifiers are serialized otherwise than
    /// the configuration; holds what the header states.
    WithIdentsMismatch(bool),
    /// The header states a version of the data format this build cannot read.
    UnsupportedVersion(u8),
}

/// The kind of an I/O error.
#[verifier::external_body]
pub(crate) fn io_error_kind(err: &std::io::Error) -> std::io::ErrorKind {
    err.kind()
}

/// An I/O error of the specified kind.
#[verifier::external_body]
pub(crate) fn io_error_from_kind(kind: std::io::ErrorKind) -> std::io::Error {
    std::io::Error::from(kind)
}

} // verus!
