//! Errors raised while opening a stream.
use crate::header::RawEventType;
use vstd::prelude::*;

verus! {

/// Declares `std::path::PathBuf`, opaque, so that an open error can carry
/// the path it failed on.
#[verifier::external_type_specification]
#[verifier::external_body]
pub struct ExPathBuf(std::path::PathBuf);

/// Declares `std::io::Error`, opaque, so that an open error can carry the
/// cause reported by the file system.
#[verifier::external_type_specification]
#[verifier::external_body]
pub struct ExIoError(std::io::Error);

#[derive(Debug)]
pub enum RawFileReaderError {
    /// The file at this path could not be opened.
    FileOpenError(std::path::PathBuf, std::io::Error),
    /// The header could not be read.
    ReadBytesFailed,
    /// The header could not be parsed.
    ParseHeaderFailed,
    /// The header names this format, which is not supported.
    UnsupportedEventType(String),
    /// The header names this format, which is not known.
    UnknownEventType(String),
    /// No decoder is implemented for this format.
    DecoderNotImplemented(RawEventType),
    /// The header names no format.
    EventTypeNotFound,
    Unknown,
}

} // verus!
