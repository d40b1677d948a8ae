//! The failures that reading and writing a dataset can report.

use vstd::prelude::*;

verus! {

/// A stable, enumerated kind for every failure of the store.
#[derive(Clone, Copy, Debug, PartialEq, Eq, Structural)]
pub enum Error {
    /// A storage failure, carried as the operating system's raw error number.
    IO(i32),
    /// A path that is not valid UTF-8.
    PathNotUTF8,
    /// A path that holds a zero byte at the given position.
    PathContainsNul { position: usize },
    Internal,
    UnexpectedEof,
    MmapFailed,
    /// The byte stream ended before a variable-length integer was complete.
    VlqUnderrun,
    /// A variable-length integer ran past its ten-byte bound.
    VlqOverflow,
    /// A compressed block that does not decode.
    BlockCorrupt,
    /// Text that is not hexadecimal.
    InvalidHex,
    /// Text that is not base64.
    InvalidBase64,
    /// Bytes that are not UTF-8.
    InvalidUtf8,
    WrongLogMagicNumber,
    WrongLogMajorVersion,
    UnsupportedLogMinorVersion,
    LogTooSmall,
    LogClosed,
    LogIteratorInactive,
    LogIteratorMismatch,
    LogIteratorClosed,
    LogHeaderCorrupt,
    InvalidCompressionBlockSize,
    InvalidCompressionType,
    WrongHashMagicNumber,
    WrongHashMajorVersion,
    UnsupportedHashMinorVersion,
    HashTooSmall,
    HashClosed,
    FileIdentifierMismatch,
    HashHeaderCorrupt,
    HashSizeInvalid,
    AddressSizeInvalid,
}

} // verus!
