//! Small helpers shared by the log and the index.

use crate::error::Error;
use vstd::prelude::*;
use vstd::slice::slice_to_vec;
use vstd::utf8::valid_utf8;

verus! {

/// "No such file or directory".
pub const ENOENT: i32 = 2;

/// "Bad file descriptor".
pub const EBADF: i32 = 9;

/// "Permission denied".
pub const EACCES: i32 = 13;

/// "Device or resource busy".
pub const EBUSY: i32 = 16;

/// "File exists".
pub const EEXIST: i32 = 17;

/// "Is a directory".
pub const EISDIR: i32 = 21;

/// "Too many open files in system".
pub const ENFILE: i32 = 23;

/// "File too large".
pub const EFBIG: i32 = 27;

/// "No space left on device".
pub const ENOSPC: i32 = 28;

/// "Value too large for defined data type".
pub const EOVERFLOW: i32 = 75;

/// The status codes of the store's C interface.
#[allow(non_camel_case_types)]
#[derive(Clone, Copy, Debug, PartialEq, Eq, Structural)]
pub enum returncode {
    SUCCESS,
    INTERNAL_ERROR,
    FILE_NOT_FOUND,
    PERMISSION_DENIED,
    TOO_MANY_OPEN_FILES,
    FILE_TOO_LARGE,
    FILE_ALREADY_EXISTS,
    FILE_BUSY,
    FILE_IS_DIRECTORY,
    FILE_SIZE_EXCEEDED,
    FILE_CLOSED,
    OUT_OF_DISK,
    UNEXPECTED_EOF,
    MMAP_FAILED,
    WRONG_LOG_MAGIC_NUMBER,
    WRONG_LOG_MAJOR_VERSION,
    UNSUPPORTED_LOG_MINOR_VERSION,
    LOG_TOO_SMALL,
    LOG_CLOSED,
    LOG_ITERATOR_INACTIVE,
    LOG_ITERATOR_MISMATCH,
    LOG_ITERATOR_CLOSED,
    LOG_HEADER_CORRUPT,
    INVALID_COMPRESSION_BLOCK_SIZE,
    INVALID_COMPRESSION_TYPE,
    WRONG_HASH_MAGIC_NUMBER,
    WRONG_HASH_MAJOR_VERSION,
    UNSUPPORTED_HASH_MINOR_VERSION,
    HASH_TOO_SMALL,
    HASH_CLOSED,
    FILE_IDENTIFIER_MISMATCH,
    HASH_HEADER_CORRUPT,
    HASH_SIZE_INVALID,
}

/// The failure that a status code stands for, or nothing for `SUCCESS`.
/// Storage failures become the operating system's error number; every other
/// status has a kind of its own.
pub open spec fn spec_handle(code: returncode) -> Result<(), Error> {
    match code {
        returncode::SUCCESS => Ok(()),
        returncode::INTERNAL_ERROR => Err(Error::Internal),
        returncode::FILE_NOT_FOUND => Err(Error::IO(ENOENT)),
        returncode::PERMISSION_DENIED => Err(Error::IO(EACCES)),
        returncode::TOO_MANY_OPEN_FILES => Err(Error::IO(ENFILE)),
        returncode::FILE_TOO_LARGE => Err(Error::IO(EOVERFLOW)),
        returncode::FILE_ALREADY_EXISTS => Err(Error::IO(EEXIST)),
        returncode::FILE_BUSY => Err(Error::IO(EBUSY)),
        returncode::FILE_IS_DIRECTORY => Err(Error::IO(EISDIR)),
        returncode::FILE_SIZE_EXCEEDED => Err(Error::IO(EFBIG)),
        returncode::FILE_CLOSED => Err(Error::IO(EBADF)),
        returncode::OUT_OF_DISK => Err(Error::IO(ENOSPC)),
        returncode::UNEXPECTED_EOF => Err(Error::UnexpectedEof),
        returncode::MMAP_FAILED => Err(Error::MmapFailed),
        returncode::WRONG_LOG_MAGIC_NUMBER => Err(Error::WrongLogMagicNumber),
        returncode::WRONG_LOG_MAJOR_VERSION => Err(Error::WrongLogMajorVersion),
        returncode::UNSUPPORTED_LOG_MINOR_VERSION => Err(Error::UnsupportedLogMinorVersion),
        returncode::LOG_TOO_SMALL => Err(Error::LogTooSmall),
        returncode::LOG_CLOSED => Err(Error::LogClosed),
        returncode::LOG_ITERATOR_INACTIVE => Err(Error::LogIteratorInactive),
        returncode::LOG_ITERATOR_MISMATCH => Err(Error::LogIteratorMismatch),
        returncode::LOG_ITERATOR_CLOSED => Err(Error::LogIteratorClosed),
        returncode::LOG_HEADER_CORRUPT => Err(Error::LogHeaderCorrupt),
        returncode::INVALID_COMPRESSION_BLOCK_SIZE => Err(Error::InvalidCompressionBlockSize),
        returncode::INVALID_COMPRESSION_TYPE => Err(Error::InvalidCompressionType),
        returncode::WRONG_HASH_MAGIC_NUMBER => Err(Error::WrongHashMagicNumber),
        returncode::WRONG_HASH_MAJOR_VERSION => Err(Error::WrongHashMajorVersion),
        returncode::UNSUPPORTED_HASH_MINOR_VERSION => Err(Error::UnsupportedHashMinorVersion),
        returncode::HASH_TOO_SMALL => Err(Error::HashTooSmall),
        returncode::HASH_CLOSED => Err(Error::HashClosed),
        returncode::FILE_IDENTIFIER_MISMATCH => Err(Error::FileIdentifierMismatch),
        returncode::HASH_HEADER_CORRUPT => Err(Error::HashHeaderCorrupt),
        returncode::HASH_SIZE_INVALID => Err(Error::HashSizeInvalid),
    }
}

/// Turns a status code into a result.
pub fn handle(code: returncode) -> (r: Result<(), Error>)
    ensures
        r == spec_handle(code),
{
    match code {
        returncode::SUCCESS => Ok(()),
        returncode::INTERNAL_ERROR => Err(Error::Internal),
        returncode::FILE_NOT_FOUND => Err(Error::IO(ENOENT)),
        returncode::PERMISSION_DENIED => Err(Error::IO(EACCES)),
        returncode::TOO_MANY_OPEN_FILES => Err(Error::IO(ENFILE)),
        returncode::FILE_TOO_LARGE => Err(Error::IO(EOVERFLOW)),
        returncode::FILE_ALREADY_EXISTS => Err(Error::IO(EEXIST)),
        returncode::FILE_BUSY => Err(Error::IO(EBUSY)),
        returncode::FILE_IS_DIRECTORY => Err(Error::IO(EISDIR)),
        returncode::FILE_SIZE_EXCEEDED => Err(Error::IO(EFBIG)),
        returncode::FILE_CLOSED => Err(Error::IO(EBADF)),
        returncode::OUT_OF_DISK => Err(Error::IO(ENOSPC)),
        returncode::UNEXPECTED_EOF => Err(Error::UnexpectedEof),
        returncode::MMAP_FAILED => Err(Error::MmapFailed),
        returncode::WRONG_LOG_MAGIC_NUMBER => Err(Error::WrongLogMagicNumber),
        returncode::WRONG_LOG_MAJOR_VERSION => Err(Error::WrongLogMajorVersion),
        returncode::UNSUPPORTED_LOG_MINOR_VERSION => Err(Error::UnsupportedLogMinorVersion),
        returncode::LOG_TOO_SMALL => Err(Error::LogTooSmall),
        returncode::LOG_CLOSED => Err(Error::LogClosed),
        returncode::LOG_ITERATOR_INACTIVE => Err(Error::LogIteratorInactive),
        returncode::LOG_ITERATOR_MISMATCH => Err(Error::LogIteratorMismatch),
        returncode::LOG_ITERATOR_CLOSED => Err(Error::LogIteratorClosed),
        returncode::LOG_HEADER_CORRUPT => Err(Error::LogHeaderCorrupt),
        returncode::INVALID_COMPRESSION_BLOCK_SIZE => Err(Error::InvalidCompressionBlockSize),
        returncode::INVALID_COMPRESSION_TYPE => Err(Error::InvalidCompressionType),
        returncode::WRONG_HASH_MAGIC_NUMBER => Err(Error::WrongHashMagicNumber),
        returncode::WRONG_HASH_MAJOR_VERSION => Err(Error::WrongHashMajorVersion),
        returncode::UNSUPPORTED_HASH_MINOR_VERSION => Err(Error::UnsupportedHashMinorVersion),
        returncode::HASH_TOO_SMALL => Err(Error::HashTooSmall),
        returncode::HASH_CLOSED => Err(Error::HashClosed),
        returncode::FILE_IDENTIFIER_MISMATCH => Err(Error::FileIdentifierMismatch),
        returncode::HASH_HEADER_CORRUPT => Err(Error::HashHeaderCorrupt),
        returncode::HASH_SIZE_INVALID => Err(Error::HashSizeInvalid),
    }
}

/// What `flip_option` gives.
pub open spec fn spec_flip_option<A, E>(option: Result<Option<A>, E>) -> Option<Result<A, E>> {
    match option {
        Ok(None) => None,
        Ok(Some(r)) => Some(Ok(r)),
        Err(e) => Some(Err(e)),
    }
}

/// Turns "a failure, or maybe an item" into "maybe an item or a failure", the
/// shape that an iterator hands out: nothing when the source is exhausted.
pub fn flip_option<A, E>(option: Result<Option<A>, E>) -> (r: Option<Result<A, E>>)
    ensures
        r == spec_flip_option(option),
{
    match option {
        Ok(None) => None,
        Ok(Some(r)) => Some(Ok(r)),
        Err(e) => Some(Err(e)),
    }
}


/// The inverse of `spec_flip_option`.
pub open spec fn spec_unflip_option<A, E>(option: Option<Result<A, E>>) -> Result<Option<A>, E> {
    match option {
        None => Ok(None),
        Some(Ok(r)) => Ok(Some(r)),
        Some(Err(e)) => Err(e),
    }
}


/// Calls `std::str::from_utf8`, which succeeds where `data` is valid UTF-8
/// and fails else, and keeps only whether it succeeded.
#[verifier::external_body]
fn is_utf8(data: &[u8]) -> (ok: bool)
    ensures
        ok == valid_utf8(data@),
{
    std::str::from_utf8(data).is_ok()
}

/// The position of the first zero byte of `path` at or behind `from`, or
/// the length of `path` where there is none.
pub open spec fn spec_first_nul(path: Seq<u8>, from: int) -> int
    decreases path.len() - from,
{
    if from < 0 || from >= path.len() {
        path.len() as int
    } else if path[from] == 0 {
        from
    } else {
        spec_first_nul(path, from + 1)
    }
}

/// What a path becomes as a C string: `PathNotUTF8` where its bytes are no
/// UTF-8, `PathContainsNul` with the position of its first zero byte where
/// it has one, else its bytes followed by a zero byte.
pub open spec fn spec_path_to_cstring(path: Seq<u8>) -> Result<Seq<u8>, Error> {
    if !valid_utf8(path) {
        Err(Error::PathNotUTF8)
    } else if spec_first_nul(path, 0) < path.len() {
        Err(Error::PathContainsNul { position: spec_first_nul(path, 0) as usize })
    } else {
        Ok(path.push(0))
    }
}

/// Turns the bytes of a path into a C string.
pub fn path_to_cstring(path: &[u8]) -> (r: Result<Vec<u8>, Error>)
    ensures
        match r {
            Ok(s) => spec_path_to_cstring(path@) == Ok::<Seq<u8>, Error>(s@),
            Err(e) => spec_path_to_cstring(path@) == Err::<Seq<u8>, Error>(e),
        },
{
    if !is_utf8(path) {
        return Err(Error::PathNotUTF8);
    }
    let mut i: usize = 0;
    while i < path.len()
        invariant
            i <= path.len(),
            valid_utf8(path@),
            spec_first_nul(path@, 0) == spec_first_nul(path@, i as int),
        decreases path.len() - i,
    {
        if path[i] == 0 {
            return Err(Error::PathContainsNul { position: i });
        }
        i = i + 1;
    }
    let mut s = slice_to_vec(path);
    s.push(0);
    Ok(s)
}

} // verus!
