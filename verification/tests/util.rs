use sparkey::error::Error;
use sparkey::util::{flip_option, handle, path_to_cstring, returncode, EACCES, EBADF, EBUSY, EEXIST, EFBIG, EISDIR, ENFILE, ENOENT, ENOSPC, EOVERFLOW};

#[test]
fn flip_option_cases() {
    let none: Result<Option<u8>, Error> = Ok(None);
    assert_eq!(flip_option(none), None);
    let some: Result<Option<u8>, Error> = Ok(Some(7));
    assert_eq!(flip_option(some), Some(Ok(7)));
    let failed: Result<Option<u8>, Error> = Err(Error::LogClosed);
    assert_eq!(flip_option(failed), Some(Err(Error::LogClosed)));
}

#[test]
fn handle_success_and_formats() {
    assert_eq!(handle(returncode::SUCCESS), Ok(()));
    assert_eq!(handle(returncode::INTERNAL_ERROR), Err(Error::Internal));
    assert_eq!(handle(returncode::MMAP_FAILED), Err(Error::MmapFailed));
    assert_eq!(handle(returncode::WRONG_LOG_MAGIC_NUMBER), Err(Error::WrongLogMagicNumber));
    assert_eq!(handle(returncode::WRONG_LOG_MAJOR_VERSION), Err(Error::WrongLogMajorVersion));
    assert_eq!(
        handle(returncode::UNSUPPORTED_LOG_MINOR_VERSION),
        Err(Error::UnsupportedLogMinorVersion)
    );
    assert_eq!(handle(returncode::LOG_TOO_SMALL), Err(Error::LogTooSmall));
    assert_eq!(handle(returncode::LOG_CLOSED), Err(Error::LogClosed));
    assert_eq!(handle(returncode::LOG_ITERATOR_INACTIVE), Err(Error::LogIteratorInactive));
    assert_eq!(handle(returncode::LOG_ITERATOR_MISMATCH), Err(Error::LogIteratorMismatch));
    assert_eq!(handle(returncode::LOG_ITERATOR_CLOSED), Err(Error::LogIteratorClosed));
    assert_eq!(handle(returncode::LOG_HEADER_CORRUPT), Err(Error::LogHeaderCorrupt));
    assert_eq!(
        handle(returncode::INVALID_COMPRESSION_BLOCK_SIZE),
        Err(Error::InvalidCompressionBlockSize)
    );
    assert_eq!(handle(returncode::INVALID_COMPRESSION_TYPE), Err(Error::InvalidCompressionType));
    assert_eq!(handle(returncode::WRONG_HASH_MAGIC_NUMBER), Err(Error::WrongHashMagicNumber));
    assert_eq!(handle(returncode::WRONG_HASH_MAJOR_VERSION), Err(Error::WrongHashMajorVersion));
    assert_eq!(
        handle(returncode::UNSUPPORTED_HASH_MINOR_VERSION),
        Err(Error::UnsupportedHashMinorVersion)
    );
    assert_eq!(handle(returncode::HASH_TOO_SMALL), Err(Error::HashTooSmall));
    assert_eq!(handle(returncode::HASH_CLOSED), Err(Error::HashClosed));
    assert_eq!(handle(returncode::FILE_IDENTIFIER_MISMATCH), Err(Error::FileIdentifierMismatch));
    assert_eq!(handle(returncode::HASH_HEADER_CORRUPT), Err(Error::HashHeaderCorrupt));
    assert_eq!(handle(returncode::HASH_SIZE_INVALID), Err(Error::HashSizeInvalid));
}

#[test]
fn handle_storage_failures() {
    assert_eq!(handle(returncode::FILE_NOT_FOUND), Err(Error::IO(ENOENT)));
    assert_eq!(handle(returncode::PERMISSION_DENIED), Err(Error::IO(EACCES)));
    assert_eq!(handle(returncode::TOO_MANY_OPEN_FILES), Err(Error::IO(ENFILE)));
    assert_eq!(handle(returncode::FILE_TOO_LARGE), Err(Error::IO(EOVERFLOW)));
    assert_eq!(handle(returncode::FILE_ALREADY_EXISTS), Err(Error::IO(EEXIST)));
    assert_eq!(handle(returncode::FILE_BUSY), Err(Error::IO(EBUSY)));
    assert_eq!(handle(returncode::FILE_IS_DIRECTORY), Err(Error::IO(EISDIR)));
    assert_eq!(handle(returncode::FILE_SIZE_EXCEEDED), Err(Error::IO(EFBIG)));
    assert_eq!(handle(returncode::FILE_CLOSED), Err(Error::IO(EBADF)));
    assert_eq!(handle(returncode::OUT_OF_DISK), Err(Error::IO(ENOSPC)));
    assert_eq!(handle(returncode::UNEXPECTED_EOF), Err(Error::UnexpectedEof));
    assert_ne!(handle(returncode::UNEXPECTED_EOF), handle(returncode::FILE_NOT_FOUND));
    assert_eq!(ENOENT, 2);
    assert_eq!(EFBIG, 27);
}

#[test]
fn paths_become_c_strings() {
    assert_eq!(path_to_cstring(b"data.spl"), Ok(b"data.spl\0".to_vec()));
    assert_eq!(path_to_cstring(b""), Ok(vec![0]));
    assert_eq!(
        path_to_cstring(b"da\0ta\0"),
        Err(Error::PathContainsNul { position: 2 })
    );
    assert_eq!(path_to_cstring(&[b'a', 0xff]), Err(Error::PathNotUTF8));
    assert_eq!(path_to_cstring(&[0, 0xff]), Err(Error::PathNotUTF8));
}
