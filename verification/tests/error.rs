use tokio_tar::{other, Error, ErrorKind, InvalidArchive, TarError};

fn text(e: InvalidArchive) -> String {
    e.to_string()
}

#[test]
fn every_invalid_archive_has_its_text() {
    let s = |t: &str| t.to_string();
    let cases = vec![
        (InvalidArchive::InvalidChecksum, "archive header checksum mismatch"),
        (
            InvalidArchive::DuplicateEntries { entry_type: s("long name") },
            "two long name entries describing the same member",
        ),
        (
            InvalidArchive::ArchiveNotAtStart { method: s("entries") },
            "cannot call entries unless archive is at position 0",
        ),
        (
            InvalidArchive::SparseNotGnu,
            "sparse entry type listed but not GNU header",
        ),
        (
            InvalidArchive::SparseOverflow,
            "more bytes listed in sparse file than u64 can hold",
        ),
        (
            InvalidArchive::SparseAlignment,
            "previous block in sparse file was not aligned to 512-byte boundary",
        ),
        (
            InvalidArchive::SparseOrdering,
            "out of order or overlapping sparse blocks",
        ),
        (
            InvalidArchive::SparseDataMismatch,
            "sparse file consumed more data than the header listed",
        ),
        (
            InvalidArchive::SparseSizeMismatch,
            "mismatch in sparse file chunks and size in header",
        ),
        (
            InvalidArchive::SparseEntrySizeMismatch,
            "mismatch in sparse file chunks and entry size in header",
        ),
        (
            InvalidArchive::PathNotSplittable { path: s("p") },
            "path cannot be split to be inserted into archive: p",
        ),
        (
            InvalidArchive::PathNotUnicode { path: s("p") },
            "path p was not valid Unicode",
        ),
        (
            InvalidArchive::WindowsPathNotUnicode { path: s("p") },
            "only Unicode paths are supported on Windows: p",
        ),
        (
            InvalidArchive::PathNotRelative,
            "paths in archives must be relative",
        ),
        (
            InvalidArchive::PathHasParentDir,
            "paths in archives must not have `..`",
        ),
        (
            InvalidArchive::PathComponentHasSlash,
            "path component in archive cannot contain `/`",
        ),
        (
            InvalidArchive::PathEmpty,
            "paths in archives must have at least one component",
        ),
        (
            InvalidArchive::PathOutsideDestination { destination: s("d") },
            "trying to unpack outside of destination path: d",
        ),
        (InvalidArchive::ValueTooLong, "provided value is too long"),
        (
            InvalidArchive::ValueContainsNul,
            "provided value contains a nul byte",
        ),
        (
            InvalidArchive::HardLinkNameMissing,
            "hard link entry is missing link name",
        ),
        (
            InvalidArchive::NumericFieldNotUtf8 { text: s("t") },
            "numeric field did not have utf-8 text: t",
        ),
        (InvalidArchive::SizeOverflow, "size overflow"),
        (
            InvalidArchive::HardLinkNoName,
            "hard link listed but no link name found",
        ),
        (
            InvalidArchive::SymlinkDestinationEmpty { path: s("p") },
            "symlink destination for p is empty",
        ),
        (
            InvalidArchive::SymlinkDestinationOutside { path: s("p") },
            "symlink destination for p is outside of the target directory",
        ),
        (
            InvalidArchive::MalformedPaxExtension,
            "malformed pax extension",
        ),
        (
            InvalidArchive::SocketNotArchivable { path: s("p") },
            "p: socket can not be archived",
        ),
    ];
    for (error, expected) in cases {
        assert_eq!(text(error), expected);
    }
}

#[test]
fn every_tar_error_has_its_text() {
    let s = |t: &str| t.to_string();
    let cases = vec![
        (
            TarError::CreateFailed { path: s("p"), source: other("e") },
            "failed to create `p`",
        ),
        (
            TarError::IterationFailed(other("e")),
            "failed to iterate over archive",
        ),
        (
            TarError::UnpackFailed { path: s("p"), source: other("e") },
            "failed to unpack `p`",
        ),
        (
            TarError::MetadataFailed {
                path: s("p"),
                operation: s("mtime"),
                source: other("e"),
            },
            "failed to set mtime for `p`",
        ),
        (
            TarError::InvalidPath { path: s("p") },
            "invalid path in entry header: p",
        ),
        (
            TarError::InvalidArchive(InvalidArchive::SizeOverflow),
            "size overflow",
        ),
        (
            TarError::UnknownFileType { path: s("p") },
            "p has unknown file type",
        ),
        (
            TarError::UnsupportedOperation {
                archive_type: s("ustar"),
                operation: s("set username"),
            },
            "not a ustar archive, cannot set username",
        ),
        (
            TarError::InvalidNumericField { field: s("f") },
            "numeric field was not a number: f",
        ),
        (
            TarError::HeaderFieldParseError {
                message: s("m"),
                field: s("f"),
                path: s("p"),
            },
            "m when getting f for p",
        ),
        (TarError::IncompleteBlockRead, "failed to read entire block"),
        (
            TarError::UnexpectedEofDuringSkip,
            "unexpected EOF during skip",
        ),
        (TarError::ExtensionReadFailed, "failed to read extension"),
        (TarError::IncompleteFileWrite, "failed to write entire file"),
        (TarError::Io(other("e")), "e"),
    ];
    for (error, expected) in cases {
        assert_eq!(error.to_string(), expected);
    }
}

#[test]
fn tar_errors_become_plain_errors() {
    let cause = || Error {
        kind: ErrorKind::InvalidData,
        message: "cause".to_string(),
    };
    for error in [
        TarError::Io(cause()),
        TarError::CreateFailed { path: "p".to_string(), source: cause() },
        TarError::UnpackFailed { path: "p".to_string(), source: cause() },
        TarError::MetadataFailed {
            path: "p".to_string(),
            operation: "o".to_string(),
            source: cause(),
        },
    ] {
        let plain = Error::from(error);
        assert_eq!(plain.kind(), ErrorKind::InvalidData);
        assert_eq!(plain.to_string(), "cause");
    }
    let plain = Error::from(TarError::IterationFailed(cause()));
    assert_eq!(plain.kind(), ErrorKind::Other);
    assert_eq!(plain.to_string(), "failed to iterate over archive");
    let nested = TarError::from(InvalidArchive::PathEmpty);
    assert_eq!(
        Error::from(nested).to_string(),
        "paths in archives must have at least one component"
    );
    assert_eq!(Error::from(TarError::from(cause())).to_string(), "cause");
}
