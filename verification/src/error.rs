//! The errors that reading and writing archives can give.

use vstd::prelude::*;

verus! {

/// The class of an [`Error`].
#[derive(Clone, Copy, Debug, PartialEq, Eq, Structural)]
pub enum ErrorKind {
    /// The archive asks for more than its reader was told to allow.
    InvalidData,
    /// Any other failure.
    Other,
}

/// A failure, with its class and the text that describes it.
#[derive(Clone, Debug)]
pub struct Error {
    /// The class of the failure.
    pub kind: ErrorKind,
    /// The text that describes the failure.
    pub message: String,
}

/// What an [`Error`] says: its class and its text.
#[verifier::ext_equal]
pub struct ErrorView {
    pub kind: ErrorKind,
    pub message: Seq<char>,
}

impl View for Error {
    type V = ErrorView;

    open spec fn view(&self) -> ErrorView {
        ErrorView { kind: self.kind, message: self.message@ }
    }
}

/// A result, with what its error says in place of the error.
pub open spec fn outcome<T>(result: Result<T, Error>) -> Result<T, ErrorView> {
    match result {
        Ok(value) => Ok(value),
        Err(err) => Err(err@),
    }
}

/// The failure of class [`ErrorKind::Other`] with the given text.
pub open spec fn failure(message: Seq<char>) -> ErrorView {
    ErrorView { kind: ErrorKind::Other, message }
}

/// The failure of class [`ErrorKind::InvalidData`] with the given text.
pub open spec fn excess(message: Seq<char>) -> ErrorView {
    ErrorView { kind: ErrorKind::InvalidData, message }
}

/// Makes an error of class [`ErrorKind::Other`].
pub fn other(msg: &str) -> (err: Error)
    ensures
        err@ == failure(msg@),
{
    Error { kind: ErrorKind::Other, message: msg.to_owned() }
}

/// Makes an error of class [`ErrorKind::InvalidData`].
pub fn invalid_data(msg: &str) -> (err: Error)
    ensures
        err@ == excess(msg@),
{
    Error { kind: ErrorKind::InvalidData, message: msg.to_owned() }
}

impl Error {
    /// The class of this error.
    pub fn kind(&self) -> (kind: ErrorKind)
        ensures
            kind == self@.kind,
    {
        self.kind
    }

    /// The text of this error.
    pub fn to_string(&self) -> (text: String)
        ensures
            text@ == self@.message,
    {
        self.message.clone()
    }
}

/// Specific archive format validation errors.
#[derive(Debug)]
pub enum InvalidArchive {
    /// The checksum of a header is wrong.
    InvalidChecksum,
    /// Two extension entries describe the same member.
    DuplicateEntries { entry_type: String },
    /// The archive was read from already.
    ArchiveNotAtStart { method: String },
    /// A sparse file has no GNU header.
    SparseNotGnu,
    /// A sparse file is too large.
    SparseOverflow,
    /// A block of a sparse file starts amid a block of the archive.
    SparseAlignment,
    /// The blocks of a sparse file are out of order.
    SparseOrdering,
    /// The blocks of a sparse file hold too much data.
    SparseDataMismatch,
    /// The blocks of a sparse file do not make up its size.
    SparseSizeMismatch,
    /// The blocks of a sparse file hold too little data.
    SparseEntrySizeMismatch,
    /// A path does not fit in a header.
    PathNotSplittable { path: String },
    /// A path is not Unicode text.
    PathNotUnicode { path: String },
    /// A path is not Unicode text, on Windows.
    WindowsPathNotUnicode { path: String },
    /// A path is absolute.
    PathNotRelative,
    /// A path has a `..`.
    PathHasParentDir,
    /// A path component has a slash.
    PathComponentHasSlash,
    /// A path is empty.
    PathEmpty,
    /// A path leads out of the directory to unpack to.
    PathOutsideDestination { destination: String },
    /// A value does not fit in its header field.
    ValueTooLong,
    /// A value has a zero byte.
    ValueContainsNul,
    /// A hard link has no target.
    HardLinkNameMissing,
    /// A numeric field is not text.
    NumericFieldNotUtf8 { text: String },
    /// A size is too large.
    SizeOverflow,
    /// A hard link has no target to unpack.
    HardLinkNoName,
    /// A symbolic link has an empty target.
    SymlinkDestinationEmpty { path: String },
    /// A symbolic link leads out of the directory to unpack to.
    SymlinkDestinationOutside { path: String },
    /// A pax record is malformed.
    MalformedPaxExtension,
    /// A socket cannot be archived.
    SocketNotArchivable { path: String },
}

/// Error that occurred while reading or writing tar file.
#[derive(Debug)]
pub enum TarError {
    /// Failed to create a file or directory.
    CreateFailed { path: String, source: Error },
    /// Failed to iterate over archive entries.
    IterationFailed(Error),
    /// Failed to unpack an entry.
    UnpackFailed { path: String, source: Error },
    /// Failed to set file metadata.
    MetadataFailed { path: String, operation: String, source: Error },
    /// Invalid path in entry header.
    InvalidPath { path: String },
    /// Archive format is invalid or unsupported.
    InvalidArchive(InvalidArchive),
    /// File has unknown or unsupported type.
    UnknownFileType { path: String },
    /// Archive type doesn't support the requested operation.
    UnsupportedOperation { archive_type: String, operation: String },
    /// Numeric field in archive header is malformed.
    InvalidNumericField { field: String },
    /// Failed to parse header field with context.
    HeaderFieldParseError { message: String, field: String, path: String },
    /// Failed to read entire block from archive.
    IncompleteBlockRead,
    /// Unexpected end while skipping data in archive.
    UnexpectedEofDuringSkip,
    /// Failed to read extension header.
    ExtensionReadFailed,
    /// Failed to write entire file during extraction.
    IncompleteFileWrite,
    /// Generic I/O error.
    Io(Error),
}

/// What an [`InvalidArchive`] says.
pub open spec fn invalid_archive_text(e: InvalidArchive) -> Seq<char> {
    match e {
        InvalidArchive::InvalidChecksum => "archive header checksum mismatch"@,
        InvalidArchive::DuplicateEntries { entry_type } => "two "@ + entry_type@ + " entries describing the same member"@,
        InvalidArchive::ArchiveNotAtStart { method } => "cannot call "@ + method@ + " unless archive is at position 0"@,
        InvalidArchive::SparseNotGnu => "sparse entry type listed but not GNU header"@,
        InvalidArchive::SparseOverflow => "more bytes listed in sparse file than u64 can hold"@,
        InvalidArchive::SparseAlignment => "previous block in sparse file was not aligned to 512-byte boundary"@,
        InvalidArchive::SparseOrdering => "out of order or overlapping sparse blocks"@,
        InvalidArchive::SparseDataMismatch => "sparse file consumed more data than the header listed"@,
        InvalidArchive::SparseSizeMismatch => "mismatch in sparse file chunks and size in header"@,
        InvalidArchive::SparseEntrySizeMismatch => "mismatch in sparse file chunks and entry size in header"@,
        InvalidArchive::PathNotSplittable { path } => "path cannot be split to be inserted into archive: "@ + path@,
        InvalidArchive::PathNotUnicode { path } => "path "@ + path@ + " was not valid Unicode"@,
        InvalidArchive::WindowsPathNotUnicode { path } => "only Unicode paths are supported on Windows: "@ + path@,
        InvalidArchive::PathNotRelative => "paths in archives must be relative"@,
        InvalidArchive::PathHasParentDir => "paths in archives must not have `..`"@,
        InvalidArchive::PathComponentHasSlash => "path component in archive cannot contain `/`"@,
        InvalidArchive::PathEmpty => "paths in archives must have at least one component"@,
        InvalidArchive::PathOutsideDestination { destination } => "trying to unpack outside of destination path: "@ + destination@,
        InvalidArchive::ValueTooLong => "provided value is too long"@,
        InvalidArchive::ValueContainsNul => "provided value contains a nul byte"@,
        InvalidArchive::HardLinkNameMissing => "hard link entry is missing link name"@,
        InvalidArchive::NumericFieldNotUtf8 { text } => "numeric field did not have utf-8 text: "@ + text@,
        InvalidArchive::SizeOverflow => "size overflow"@,
        InvalidArchive::HardLinkNoName => "hard link listed but no link name found"@,
        InvalidArchive::SymlinkDestinationEmpty { path } => "symlink destination for "@ + path@ + " is empty"@,
        InvalidArchive::SymlinkDestinationOutside { path } => "symlink destination for "@ + path@ + " is outside of the target directory"@,
        InvalidArchive::MalformedPaxExtension => "malformed pax extension"@,
        InvalidArchive::SocketNotArchivable { path } => path@ + ": socket can not be archived"@,
    }
}

/// What a [`TarError`] says.
pub open spec fn tar_error_text(e: TarError) -> Seq<char> {
    match e {
        TarError::CreateFailed { path, .. } => "failed to create `"@ + path@ + "`"@,
        TarError::IterationFailed(_) => "failed to iterate over archive"@,
        TarError::UnpackFailed { path, .. } => "failed to unpack `"@ + path@ + "`"@,
        TarError::MetadataFailed { path, operation, .. } => "failed to set "@ + operation@ + " for `"@ + path@ + "`"@,
        TarError::InvalidPath { path } => "invalid path in entry header: "@ + path@,
        TarError::InvalidArchive(e) => invalid_archive_text(e),
        TarError::UnknownFileType { path } => path@ + " has unknown file type"@,
        TarError::UnsupportedOperation { archive_type, operation } => "not a "@ + archive_type@ + " archive, cannot "@ + operation@,
        TarError::InvalidNumericField { field } => "numeric field was not a number: "@ + field@,
        TarError::HeaderFieldParseError { message, field, path } => message@ + " when getting "@ + field@ + " for "@ + path@,
        TarError::IncompleteBlockRead => "failed to read entire block"@,
        TarError::UnexpectedEofDuringSkip => "unexpected EOF during skip"@,
        TarError::ExtensionReadFailed => "failed to read extension"@,
        TarError::IncompleteFileWrite => "failed to write entire file"@,
        TarError::Io(e) => e@.message,
    }
}

fn text2(a: &str, b: &str) -> (text: String)
    ensures
        text@ == a@ + b@,
{
    let mut text: String = a.to_owned();
    text.append(b);
    text
}

fn text3(a: &str, b: &str, c: &str) -> (text: String)
    ensures
        text@ == a@ + b@ + c@,
{
    let mut text: String = a.to_owned();
    text.append(b);
    text.append(c);
    text
}

fn text4(a: &str, b: &str, c: &str, d: &str) -> (text: String)
    ensures
        text@ == a@ + b@ + c@ + d@,
{
    let mut text: String = a.to_owned();
    text.append(b);
    text.append(c);
    text.append(d);
    text
}

fn text5(a: &str, b: &str, c: &str, d: &str, e: &str) -> (text: String)
    ensures
        text@ == a@ + b@ + c@ + d@ + e@,
{
    let mut text: String = a.to_owned();
    text.append(b);
    text.append(c);
    text.append(d);
    text.append(e);
    text
}

impl InvalidArchive {
    /// The text of this error.
    pub fn to_string(&self) -> (text: String)
        ensures
            text@ == invalid_archive_text(*self),
    {
        match self {
            InvalidArchive::InvalidChecksum => "archive header checksum mismatch".to_owned(),
            InvalidArchive::DuplicateEntries { entry_type } => text3("two ", entry_type.as_str(), " entries describing the same member"),
            InvalidArchive::ArchiveNotAtStart { method } => text3("cannot call ", method.as_str(), " unless archive is at position 0"),
            InvalidArchive::SparseNotGnu => "sparse entry type listed but not GNU header".to_owned(),
            InvalidArchive::SparseOverflow => "more bytes listed in sparse file than u64 can hold".to_owned(),
            InvalidArchive::SparseAlignment => "previous block in sparse file was not aligned to 512-byte boundary".to_owned(),
            InvalidArchive::SparseOrdering => "out of order or overlapping sparse blocks".to_owned(),
            InvalidArchive::SparseDataMismatch => "sparse file consumed more data than the header listed".to_owned(),
            InvalidArchive::SparseSizeMismatch => "mismatch in sparse file chunks and size in header".to_owned(),
            InvalidArchive::SparseEntrySizeMismatch => "mismatch in sparse file chunks and entry size in header".to_owned(),
            InvalidArchive::PathNotSplittable { path } => text2("path cannot be split to be inserted into archive: ", path.as_str()),
            InvalidArchive::PathNotUnicode { path } => text3("path ", path.as_str(), " was not valid Unicode"),
            InvalidArchive::WindowsPathNotUnicode { path } => text2("only Unicode paths are supported on Windows: ", path.as_str()),
            InvalidArchive::PathNotRelative => "paths in archives must be relative".to_owned(),
            InvalidArchive::PathHasParentDir => "paths in archives must not have `..`".to_owned(),
            InvalidArchive::PathComponentHasSlash => "path component in archive cannot contain `/`".to_owned(),
            InvalidArchive::PathEmpty => "paths in archives must have at least one component".to_owned(),
            InvalidArchive::PathOutsideDestination { destination } => text2("trying to unpack outside of destination path: ", destination.as_str()),
            InvalidArchive::ValueTooLong => "provided value is too long".to_owned(),
            InvalidArchive::ValueContainsNul => "provided value contains a nul byte".to_owned(),
            InvalidArchive::HardLinkNameMissing => "hard link entry is missing link name".to_owned(),
            InvalidArchive::NumericFieldNotUtf8 { text } => text2("numeric field did not have utf-8 text: ", text.as_str()),
            InvalidArchive::SizeOverflow => "size overflow".to_owned(),
            InvalidArchive::HardLinkNoName => "hard link listed but no link name found".to_owned(),
            InvalidArchive::SymlinkDestinationEmpty { path } => text3("symlink destination for ", path.as_str(), " is empty"),
            InvalidArchive::SymlinkDestinationOutside { path } => text3("symlink destination for ", path.as_str(), " is outside of the target directory"),
            InvalidArchive::MalformedPaxExtension => "malformed pax extension".to_owned(),
            InvalidArchive::SocketNotArchivable { path } => text2(path.as_str(), ": socket can not be archived"),
        }
    }
}

impl TarError {
    /// The text of this error.
    pub fn to_string(&self) -> (text: String)
        ensures
            text@ == tar_error_text(*self),
    {
        match self {
            TarError::CreateFailed { path, .. } => text3("failed to create `", path.as_str(), "`"),
            TarError::IterationFailed(_) => "failed to iterate over archive".to_owned(),
            TarError::UnpackFailed { path, .. } => text3("failed to unpack `", path.as_str(), "`"),
            TarError::MetadataFailed { path, operation, .. } => text5("failed to set ", operation.as_str(), " for `", path.as_str(), "`"),
            TarError::InvalidPath { path } => text2("invalid path in entry header: ", path.as_str()),
            TarError::InvalidArchive(e) => e.to_string(),
            TarError::UnknownFileType { path } => text2(path.as_str(), " has unknown file type"),
            TarError::UnsupportedOperation { archive_type, operation } => text4("not a ", archive_type.as_str(), " archive, cannot ", operation.as_str()),
            TarError::InvalidNumericField { field } => text2("numeric field was not a number: ", field.as_str()),
            TarError::HeaderFieldParseError { message, field, path } => text5(message.as_str(), " when getting ", field.as_str(), " for ", path.as_str()),
            TarError::IncompleteBlockRead => "failed to read entire block".to_owned(),
            TarError::UnexpectedEofDuringSkip => "unexpected EOF during skip".to_owned(),
            TarError::ExtensionReadFailed => "failed to read extension".to_owned(),
            TarError::IncompleteFileWrite => "failed to write entire file".to_owned(),
            TarError::Io(e) => e.to_string(),
        }
    }
}

/// The failure that a [`TarError`] comes down to: its cause where it stands for
/// one operation on a file, else a failure with its own text.
pub open spec fn tar_error_failure(e: TarError) -> ErrorView {
    match e {
        TarError::Io(err) => err@,
        TarError::CreateFailed { source, .. } => source@,
        TarError::UnpackFailed { source, .. } => source@,
        TarError::MetadataFailed { source, .. } => source@,
        _ => failure(tar_error_text(e)),
    }
}

impl From<TarError> for Error {
    fn from(t: TarError) -> (err: Error)
        ensures
            err@ == tar_error_failure(t),
    {
        match t {
            TarError::Io(err) => err,
            TarError::CreateFailed { source, .. } => source,
            TarError::UnpackFailed { source, .. } => source,
            TarError::MetadataFailed { source, .. } => source,
            _ => other(t.to_string().as_str()),
        }
    }
}

impl vstd::std_specs::convert::FromSpecImpl<TarError> for Error {
    open spec fn obeys_from_spec() -> bool {
        false
    }

    open spec fn from_spec(t: TarError) -> Error {
        arbitrary()
    }
}

impl From<InvalidArchive> for TarError {
    fn from(e: InvalidArchive) -> (err: TarError)
        ensures
            err == TarError::InvalidArchive(e),
    {
        TarError::InvalidArchive(e)
    }
}

impl vstd::std_specs::convert::FromSpecImpl<InvalidArchive> for TarError {
    open spec fn obeys_from_spec() -> bool {
        true
    }

    open spec fn from_spec(e: InvalidArchive) -> TarError {
        TarError::InvalidArchive(e)
    }
}

impl From<Error> for TarError {
    fn from(e: Error) -> (err: TarError)
        ensures
            err == TarError::Io(e),
    {
        TarError::Io(e)
    }
}

impl vstd::std_specs::convert::FromSpecImpl<Error> for TarError {
    open spec fn obeys_from_spec() -> bool {
        true
    }

    open spec fn from_spec(e: Error) -> TarError {
        TarError::Io(e)
    }
}

} // verus!
