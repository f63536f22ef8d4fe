//! Archives that are written.

use crate::bytes::{append_bytes, append_zeros, zeros};
use crate::entry_type::EntryType;
use crate::error::{failure, Error, ErrorView};
use crate::generate::{
    entry_bytes, generated, generated_entry, generated_link, lemma_fixed_texts, padding_of,
    prepare_header_link, GeneratedEntry, GeneratedView, PAX_HARD_LINK_FALLBACK,
    PAX_SYM_LINK_FALLBACK,
};
use crate::header::HeaderMode;
use crate::metadata::{
    EntryMetadata, DEFAULT_DIRECTORY_MODE, DEFAULT_FILE_MODE, DEFAULT_SYMLINK_MODE,
};
use crate::name::{archive_name, link_target, name_refusal, name_text, target_refusal};
use crate::stat::{
    action_for, fs_entry, fs_generated, path_action, special_entry, special_generated,
    special_refusal, FileStat, PathAction,
};
use vstd::prelude::*;
use vstd::utf8::{decode_utf8, encode_utf8};

verus! {

/// A structure for building archives.
#[derive(Debug)]
pub struct Builder<W> {
    mode: HeaderMode,
    follow: bool,
    finished: bool,
    terminates: bool,
    obj: W,
}

/// What a [`Builder`] is, apart from where it writes to.
pub struct BuilderView {
    /// How much of a file's metadata goes into its header.
    pub mode: HeaderMode,
    /// Whether symbolic links are followed.
    pub follow: bool,
    /// Whether the archive was ended.
    pub finished: bool,
    /// Whether the archive is ended where the builder is dropped.
    pub terminates: bool,
}

impl<W> View for Builder<W> {
    type V = BuilderView;

    closed spec fn view(&self) -> BuilderView {
        BuilderView {
            mode: self.mode,
            follow: self.follow,
            finished: self.finished,
            terminates: self.terminates,
        }
    }
}

/// The end of an archive.
pub open spec fn termination() -> Seq<u8> {
    zeros(1024)
}

/// A result of making an entry, with what the entry is in place of it.
pub open spec fn outcome_generated(r: Result<GeneratedEntry, Error>) -> Result<
    GeneratedView,
    ErrorView,
> {
    match r {
        Ok(g) => Ok(g@),
        Err(e) => Err(e@),
    }
}

/// The entry of a generated file.
pub open spec fn data_generated(path: Seq<u8>, size: u64, metadata: EntryMetadata) -> Result<
    GeneratedView,
    ErrorView,
> {
    match name_refusal(path) {
        Some(message) => Err(failure(message)),
        None => Ok(
            generated(name_text(path), size, EntryType::Regular, metadata, DEFAULT_FILE_MODE),
        ),
    }
}

/// The entry of a generated directory.
pub open spec fn directory_generated(path: Seq<u8>, metadata: EntryMetadata) -> Result<
    GeneratedView,
    ErrorView,
> {
    match name_refusal(path) {
        Some(message) => Err(failure(message)),
        None => Ok(
            generated(name_text(path), 0, EntryType::Directory, metadata, DEFAULT_DIRECTORY_MODE),
        ),
    }
}

/// No metadata overrides.
pub open spec fn no_metadata() -> EntryMetadata {
    EntryMetadata { mode: None, uid: 0, gid: 0, mtime: 0 }
}

/// The entry of a generated hard link.
pub open spec fn hard_link_generated(path: Seq<u8>, target: Seq<u8>) -> Result<
    GeneratedView,
    ErrorView,
> {
    match (name_refusal(path), name_refusal(target)) {
        (Some(message), _) => Err(failure(message)),
        (None, Some(message)) => Err(failure(message)),
        (None, None) => Ok(
            generated_link(
                generated(name_text(path), 0, EntryType::Link, no_metadata(), DEFAULT_FILE_MODE),
                name_text(target),
                PAX_HARD_LINK_FALLBACK@,
            ),
        ),
    }
}

/// The entry of a generated symbolic link.
pub open spec fn symlink_generated(path: Seq<u8>, target: Seq<u8>) -> Result<
    GeneratedView,
    ErrorView,
> {
    match (name_refusal(path), target_refusal(target)) {
        (Some(message), _) => Err(failure(message)),
        (None, Some(message)) => Err(failure(message)),
        (None, None) => Ok(
            generated_link(
                generated(
                    name_text(path),
                    0,
                    EntryType::Symlink,
                    no_metadata(),
                    DEFAULT_SYMLINK_MODE,
                ),
                decode_utf8(target),
                PAX_SYM_LINK_FALLBACK@,
            ),
        ),
    }
}

/// The entry of a file on a file system under a checked name. `link` is what
/// the file is a link to.
pub open spec fn file_generated(
    name: Seq<char>,
    stat: FileStat,
    link: Seq<u8>,
    mode: HeaderMode,
) -> Result<GeneratedView, ErrorView> {
    match action_for(stat.kind) {
        PathAction::Contents => Ok(fs_generated(name, stat, mode, None)),
        PathAction::Header => Ok(fs_generated(name, stat, mode, None)),
        PathAction::Link => match target_refusal(link) {
            Some(message) => Err(failure(message)),
            None => Ok(fs_generated(name, stat, mode, Some(decode_utf8(link)))),
        },
        PathAction::Special => match special_refusal(name, stat.kind) {
            Some(message) => Err(failure(message)),
            None => Ok(special_generated(name, stat, mode)),
        },
    }
}

/// The entry of a generated file.
pub fn data_entry(path: &[u8], size: u64, metadata: EntryMetadata) -> (entry: Result<
    GeneratedEntry,
    Error,
>)
    ensures
        outcome_generated(entry) == data_generated(path@, size, metadata),
{
    match archive_name(path) {
        Ok(name) => generated_entry(
            name.as_str(),
            size,
            EntryType::Regular,
            metadata,
            DEFAULT_FILE_MODE,
        ),
        Err(e) => Err(e),
    }
}

/// The entry of a generated directory.
pub fn directory_entry(path: &[u8], metadata: EntryMetadata) -> (entry: Result<
    GeneratedEntry,
    Error,
>)
    ensures
        outcome_generated(entry) == directory_generated(path@, metadata),
{
    match archive_name(path) {
        Ok(name) => generated_entry(
            name.as_str(),
            0,
            EntryType::Directory,
            metadata,
            DEFAULT_DIRECTORY_MODE,
        ),
        Err(e) => Err(e),
    }
}

/// The entry of a generated hard link.
pub fn hard_link_entry(path: &[u8], target: &[u8]) -> (entry: Result<GeneratedEntry, Error>)
    ensures
        outcome_generated(entry) == hard_link_generated(path@, target@),
{
    let name: String = match archive_name(path) {
        Ok(name) => name,
        Err(e) => {
            return Err(e);
        },
    };
    let mut entry = match generated_entry(
        name.as_str(),
        0,
        EntryType::Link,
        EntryMetadata::new(),
        DEFAULT_FILE_MODE,
    ) {
        Ok(entry) => entry,
        Err(e) => {
            return Err(e);
        },
    };
    let target: String = match archive_name(target) {
        Ok(target) => target,
        Err(e) => {
            return Err(e);
        },
    };
    proof {
        lemma_fixed_texts();
    }
    prepare_header_link(&mut entry, target.as_str(), PAX_HARD_LINK_FALLBACK);
    Ok(entry)
}

/// The entry of a generated symbolic link.
pub fn symlink_entry(path: &[u8], target: &[u8]) -> (entry: Result<GeneratedEntry, Error>)
    ensures
        outcome_generated(entry) == symlink_generated(path@, target@),
{
    let name: String = match archive_name(path) {
        Ok(name) => name,
        Err(e) => {
            return Err(e);
        },
    };
    let mut entry = match generated_entry(
        name.as_str(),
        0,
        EntryType::Symlink,
        EntryMetadata::new(),
        DEFAULT_SYMLINK_MODE,
    ) {
        Ok(entry) => entry,
        Err(e) => {
            return Err(e);
        },
    };
    let target: String = match link_target(target) {
        Ok(target) => target,
        Err(e) => {
            return Err(e);
        },
    };
    proof {
        lemma_fixed_texts();
    }
    prepare_header_link(&mut entry, target.as_str(), PAX_SYM_LINK_FALLBACK);
    Ok(entry)
}

/// The entry of a file on a file system under a checked name. `link` is what
/// the file is a link to.
pub fn file_entry(name: &str, stat: &FileStat, link: &[u8], mode: HeaderMode) -> (entry: Result<
    GeneratedEntry,
    Error,
>)
    ensures
        outcome_generated(entry) == file_generated(name@, *stat, link@, mode),
{
    match path_action(stat) {
        PathAction::Contents => fs_entry(name, stat, mode, None),
        PathAction::Header => fs_entry(name, stat, mode, None),
        PathAction::Link => match link_target(link) {
            Ok(target) => fs_entry(name, stat, mode, Some(target.as_str())),
            Err(e) => Err(e),
        },
        PathAction::Special => special_entry(name, stat, mode),
    }
}

impl<W> Builder<W> {
    /// Where the archive is written to.
    pub closed spec fn target(&self) -> W {
        self.obj
    }

    /// Create a new archive builder with the underlying object as the
    /// destination of all data written. The builder will use
    /// `HeaderMode::Complete` by default.
    ///
    /// Where the builder is dropped, the end of the archive is owed; use
    /// `skip_termination` to disable this.
    pub fn new(obj: W) -> (builder: Builder<W>)
        ensures
            builder@ == (BuilderView {
                mode: HeaderMode::Complete,
                follow: true,
                finished: false,
                terminates: true,
            }),
            builder.target() == obj,
    {
        Builder {
            mode: HeaderMode::Complete,
            follow: true,
            finished: false,
            terminates: true,
            obj,
        }
    }

    /// Create a new archive builder with the underlying object as the
    /// destination of all data written. The builder will use
    /// `HeaderMode::Complete` by default.
    ///
    /// Where the builder is dropped, the end of the archive is not owed.
    pub fn new_non_terminated(obj: W) -> (builder: Builder<W>)
        ensures
            builder@ == (BuilderView {
                mode: HeaderMode::Complete,
                follow: true,
                finished: false,
                terminates: false,
            }),
            builder.target() == obj,
    {
        Builder {
            mode: HeaderMode::Complete,
            follow: true,
            finished: false,
            terminates: false,
            obj,
        }
    }

    /// Changes the HeaderMode that will be used for entries that take their
    /// metadata from a file system. Notably, this does not apply to generated
    /// entries supplied with [`EntryMetadata`].
    pub fn mode(&mut self, mode: HeaderMode)
        ensures
            final(self)@ == (BuilderView { mode, ..old(self)@ }),
            final(self).target() == old(self).target(),
    {
        self.mode = mode;
    }

    /// Follow symlinks, archiving the contents of the file they point to rather
    /// than adding a symlink to the archive. Defaults to true.
    pub fn follow_symlinks(&mut self, follow: bool)
        ensures
            final(self)@ == (BuilderView { follow, ..old(self)@ }),
            final(self).target() == old(self).target(),
    {
        self.follow = follow;
    }

    /// Skip writing final termination bytes into the archive.
    pub fn skip_termination(&mut self)
        ensures
            final(self)@ == (BuilderView { terminates: false, ..old(self)@ }),
            final(self).target() == old(self).target(),
    {
        self.terminates = false;
    }

    /// Gets shared reference to the underlying object.
    pub fn get_ref(&self) -> (obj: &W)
        ensures
            *obj == self.target(),
    {
        &self.obj
    }

    /// Gets the underlying object to write to.
    pub fn get_mut(&mut self) -> (obj: &mut W)
        ensures
            *obj == old(self).target(),
            final(self).target() == *final(obj),
            final(self)@ == old(self)@,
    {
        &mut self.obj
    }

    /// How much of a file's metadata goes into its header.
    pub fn header_mode(&self) -> (mode: HeaderMode)
        ensures
            mode == self@.mode,
    {
        self.mode
    }

    /// Whether symbolic links are followed.
    pub fn follows_symlinks(&self) -> (follow: bool)
        ensures
            follow == self@.follow,
    {
        self.follow
    }

    /// Ends the archive, and gives the bytes that are to be written for that:
    /// none where it was ended already.
    pub fn terminate(&mut self) -> (bytes: Vec<u8>)
        ensures
            bytes@ == (if old(self)@.finished {
                Seq::empty()
            } else {
                termination()
            }),
            final(self)@ == (BuilderView { finished: true, ..old(self)@ }),
            final(self).target() == old(self).target(),
    {
        let mut bytes: Vec<u8> = Vec::new();
        if !self.finished {
            append_zeros(&mut bytes, 1024);
            self.finished = true;
        }
        assert(bytes@ =~= (if old(self)@.finished {
            Seq::empty()
        } else {
            termination()
        }));
        bytes
    }

    /// The bytes that are owed where the builder is dropped: the end of the
    /// archive, unless it was ended or is not to be.
    pub fn owed_on_drop(&self) -> (bytes: Vec<u8>)
        ensures
            bytes@ == (if !self@.finished && self@.terminates {
                termination()
            } else {
                Seq::empty()
            }),
    {
        let mut bytes: Vec<u8> = Vec::new();
        if !self.finished && self.terminates {
            append_zeros(&mut bytes, 1024);
        }
        assert(bytes@ =~= (if !self@.finished && self@.terminates {
            termination()
        } else {
            Seq::empty()
        }));
        bytes
    }

    /// Unwraps the builder as it stands.
    pub fn into_parts(self) -> (obj: W)
        ensures
            obj == self.target(),
    {
        self.obj
    }
}

/// What a file system says of a file, and what can be read of it.
#[derive(Clone, Copy, Debug)]
pub struct SourceFile<'a> {
    /// What the file system says of the file.
    pub stat: FileStat,
    /// The contents of a file.
    pub contents: &'a [u8],
    /// The target of a symbolic link.
    pub link: &'a [u8],
}

/// The data of the entry of a file on a file system.
pub open spec fn file_data(file: SourceFile) -> Seq<u8> {
    if action_for(file.stat.kind) is Contents {
        file.contents@
    } else {
        Seq::empty()
    }
}

/// The entry of a file on a file system.
pub open spec fn path_generated(name: Seq<u8>, file: SourceFile, mode: HeaderMode) -> Result<
    GeneratedView,
    ErrorView,
> {
    match name_refusal(name) {
        Some(message) => Err(failure(message)),
        None => file_generated(name_text(name), file.stat, file.link@, mode),
    }
}

/// The entry of an open file, or of a directory, on a file system.
pub open spec fn stat_generated(name: Seq<u8>, stat: FileStat, mode: HeaderMode) -> Result<
    GeneratedView,
    ErrorView,
> {
    match name_refusal(name) {
        Some(message) => Err(failure(message)),
        None => Ok(fs_generated(name_text(name), stat, mode, None)),
    }
}

/// A file that was come upon in a directory.
#[derive(Clone, Copy, Debug)]
pub struct VisitedFile<'a> {
    /// The path from the directory that the walk began in; empty for that
    /// directory itself.
    pub relative: &'a [u8],
    /// Whether it is a directory.
    pub is_dir: bool,
    /// Whether it is a symbolic link.
    pub is_symlink: bool,
    /// Whether a symbolic link leads to a directory.
    pub leads_to_dir: bool,
    /// The file.
    pub file: SourceFile<'a>,
}

/// What is to be done with a file that was come upon in a directory.
#[derive(Clone, Copy, Debug, PartialEq, Eq, Structural)]
pub enum VisitAction {
    /// Its files are to be visited, and it is put in the archive.
    Directory,
    /// It is put in the archive as a link.
    Link,
    /// It is put in the archive, with its contents.
    File,
}

/// What is to be done with a file that was come upon in a directory.
pub open spec fn visit_action(
    is_dir: bool,
    is_symlink: bool,
    leads_to_dir: bool,
    follow: bool,
) -> VisitAction {
    if is_dir || is_symlink && follow && leads_to_dir {
        VisitAction::Directory
    } else if !follow && is_symlink {
        VisitAction::Link
    } else {
        VisitAction::File
    }
}

/// The name of a file that was come upon in a directory: none for the directory
/// itself where it has no name in the archive.
pub open spec fn visit_name(prefix: Option<Seq<char>>, relative: Seq<u8>) -> Result<
    Option<Seq<char>>,
    ErrorView,
> {
    match prefix {
        Some(name) => if relative.len() == 0 {
            Ok(Some(name))
        } else {
            let path = encode_utf8(name).push(47) + relative;
            match name_refusal(path) {
                Some(message) => Err(failure(message)),
                None => Ok(Some(name_text(path))),
            }
        },
        None => if relative.len() == 0 {
            Ok(None)
        } else {
            match name_refusal(relative) {
                Some(message) => Err(failure(message)),
                None => Ok(Some(name_text(relative))),
            }
        },
    }
}

/// The entry of a file that was come upon in a directory.
pub open spec fn visit_generated(
    name: Seq<char>,
    v: VisitedFile,
    mode: HeaderMode,
    follow: bool,
) -> Result<GeneratedView, ErrorView> {
    match visit_action(v.is_dir, v.is_symlink, v.leads_to_dir, follow) {
        VisitAction::Directory => Ok(fs_generated(name, v.file.stat, mode, None)),
        VisitAction::Link => match target_refusal(v.file.link@) {
            Some(message) => Err(failure(message)),
            None => Ok(fs_generated(name, v.file.stat, mode, Some(decode_utf8(v.file.link@)))),
        },
        VisitAction::File => if v.file.stat.kind is File {
            Ok(fs_generated(name, v.file.stat, mode, None))
        } else {
            match special_refusal(name, v.file.stat.kind) {
                Some(message) => Err(failure(message)),
                None => Ok(special_generated(name, v.file.stat, mode)),
            }
        },
    }
}

/// The data of the entry of a file that was come upon in a directory.
pub open spec fn visit_data(v: VisitedFile, follow: bool) -> Seq<u8> {
    if visit_action(v.is_dir, v.is_symlink, v.leads_to_dir, follow) is File && v.file.stat.kind
        is File {
        v.file.contents@
    } else {
        Seq::empty()
    }
}

/// The bytes for a file that was come upon in a directory.
#[verifier::opaque]
pub open spec fn visit_bytes(
    prefix: Option<Seq<char>>,
    v: VisitedFile,
    mode: HeaderMode,
    follow: bool,
) -> Result<Seq<u8>, ErrorView> {
    match visit_name(prefix, v.relative@) {
        Err(err) => Err(err),
        Ok(None) => Ok(Seq::empty()),
        Ok(Some(name)) => match visit_generated(name, v, mode, follow) {
            Ok(g) => Ok(entry_bytes(g, visit_data(v, follow))),
            Err(err) => Err(err),
        },
    }
}

/// The bytes for files that were come upon in a directory, up to the first that
/// cannot be archived, and why it cannot.
pub open spec fn visits_bytes(
    prefix: Option<Seq<char>>,
    vs: Seq<VisitedFile>,
    mode: HeaderMode,
    follow: bool,
) -> (Seq<u8>, Option<ErrorView>)
    decreases vs.len(),
{
    if vs.len() == 0 {
        (Seq::empty(), None)
    } else {
        let (before, stuck) = visits_bytes(prefix, vs.drop_last(), mode, follow);
        if stuck is Some {
            (before, stuck)
        } else {
            match visit_bytes(prefix, vs.last(), mode, follow) {
                Ok(bytes) => (before + bytes, None),
                Err(err) => (before, Some(err)),
            }
        }
    }
}

/// Whether a file can have been come upon: what has no name in the archive is a
/// directory.
pub open spec fn can_be_visited(prefix: Option<Seq<char>>, v: VisitedFile, follow: bool) -> bool {
    prefix is Some || v.relative@.len() > 0 || visit_action(
        v.is_dir,
        v.is_symlink,
        v.leads_to_dir,
        follow,
    ) is Directory
}

/// The name under which a directory and its files are archived: none for an
/// empty path.
pub open spec fn prefix_of(path: Seq<u8>) -> Option<Seq<char>> {
    if path.len() == 0 {
        None
    } else {
        Some(name_text(path))
    }
}

/// What is to be done with a file that was come upon in a directory.
pub fn action_of_visit(is_dir: bool, is_symlink: bool, leads_to_dir: bool, follow: bool) -> (action:
    VisitAction)
    ensures
        action == visit_action(is_dir, is_symlink, leads_to_dir, follow),
{
    if is_dir || (is_symlink && follow && leads_to_dir) {
        VisitAction::Directory
    } else if !follow && is_symlink {
        VisitAction::Link
    } else {
        VisitAction::File
    }
}

/// What optional text is.
pub open spec fn opt_text(t: Option<String>) -> Option<Seq<char>> {
    match t {
        Some(text) => Some(text@),
        None => None,
    }
}

/// The name of a file that was come upon in a directory.
pub fn name_of_visit(prefix: &Option<String>, relative: &[u8]) -> (name: Result<
    Option<String>,
    Error,
>)
    ensures
        match visit_name(opt_text(*prefix), relative@) {
            Ok(text) => name matches Ok(n) && opt_text(n) == text,
            Err(err) => name matches Err(e) && e@ == err,
        },
{
    match prefix {
        Some(front) => {
            if relative.len() == 0 {
                return Ok(Some(front.clone()));
            }
            let mut path: Vec<u8> = Vec::new();
            append_bytes(&mut path, front.as_str().as_bytes());
            path.push(47u8);
            append_bytes(&mut path, relative);
            assert(path@ =~= encode_utf8(front@).push(47) + relative@);
            match archive_name(path.as_slice()) {
                Ok(name) => Ok(Some(name)),
                Err(e) => Err(e),
            }
        },
        None => {
            if relative.len() == 0 {
                return Ok(None);
            }
            match archive_name(relative) {
                Ok(name) => Ok(Some(name)),
                Err(e) => Err(e),
            }
        },
    }
}

/// The entry of a file that was come upon in a directory.
pub fn entry_of_visit(name: &str, visited: &VisitedFile, mode: HeaderMode, follow: bool) -> (entry:
    Result<GeneratedEntry, Error>)
    ensures
        outcome_generated(entry) == visit_generated(name@, *visited, mode, follow),
{
    let file = &visited.file;
    match action_of_visit(visited.is_dir, visited.is_symlink, visited.leads_to_dir, follow) {
        VisitAction::Directory => fs_entry(name, &file.stat, mode, None),
        VisitAction::Link => match link_target(file.link) {
            Ok(target) => fs_entry(name, &file.stat, mode, Some(target.as_str())),
            Err(e) => Err(e),
        },
        VisitAction::File => match path_action(&file.stat) {
            PathAction::Contents => fs_entry(name, &file.stat, mode, None),
            _ => special_entry(name, &file.stat, mode),
        },
    }
}

impl Builder<Vec<u8>> {
    /// What was written.
    pub open spec fn written(&self) -> Seq<u8> {
        self.target()@
    }

    fn append_entry(&mut self, entry: Result<GeneratedEntry, Error>, data: &[u8]) -> (done: Result<
        (),
        Error,
    >)
        ensures
            match outcome_generated(entry) {
                Ok(g) => done is Ok && final(self).written() == old(self).written() + entry_bytes(
                    g,
                    data@,
                ),
                Err(err) => done matches Err(e) && e@ == err && final(self).written() == old(self).written(),
            },
            final(self)@ == old(self)@,
    {
        match entry {
            Ok(g) => {
                let head: Vec<u8> = g.head();
                append_bytes(&mut self.obj, head.as_slice());
                append_bytes(&mut self.obj, data);
                append_zeros(&mut self.obj, padding_of(data.len() as u64));
                assert(self.written() =~= old(self).written() + entry_bytes(g@, data@));
                Ok(())
            },
            Err(e) => Err(e),
        }
    }

    /// Unwrap this archive, returning the underlying object.
    ///
    /// This function will finish writing the archive if the `finish` function
    /// hasn't yet been called.
    pub fn into_inner(self) -> (obj: Result<Vec<u8>, Error>)
        ensures
            obj matches Ok(bytes) && bytes@ == (if self@.finished {
                self.written()
            } else {
                self.written() + termination()
            }),
    {
        let mut builder = self;
        match builder.finish() {
            Ok(()) => {},
            Err(e) => {
                return Err(e);
            },
        }
        Ok(builder.obj)
    }

    /// Finish writing this archive, emitting the termination sections.
    ///
    /// In most situations the `into_inner` method should be preferred.
    pub fn finish(&mut self) -> (done: Result<(), Error>)
        ensures
            done is Ok,
            final(self).written() == (if old(self)@.finished {
                old(self).written()
            } else {
                old(self).written() + termination()
            }),
            final(self)@ == (BuilderView { finished: true, ..old(self)@ }),
    {
        let tail: Vec<u8> = self.terminate();
        append_bytes(&mut self.obj, tail.as_slice());
        assert(self.written() =~= old(self).written() + tail@);
        assert(old(self)@.finished ==> self.written() =~= old(self).written());
        Ok(())
    }

    /// Adds a generated regular-file entry to this archive.
    ///
    /// A PAX `path` extension is emitted when the validated name is too
    /// long for USTAR or contains non-ASCII UTF-8. `size` must equal the
    /// number of bytes in `data`.
    pub fn append_data(&mut self, path: &[u8], size: u64, data: &[u8]) -> (done: Result<(), Error>)
        ensures
            match data_generated(path@, size, no_metadata()) {
                Ok(g) => done is Ok && final(self).written() == old(self).written() + entry_bytes(
                    g,
                    data@,
                ),
                Err(err) => done matches Err(e) && e@ == err && final(self).written() == old(self).written(),
            },
            final(self)@ == old(self)@,
    {
        self.append_data_with_metadata(path, size, EntryMetadata::new(), data)
    }

    /// Adds a generated regular-file entry with explicitly supplied metadata.
    pub fn append_data_with_metadata(
        &mut self,
        path: &[u8],
        size: u64,
        metadata: EntryMetadata,
        data: &[u8],
    ) -> (done: Result<(), Error>)
        ensures
            match data_generated(path@, size, metadata) {
                Ok(g) => done is Ok && final(self).written() == old(self).written() + entry_bytes(
                    g,
                    data@,
                ),
                Err(err) => done matches Err(e) && e@ == err && final(self).written() == old(self).written(),
            },
            final(self)@ == old(self)@,
    {
        self.append_entry(data_entry(path, size, metadata), data)
    }

    /// Adds a generated hard-link entry, using PAX for an overlong or non-ASCII
    /// value.
    pub fn append_hard_link(&mut self, path: &[u8], target: &[u8]) -> (done: Result<(), Error>)
        ensures
            match hard_link_generated(path@, target@) {
                Ok(g) => done is Ok && final(self).written() == old(self).written() + entry_bytes(
                    g,
                    Seq::empty(),
                ),
                Err(err) => done matches Err(e) && e@ == err && final(self).written() == old(self).written(),
            },
            final(self)@ == old(self)@,
    {
        let none: [u8; 0] = [];
        assert(none@ =~= Seq::<u8>::empty());
        self.append_entry(hard_link_entry(path, target), none.as_slice())
    }

    /// Adds a new symbolic-link entry to this archive with the specified name
    /// and target.
    ///
    /// Valid non-ASCII or overlong values are written using PAX `path` or
    /// `linkpath` records. The entry type is set to [`EntryType::Symlink`] and
    /// the size is set to zero.
    pub fn append_symlink(&mut self, path: &[u8], target: &[u8]) -> (done: Result<(), Error>)
        ensures
            match symlink_generated(path@, target@) {
                Ok(g) => done is Ok && final(self).written() == old(self).written() + entry_bytes(
                    g,
                    Seq::empty(),
                ),
                Err(err) => done matches Err(e) && e@ == err && final(self).written() == old(self).written(),
            },
            final(self)@ == old(self)@,
    {
        let none: [u8; 0] = [];
        assert(none@ =~= Seq::<u8>::empty());
        self.append_entry(symlink_entry(path, target), none.as_slice())
    }

    /// Adds a generated directory entry with conventional default permissions.
    pub fn append_directory(&mut self, path: &[u8]) -> (done: Result<(), Error>)
        ensures
            match directory_generated(path@, no_metadata()) {
                Ok(g) => done is Ok && final(self).written() == old(self).written() + entry_bytes(
                    g,
                    Seq::empty(),
                ),
                Err(err) => done matches Err(e) && e@ == err && final(self).written() == old(self).written(),
            },
            final(self)@ == old(self)@,
    {
        self.append_directory_with_metadata(path, EntryMetadata::new())
    }

    /// Adds a generated directory entry with explicitly supplied metadata.
    pub fn append_directory_with_metadata(&mut self, path: &[u8], metadata: EntryMetadata) -> (done:
        Result<(), Error>)
        ensures
            match directory_generated(path@, metadata) {
                Ok(g) => done is Ok && final(self).written() == old(self).written() + entry_bytes(
                    g,
                    Seq::empty(),
                ),
                Err(err) => done matches Err(e) && e@ == err && final(self).written() == old(self).written(),
            },
            final(self)@ == old(self)@,
    {
        let none: [u8; 0] = [];
        assert(none@ =~= Seq::<u8>::empty());
        self.append_entry(directory_entry(path, metadata), none.as_slice())
    }

    /// Adds a file of a file system to this archive, under its own path.
    pub fn append_path(&mut self, path: &[u8], file: &SourceFile) -> (done: Result<(), Error>)
        ensures
            match path_generated(path@, *file, old(self)@.mode) {
                Ok(g) => done is Ok && final(self).written() == old(self).written() + entry_bytes(
                    g,
                    file_data(*file),
                ),
                Err(err) => done matches Err(e) && e@ == err && final(self).written() == old(self).written(),
            },
            final(self)@ == old(self)@,
    {
        self.append_path_with_name(file, path)
    }

    /// Adds a file of a file system to this archive under another name.
    pub fn append_path_with_name(&mut self, file: &SourceFile, name: &[u8]) -> (done: Result<
        (),
        Error,
    >)
        ensures
            match path_generated(name@, *file, old(self)@.mode) {
                Ok(g) => done is Ok && final(self).written() == old(self).written() + entry_bytes(
                    g,
                    file_data(*file),
                ),
                Err(err) => done matches Err(e) && e@ == err && final(self).written() == old(self).written(),
            },
            final(self)@ == old(self)@,
    {
        let name: String = match archive_name(name) {
            Ok(name) => name,
            Err(e) => {
                return Err(e);
            },
        };
        let entry = file_entry(name.as_str(), &file.stat, file.link, self.mode);
        let none: [u8; 0] = [];
        assert(none@ =~= Seq::<u8>::empty());
        match path_action(&file.stat) {
            PathAction::Contents => self.append_entry(entry, file.contents),
            _ => self.append_entry(entry, none.as_slice()),
        }
    }

    /// Adds an open file to this archive with the given path as the name of the
    /// file in the archive.
    pub fn append_file(&mut self, path: &[u8], stat: &FileStat, data: &[u8]) -> (done: Result<
        (),
        Error,
    >)
        ensures
            match stat_generated(path@, *stat, old(self)@.mode) {
                Ok(g) => done is Ok && final(self).written() == old(self).written() + entry_bytes(
                    g,
                    data@,
                ),
                Err(err) => done matches Err(e) && e@ == err && final(self).written() == old(self).written(),
            },
            final(self)@ == old(self)@,
    {
        let entry = match archive_name(path) {
            Ok(name) => fs_entry(name.as_str(), stat, self.mode, None),
            Err(e) => Err(e),
        };
        self.append_entry(entry, data)
    }

    /// Adds a directory to this archive with the given path as the name of the
    /// directory in the archive.
    pub fn append_dir(&mut self, path: &[u8], stat: &FileStat) -> (done: Result<(), Error>)
        ensures
            match stat_generated(path@, *stat, old(self)@.mode) {
                Ok(g) => done is Ok && final(self).written() == old(self).written() + entry_bytes(
                    g,
                    Seq::empty(),
                ),
                Err(err) => done matches Err(e) && e@ == err && final(self).written() == old(self).written(),
            },
            final(self)@ == old(self)@,
    {
        let none: [u8; 0] = [];
        assert(none@ =~= Seq::<u8>::empty());
        self.append_file(path, stat, none.as_slice())
    }

    /// Adds a file that was come upon in a directory.
    fn append_visited(&mut self, prefix: &Option<String>, visited: &VisitedFile) -> (done: Result<
        (),
        Error,
    >)
        requires
            can_be_visited(opt_text(*prefix), *visited, old(self)@.follow),
        ensures
            match visit_bytes(opt_text(*prefix), *visited, old(self)@.mode, old(self)@.follow) {
                Ok(bytes) => done is Ok && final(self).written() == old(self).written() + bytes,
                Err(err) => done matches Err(e) && e@ == err && final(self).written() == old(self).written(),
            },
            final(self)@ == old(self)@,
    {
        reveal(visit_bytes);
        let name: String = match name_of_visit(prefix, visited.relative) {
            Ok(Some(name)) => name,
            Ok(None) => {
                assert(self.written() =~= old(self).written() + Seq::<u8>::empty());
                return Ok(());
            },
            Err(e) => {
                return Err(e);
            },
        };
        let entry = entry_of_visit(name.as_str(), visited, self.mode, self.follow);
        let action = action_of_visit(
            visited.is_dir,
            visited.is_symlink,
            visited.leads_to_dir,
            self.follow,
        );
        let contents: bool = matches!(action, VisitAction::File) && matches!(
            path_action(&visited.file.stat),
            PathAction::Contents
        );
        let none: [u8; 0] = [];
        assert(none@ =~= Seq::<u8>::empty());
        if contents {
            self.append_entry(entry, visited.file.contents)
        } else {
            self.append_entry(entry, none.as_slice())
        }
    }

    /// Adds a directory and all of its contents (recursively) to this archive
    /// with the given path as the name of the directory in the archive. The
    /// files are those that were come upon, in the order in which they were.
    pub fn append_dir_all(&mut self, path: &[u8], files: &Vec<VisitedFile>) -> (done: Result<
        (),
        Error,
    >)
        requires
            forall|i: int|
                0 <= i < files@.len() ==> can_be_visited(
                    prefix_of(path@),
                    #[trigger] files@[i],
                    old(self)@.follow,
                ),
        ensures
            if path@.len() > 0 && name_refusal(path@) is Some {
                done matches Err(e) && e@ == failure(name_refusal(path@)->0) && final(self).written() == old(self).written()
            } else {
                let (bytes, stuck) = visits_bytes(
                    prefix_of(path@),
                    files@,
                    old(self)@.mode,
                    old(self)@.follow,
                );
                &&& final(self).written() == old(self).written() + bytes
                &&& match stuck {
                    Some(err) => done matches Err(e) && e@ == err,
                    None => done is Ok,
                }
            },
            final(self)@ == old(self)@,
    {
        let prefix: Option<String> = if path.len() == 0 {
            None
        } else {
            match archive_name(path) {
                Ok(name) => Some(name),
                Err(e) => {
                    return Err(e);
                },
            }
        };
        let ghost vs = files@;
        let mut i: usize = 0;
        assert(vs.take(0) =~= Seq::<VisitedFile>::empty());
        assert(self.written() =~= old(self).written() + Seq::<u8>::empty());
        while i < files.len()
            invariant
                i <= files@.len(),
                vs == files@,
                opt_text(prefix) == prefix_of(path@),
                path@.len() == 0 || name_refusal(path@) is None,
                self@ == old(self)@,
                forall|j: int|
                    0 <= j < vs.len() ==> can_be_visited(
                        prefix_of(path@),
                        #[trigger] vs[j],
                        old(self)@.follow,
                    ),
                ({
                    let (bytes, stuck) = visits_bytes(
                        prefix_of(path@),
                        vs.take(i as int),
                        old(self)@.mode,
                        old(self)@.follow,
                    );
                    stuck is None && self.written() == old(self).written() + bytes
                }),
            decreases files@.len() - i,
        {
            let ghost before = visits_bytes(
                prefix_of(path@),
                vs.take(i as int),
                old(self)@.mode,
                old(self)@.follow,
            ).0;
            assert(vs.take(i + 1).drop_last() =~= vs.take(i as int));
            assert(vs.take(i + 1).last() == vs[i as int]);
            match self.append_visited(&prefix, &files[i]) {
                Ok(()) => {},
                Err(e) => {
                    proof {
                        lemma_visits_stuck(
                            prefix_of(path@),
                            vs,
                            old(self)@.mode,
                            old(self)@.follow,
                            i + 1,
                        );
                    }
                    return Err(e);
                },
            }
            proof {
                let now = visits_bytes(
                    prefix_of(path@),
                    vs.take(i + 1),
                    old(self)@.mode,
                    old(self)@.follow,
                ).0;
                assert(self.written() =~= old(self).written() + now);
            }
            i = i + 1;
        }
        assert(vs.take(vs.len() as int) =~= vs);
        Ok(())
    }
}

/// A walk that is stuck stays where it is.
proof fn lemma_visits_stuck(
    prefix: Option<Seq<char>>,
    vs: Seq<VisitedFile>,
    mode: HeaderMode,
    follow: bool,
    k: int,
)
    requires
        0 <= k <= vs.len(),
        visits_bytes(prefix, vs.take(k), mode, follow).1 is Some,
    ensures
        visits_bytes(prefix, vs, mode, follow) == visits_bytes(prefix, vs.take(k), mode, follow),
    decreases vs.len() - k,
{
    if k < vs.len() {
        assert(vs.take(k + 1).drop_last() =~= vs.take(k));
        lemma_visits_stuck(prefix, vs, mode, follow, k + 1);
    } else {
        assert(vs.take(k) =~= vs);
    }
}

} // verus!
