//! Entries for files on a file system, from what the file system says of them.

use crate::bytes::put;
use crate::entry_type::{typeflag_of, EntryType};
use crate::error::{failure, other, Error};
use crate::generate::{
    generated_link, generated_numbers, generated_path, lemma_fixed_texts, prepare_header_link,
    prepare_header_numeric_fields, prepare_header_path, GeneratedEntry, GeneratedView,
    PAX_SYM_LINK_FALLBACK,
};
use crate::header::{is_gnu, is_ustar, new_ustar_bytes, Header, HeaderMode};
use crate::number::{lemma_numeric_field_form, lemma_octal, numeric_field, octal_field};
use vstd::prelude::*;
use vstd::utf8::encode_utf8;

verus! {

/// The kind of a file on a file system.
#[derive(Clone, Copy, Debug, PartialEq, Eq, Structural)]
pub enum FileKind {
    /// A regular file.
    File,
    /// A directory.
    Directory,
    /// A symbolic link.
    Symlink,
    /// A named pipe.
    Fifo,
    /// A character device.
    Char,
    /// A block device.
    Block,
    /// A socket.
    Socket,
    /// Anything else.
    Unknown,
}

/// What a file system says of a file.
#[derive(Clone, Copy, Debug, PartialEq, Eq, Structural)]
pub struct FileStat {
    /// The kind of the file.
    pub kind: FileKind,
    /// The mode, with its permission bits.
    pub mode: u32,
    /// The owner's user number.
    pub uid: u64,
    /// The owner's group number.
    pub gid: u64,
    /// The modification time, in seconds since 1970.
    pub mtime: u64,
    /// The length of the file.
    pub len: u64,
    /// The number of the device that a device file is for.
    pub rdev: u64,
}

/// The kind of member that a file becomes.
pub open spec fn member_kind(kind: FileKind) -> EntryType {
    match kind {
        FileKind::File => EntryType::Regular,
        FileKind::Directory => EntryType::Directory,
        FileKind::Symlink => EntryType::Symlink,
        FileKind::Fifo => EntryType::Fifo,
        FileKind::Char => EntryType::Char,
        FileKind::Block => EntryType::Block,
        _ => EntryType::Other(32),
    }
}

/// The permissions that a file has whatever the user's habits: those of a
/// program for a directory and for a file that its owner may run.
pub open spec fn plain_mode(stat: FileStat) -> u32 {
    if stat.kind is Directory || (stat.mode / 64) % 2 == 1 {
        0o755
    } else {
        0o644
    }
}

/// The length of a file's data in an archive.
pub open spec fn data_len(stat: FileStat) -> u64 {
    if stat.kind is Directory || stat.kind is Symlink {
        0
    } else {
        stat.len
    }
}

/// A header with the time, the owner and the permissions of a file.
pub open spec fn with_owner(b: Seq<u8>, mtime: u64, uid: u64, gid: u64, mode: u32) -> Seq<u8> {
    put(
        put(
            put(
                put(b, 136, numeric_field(mtime as nat, 12)),
                108,
                numeric_field(uid as nat, 8),
            ),
            116,
            numeric_field(gid as nat, 8),
        ),
        100,
        octal_field(mode as nat, 8),
    )
}

/// A header with what a file system says of a file, but for device numbers.
pub open spec fn with_size_and_owner(b: Seq<u8>, stat: FileStat, mode: HeaderMode) -> Seq<u8> {
    let owned = match mode {
        HeaderMode::Complete => with_owner(b, stat.mtime, stat.uid, stat.gid, stat.mode),
        HeaderMode::Deterministic => with_owner(b, 0, 0, 0, plain_mode(stat)),
    };
    put(
        put(owned, 156, seq![typeflag_of(member_kind(stat.kind))]),
        124,
        numeric_field(data_len(stat) as nat, 12),
    )
}

/// A header with what a file system says of a file. Where the header has room
/// for device numbers, they are zero.
pub open spec fn with_stat(b: Seq<u8>, stat: FileStat, mode: HeaderMode) -> Seq<u8> {
    let sized = with_size_and_owner(b, stat, mode);
    if is_ustar(b) || is_gnu(b) {
        put(put(sized, 329, octal_field(0, 8)), 337, octal_field(0, 8))
    } else {
        sized
    }
}

/// An entry of which nothing is known yet.
pub open spec fn blank_entry() -> GeneratedView {
    GeneratedView { header: new_ustar_bytes(), extensions: Seq::empty() }
}

/// The entry of a file, a directory or a symbolic link.
pub open spec fn fs_generated(
    path: Seq<char>,
    stat: FileStat,
    mode: HeaderMode,
    link: Option<Seq<char>>,
) -> GeneratedView {
    let named = generated_path(blank_entry(), path);
    let known = GeneratedView { header: with_stat(named.header, stat, mode), ..named };
    let linked = match link {
        Some(target) => generated_link(known, target, PAX_SYM_LINK_FALLBACK@),
        None => known,
    };
    generated_numbers(linked)
}

/// The major number of a device.
pub open spec fn device_major(rdev: u64) -> u32 {
    (((rdev >> 32) & 0xffff_f000) | ((rdev >> 8) & 0x0fff)) as u32
}

/// The minor number of a device.
pub open spec fn device_minor(rdev: u64) -> u32 {
    (((rdev >> 12) & 0xffff_ff00) | (rdev & 0xff)) as u32
}

/// The number of the device with the given major and minor number.
pub open spec fn device_number(major: u32, minor: u32) -> u64 {
    ((major & 0xffff_f000) as u64) << 32 | ((minor & 0xffff_ff00) as u64) << 12 | ((major
        & 0x0fff) as u64) << 8 | (minor & 0xff) as u64
}

/// A device number is made of its major and its minor number, and every two
/// numbers are those of one device.
pub proof fn law_device_number_is_split(rdev: u64, major: u32, minor: u32)
    ensures
        device_major(device_number(major, minor)) == major,
        device_minor(device_number(major, minor)) == minor,
        device_number(device_major(rdev), device_minor(rdev)) == rdev,
{
    assert(device_major(device_number(major, minor)) == major) by (bit_vector);
    assert(device_minor(device_number(major, minor)) == minor) by (bit_vector);
    assert(device_number(device_major(rdev), device_minor(rdev)) == rdev) by (bit_vector);
}

/// Why a file that is none of those cannot be archived.
pub open spec fn special_refusal(path: Seq<char>, kind: FileKind) -> Option<Seq<char>> {
    match kind {
        FileKind::Socket => Some(path + ": socket can not be archived"@),
        FileKind::Fifo => None,
        FileKind::Char => None,
        FileKind::Block => None,
        _ => Some(path + " has unknown file type"@),
    }
}

/// The entry of a named pipe or of a device.
pub open spec fn special_generated(path: Seq<char>, stat: FileStat, mode: HeaderMode) -> GeneratedView {
    let blank = blank_entry();
    let known = GeneratedView { header: with_stat(blank.header, stat, mode), ..blank };
    let named = generated_path(known, path);
    let typed = put(named.header, 156, seq![typeflag_of(member_kind(stat.kind))]);
    let device = put(
        put(typed, 329, octal_field(device_major(stat.rdev) as nat, 8)),
        337,
        octal_field(device_minor(stat.rdev) as nat, 8),
    );
    generated_numbers(GeneratedView { header: device, ..named })
}

/// The kind of member that a file becomes.
fn member_kind_of(kind: FileKind) -> (entry_type: EntryType)
    ensures
        entry_type == member_kind(kind),
{
    match kind {
        FileKind::File => EntryType::Regular,
        FileKind::Directory => EntryType::Directory,
        FileKind::Symlink => EntryType::Symlink,
        FileKind::Fifo => EntryType::Fifo,
        FileKind::Char => EntryType::Char,
        FileKind::Block => EntryType::Block,
        FileKind::Socket => EntryType::Other(32),
        FileKind::Unknown => EntryType::Other(32),
    }
}

proof fn lemma_owner(b: Seq<u8>, mtime: u64, uid: u64, gid: u64, mode: u32)
    requires
        b.len() == 512,
    ensures
        with_owner(b, mtime, uid, gid, mode).len() == 512,
        is_ustar(with_owner(b, mtime, uid, gid, mode)) == is_ustar(b),
        is_gnu(with_owner(b, mtime, uid, gid, mode)) == is_gnu(b),
{
    broadcast use {crate::header::lemma_form_put, crate::header::lemma_gnu_form_put};

    lemma_numeric_field_form(mtime as nat, 12);
    lemma_numeric_field_form(uid as nat, 8);
    lemma_numeric_field_form(gid as nat, 8);
    lemma_octal(mode as nat, 7);
}

/// A header keeps its form with what a file system says of a file.
proof fn lemma_stat_keeps_form(b: Seq<u8>, stat: FileStat, mode: HeaderMode)
    requires
        b.len() == 512,
    ensures
        with_stat(b, stat, mode).len() == 512,
        is_ustar(with_stat(b, stat, mode)) == is_ustar(b),
        is_gnu(with_stat(b, stat, mode)) == is_gnu(b),
        ({
            let sized = with_size_and_owner(b, stat, mode);
            let major = put(sized, 329, octal_field(0, 8));
            &&& is_ustar(sized) == is_ustar(b)
            &&& is_gnu(sized) == is_gnu(b)
            &&& is_ustar(major) == is_ustar(b)
            &&& is_gnu(major) == is_gnu(b)
        }),
{
    broadcast use {crate::header::lemma_form_put, crate::header::lemma_gnu_form_put};

    lemma_owner(b, stat.mtime, stat.uid, stat.gid, stat.mode);
    lemma_owner(b, 0, 0, 0, plain_mode(stat));
    lemma_numeric_field_form(data_len(stat) as nat, 12);
    lemma_octal(0, 7);
}

impl Header {
    fn set_owner(&mut self, mtime: u64, uid: u64, gid: u64, mode: u32)
        ensures
            final(self)@ == with_owner(old(self)@, mtime, uid, gid, mode),
    {
        self.set_mtime(mtime);
        self.set_uid(uid);
        self.set_gid(gid);
        self.set_mode(mode);
    }

    /// Writes what a file system says of a file to this header.
    pub fn set_metadata_in_mode(&mut self, stat: &FileStat, mode: HeaderMode)
        ensures
            final(self)@ == with_stat(old(self)@, *stat, mode),
            is_ustar(final(self)@) == is_ustar(old(self)@),
    {
        match mode {
            HeaderMode::Complete => {
                self.set_owner(stat.mtime, stat.uid, stat.gid, stat.mode);
            },
            HeaderMode::Deterministic => {
                let plain: u32 = if matches!(stat.kind, FileKind::Directory) || (stat.mode / 64)
                    % 2 == 1 {
                    0o755
                } else {
                    0o644
                };
                self.set_owner(0, 0, 0, plain);
            },
        }
        self.set_entry_type(member_kind_of(stat.kind));
        let len: u64 = match stat.kind {
            FileKind::Directory => 0,
            FileKind::Symlink => 0,
            _ => stat.len,
        };
        self.set_size(len);
        proof {
            lemma_stat_keeps_form(old(self)@, *stat, mode);
        }
        let _ = self.set_device_major(0);
        let _ = self.set_device_minor(0);
    }
}

/// The entry of a file, a directory or a symbolic link.
pub fn fs_entry(path: &str, stat: &FileStat, mode: HeaderMode, link_name: Option<&str>) -> (entry:
    Result<GeneratedEntry, Error>)
    ensures
        entry matches Ok(g) && g@ == fs_generated(
            path@,
            *stat,
            mode,
            match link_name {
                Some(target) => Some(target@),
                None => None,
            },
        ),
{
    let mut entry = GeneratedEntry { header: Header::new_ustar(), extensions: Vec::new() };
    assert(entry@ =~= blank_entry());
    proof {
        lemma_blank_entry();
        lemma_path_keeps_form(entry@, path@);
        lemma_fixed_texts();
    }
    prepare_header_path(&mut entry, path);
    let ghost named = entry@;
    entry.header.set_metadata_in_mode(stat, mode);
    assert(entry@ =~= GeneratedView { header: with_stat(named.header, *stat, mode), ..named });
    if let Some(target) = link_name {
        prepare_header_link(&mut entry, target, PAX_SYM_LINK_FALLBACK);
    }
    match prepare_header_numeric_fields(&mut entry) {
        Ok(()) => Ok(entry),
        Err(e) => Err(e),
    }
}

/// The major number of a device.
pub fn major_of(rdev: u64) -> (major: u32)
    ensures
        major == device_major(rdev),
{
    (((rdev >> 32) & 0xffff_f000) | ((rdev >> 8) & 0x0fff)) as u32
}

/// The minor number of a device.
pub fn minor_of(rdev: u64) -> (minor: u32)
    ensures
        minor == device_minor(rdev),
{
    (((rdev >> 12) & 0xffff_ff00) | (rdev & 0xff)) as u32
}

fn with_text(path: &str, text: &str) -> (err: Error)
    ensures
        err@ == failure(path@ + text@),
{
    let mut message: String = path.to_owned();
    message.append(text);
    other(message.as_str())
}

/// The entry of a named pipe or of a device.
pub fn special_entry(path: &str, stat: &FileStat, mode: HeaderMode) -> (entry: Result<
    GeneratedEntry,
    Error,
>)
    ensures
        match special_refusal(path@, stat.kind) {
            Some(message) => entry matches Err(e) && e@ == failure(message),
            None => entry matches Ok(g) && g@ == special_generated(path@, *stat, mode),
        },
{
    match stat.kind {
        FileKind::Fifo => {},
        FileKind::Char => {},
        FileKind::Block => {},
        FileKind::Socket => {
            return Err(with_text(path, ": socket can not be archived"));
        },
        _ => {
            return Err(with_text(path, " has unknown file type"));
        },
    }
    let mut header = Header::new_ustar();
    proof {
        lemma_blank_entry();
    }
    header.set_metadata_in_mode(stat, mode);
    let mut entry = GeneratedEntry { header, extensions: Vec::new() };
    assert(entry@ =~= GeneratedView {
        header: with_stat(blank_entry().header, *stat, mode),
        ..blank_entry()
    });
    proof {
        lemma_path_keeps_form(entry@, path@);
        lemma_special_form(generated_path(entry@, path@).header, *stat);
    }
    prepare_header_path(&mut entry, path);
    let ghost named = entry@;
    entry.header.set_entry_type(member_kind_of(stat.kind));
    match entry.header.set_device_major(major_of(stat.rdev)) {
        Ok(()) => {},
        Err(e) => {
            return Err(e);
        },
    }
    match entry.header.set_device_minor(minor_of(stat.rdev)) {
        Ok(()) => {},
        Err(e) => {
            return Err(e);
        },
    }
    assert(entry@ =~= GeneratedView { header: entry.header@, ..named });
    match prepare_header_numeric_fields(&mut entry) {
        Ok(()) => Ok(entry),
        Err(e) => Err(e),
    }
}

proof fn lemma_blank_entry()
    ensures
        new_ustar_bytes().len() == 512,
        is_ustar(new_ustar_bytes()),
{
    let b = crate::bytes::zeros(512);
    let magic = crate::header::ustar_magic();
    crate::bytes::lemma_field_put_same(b, 257, magic);
    lemma_numeric_field_form(0, 12);
    crate::header::lemma_form_put(put(b, 257, magic), 136, numeric_field(0, 12));
}

/// A header keeps its form when a path is put in it.
pub proof fn lemma_path_keeps_form(g: GeneratedView, path: Seq<char>)
    requires
        g.header.len() == 512,
        is_ustar(g.header),
    ensures
        generated_path(g, path).header.len() == 512,
        is_ustar(generated_path(g, path).header),
{
    let p = encode_utf8(path);
    let payload = encode_utf8(crate::generate::PAX_PAYLOAD_PATH@);
    crate::generate::lemma_fixed_paths();
    crate::header::lemma_header_path_with_path(g.header, payload);
    if crate::header::path_refusal(g.header, p) is None {
        crate::header::lemma_header_path_with_path(g.header, p);
    }
}

proof fn lemma_special_form(b: Seq<u8>, stat: FileStat)
    requires
        b.len() == 512,
        is_ustar(b),
    ensures
        ({
            let typed = put(b, 156, seq![typeflag_of(member_kind(stat.kind))]);
            let major = octal_field(device_major(stat.rdev) as nat, 8);
            is_ustar(typed) && is_ustar(put(typed, 329, major))
        }),
{
    broadcast use crate::header::lemma_form_put;

    lemma_octal(device_major(stat.rdev) as nat, 7);
}

/// What is to be put in an archive for a file.
#[derive(Clone, Copy, Debug, PartialEq, Eq, Structural)]
pub enum PathAction {
    /// A header and the contents of the file.
    Contents,
    /// A header alone.
    Header,
    /// A header with the target of the link.
    Link,
    /// A header with a device number.
    Special,
}

/// What is to be put in an archive for a file.
pub open spec fn action_for(kind: FileKind) -> PathAction {
    match kind {
        FileKind::File => PathAction::Contents,
        FileKind::Directory => PathAction::Header,
        FileKind::Symlink => PathAction::Link,
        _ => PathAction::Special,
    }
}

/// What is to be put in an archive for a file.
pub fn path_action(stat: &FileStat) -> (action: PathAction)
    ensures
        action == action_for(stat.kind),
{
    match stat.kind {
        FileKind::File => PathAction::Contents,
        FileKind::Directory => PathAction::Header,
        FileKind::Symlink => PathAction::Link,
        _ => PathAction::Special,
    }
}

} // verus!
