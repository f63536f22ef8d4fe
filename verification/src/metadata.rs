//! What a header says of a file besides its name and its data.

use crate::bytes::put;
use crate::header::Header;
use crate::number::{numeric_field, octal_field};
use vstd::prelude::*;

verus! {

/// The permissions of a generated file or hard link.
pub const DEFAULT_FILE_MODE: u32 = 0o644;

/// The permissions of a generated directory.
pub const DEFAULT_DIRECTORY_MODE: u32 = 0o755;

/// The permissions of a generated symbolic link.
pub const DEFAULT_SYMLINK_MODE: u32 = 0o777;

/// Metadata overrides for a generated entry.
///
/// Generated entries have conventional permissions unless `mode` is
/// overridden; the other numeric fields default to zero.
#[derive(Clone, Copy, Debug, PartialEq, Eq)]
pub struct EntryMetadata {
    pub mode: Option<u32>,
    pub uid: u64,
    pub gid: u64,
    pub mtime: u64,
}

/// A header with the metadata of a generated entry.
pub open spec fn with_metadata(b: Seq<u8>, metadata: EntryMetadata, default_mode: u32) -> Seq<u8> {
    let mode = match metadata.mode {
        Some(mode) => mode,
        None => default_mode,
    };
    put(
        put(
            put(
                put(b, 100, octal_field(mode as nat, 8)),
                108,
                numeric_field(metadata.uid as nat, 8),
            ),
            116,
            numeric_field(metadata.gid as nat, 8),
        ),
        136,
        numeric_field(metadata.mtime as nat, 12),
    )
}

impl Default for EntryMetadata {
    fn default() -> (metadata: Self)
        ensures
            metadata == (EntryMetadata { mode: None, uid: 0, gid: 0, mtime: 0 }),
    {
        EntryMetadata { mode: None, uid: 0, gid: 0, mtime: 0 }
    }
}

impl EntryMetadata {
    /// Creates empty metadata overrides.
    pub fn new() -> (metadata: Self)
        ensures
            metadata == (EntryMetadata { mode: None, uid: 0, gid: 0, mtime: 0 }),
    {
        EntryMetadata::default()
    }

    /// Sets the Unix mode bits for the entry.
    pub fn mode(self, mode: u32) -> (metadata: Self)
        ensures
            metadata == (EntryMetadata { mode: Some(mode), ..self }),
    {
        EntryMetadata { mode: Some(mode), ..self }
    }

    /// Sets the owner user ID for the entry.
    pub fn uid(self, uid: u64) -> (metadata: Self)
        ensures
            metadata == (EntryMetadata { uid, ..self }),
    {
        EntryMetadata { uid, ..self }
    }

    /// Sets the owner group ID for the entry.
    pub fn gid(self, gid: u64) -> (metadata: Self)
        ensures
            metadata == (EntryMetadata { gid, ..self }),
    {
        EntryMetadata { gid, ..self }
    }

    /// Sets the modification time, as Unix seconds, for the entry.
    pub fn mtime(self, mtime: u64) -> (metadata: Self)
        ensures
            metadata == (EntryMetadata { mtime, ..self }),
    {
        EntryMetadata { mtime, ..self }
    }

    /// Writes the metadata to a header.
    pub fn apply(self, header: &mut Header, default_mode: u32)
        ensures
            final(header)@ == with_metadata(old(header)@, self, default_mode),
    {
        header.set_mode(
            match self.mode {
                Some(mode) => mode,
                None => default_mode,
            },
        );
        header.set_uid(self.uid);
        header.set_gid(self.gid);
        header.set_mtime(self.mtime);
    }
}

} // verus!
