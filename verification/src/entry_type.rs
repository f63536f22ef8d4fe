//! The kinds of archive members.

use vstd::prelude::*;

verus! {

/// The kind of a member, as its header's typeflag gives it.
#[derive(Clone, Copy, Debug, PartialEq, Eq, Structural)]
pub enum EntryType {
    /// A regular file.
    Regular,
    /// A hard link.
    Link,
    /// A symbolic link.
    Symlink,
    /// A character device.
    Char,
    /// A block device.
    Block,
    /// A directory.
    Directory,
    /// A named pipe.
    Fifo,
    /// A contiguous file.
    Continuous,
    /// GNU extension: the long name of the next member.
    GNULongName,
    /// GNU extension: the long link target of the next member.
    GNULongLink,
    /// GNU extension: a sparse file.
    GNUSparse,
    /// Pax records for all members that follow.
    XGlobalHeader,
    /// Pax records for the next member.
    XHeader,
    /// Any other typeflag.
    Other(u8),
}

/// The kind that a typeflag stands for.
pub open spec fn entry_type_of(byte: u8) -> EntryType {
    if byte == 0 || byte == 48 {
        EntryType::Regular
    } else if byte == 49 {
        EntryType::Link
    } else if byte == 50 {
        EntryType::Symlink
    } else if byte == 51 {
        EntryType::Char
    } else if byte == 52 {
        EntryType::Block
    } else if byte == 53 {
        EntryType::Directory
    } else if byte == 54 {
        EntryType::Fifo
    } else if byte == 55 {
        EntryType::Continuous
    } else if byte == 76 {
        EntryType::GNULongName
    } else if byte == 75 {
        EntryType::GNULongLink
    } else if byte == 83 {
        EntryType::GNUSparse
    } else if byte == 103 {
        EntryType::XGlobalHeader
    } else if byte == 120 {
        EntryType::XHeader
    } else {
        EntryType::Other(byte)
    }
}

/// The typeflag that a kind is written as.
pub open spec fn typeflag_of(kind: EntryType) -> u8 {
    match kind {
        EntryType::Regular => 48,
        EntryType::Link => 49,
        EntryType::Symlink => 50,
        EntryType::Char => 51,
        EntryType::Block => 52,
        EntryType::Directory => 53,
        EntryType::Fifo => 54,
        EntryType::Continuous => 55,
        EntryType::GNULongName => 76,
        EntryType::GNULongLink => 75,
        EntryType::GNUSparse => 83,
        EntryType::XGlobalHeader => 103,
        EntryType::XHeader => 120,
        EntryType::Other(byte) => byte,
    }
}

impl EntryType {
    /// The kind that a typeflag stands for.
    pub fn new(byte: u8) -> (kind: EntryType)
        ensures
            kind == entry_type_of(byte),
    {
        if byte == 0 || byte == 48 {
            EntryType::Regular
        } else if byte == 49 {
            EntryType::Link
        } else if byte == 50 {
            EntryType::Symlink
        } else if byte == 51 {
            EntryType::Char
        } else if byte == 52 {
            EntryType::Block
        } else if byte == 53 {
            EntryType::Directory
        } else if byte == 54 {
            EntryType::Fifo
        } else if byte == 55 {
            EntryType::Continuous
        } else if byte == 76 {
            EntryType::GNULongName
        } else if byte == 75 {
            EntryType::GNULongLink
        } else if byte == 83 {
            EntryType::GNUSparse
        } else if byte == 103 {
            EntryType::XGlobalHeader
        } else if byte == 120 {
            EntryType::XHeader
        } else {
            EntryType::Other(byte)
        }
    }

    /// The typeflag that this kind is written as.
    pub fn as_byte(&self) -> (byte: u8)
        ensures
            byte == typeflag_of(*self),
    {
        match self {
            EntryType::Regular => 48,
            EntryType::Link => 49,
            EntryType::Symlink => 50,
            EntryType::Char => 51,
            EntryType::Block => 52,
            EntryType::Directory => 53,
            EntryType::Fifo => 54,
            EntryType::Continuous => 55,
            EntryType::GNULongName => 76,
            EntryType::GNULongLink => 75,
            EntryType::GNUSparse => 83,
            EntryType::XGlobalHeader => 103,
            EntryType::XHeader => 120,
            EntryType::Other(byte) => *byte,
        }
    }

    /// Whether this is a GNU long name.
    pub fn is_gnu_longname(&self) -> (yes: bool)
        ensures
            yes == (*self is GNULongName),
    {
        matches!(self, EntryType::GNULongName)
    }

    /// Whether this is a GNU long link target.
    pub fn is_gnu_longlink(&self) -> (yes: bool)
        ensures
            yes == (*self is GNULongLink),
    {
        matches!(self, EntryType::GNULongLink)
    }

    /// Whether this is a GNU sparse file.
    pub fn is_gnu_sparse(&self) -> (yes: bool)
        ensures
            yes == (*self is GNUSparse),
    {
        matches!(self, EntryType::GNUSparse)
    }

    /// Whether this holds pax records for all members that follow.
    pub fn is_pax_global_extensions(&self) -> (yes: bool)
        ensures
            yes == (*self is XGlobalHeader),
    {
        matches!(self, EntryType::XGlobalHeader)
    }

    /// Whether this holds pax records for the next member.
    pub fn is_pax_local_extensions(&self) -> (yes: bool)
        ensures
            yes == (*self is XHeader),
    {
        matches!(self, EntryType::XHeader)
    }
}

/// A kind that is written to a typeflag is read back from it, for every kind
/// that a typeflag stands for.
pub proof fn law_typeflag_roundtrip(byte: u8)
    ensures
        entry_type_of(typeflag_of(entry_type_of(byte))) == entry_type_of(byte),
{
}

} // verus!
