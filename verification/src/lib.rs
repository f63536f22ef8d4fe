//! A library for reading and writing TAR archives.
//!
//! The library holds the archive format itself: the header blocks, the pax
//! records, the state machine that turns a stream of bytes into archive
//! members, and the writer that turns members into bytes. It performs no
//! input or output: a caller hands it the bytes that were read and takes from
//! it the bytes to write.

pub mod archive;
pub mod archived;
pub mod builder;
pub mod bytes;
pub mod counter;
pub mod entries;
pub mod entry;
pub mod entry_type;
pub mod error;
pub mod facts;
pub mod form;
pub mod fs;
pub mod generate;
pub mod generated;
pub mod header;
pub mod holes;
pub mod layout;
pub mod logical;
pub mod member;
pub mod metadata;
pub mod name;
pub mod number;
pub mod options;
pub mod path;
pub mod pax;
pub mod physical;
pub mod pieces;
pub mod queue;
pub mod readback;
pub mod records;
pub mod roundtrip;
pub mod scan;
pub mod sparse;
pub mod stat;
pub mod stream;
pub mod text;
pub mod unpack;
pub mod visit;
pub mod walk;
pub mod windows;

pub use crate::archive::{Archive, ArchiveBuilder, ArchiveInner};
pub use crate::builder::Builder;
pub use crate::entries::{Entries, RawEntries, Step};
pub use crate::entry::{Entry, EntryIo};
pub use crate::entry_type::EntryType;
pub use crate::error::{other, Error, ErrorKind, InvalidArchive, TarError};
pub use crate::form::{GnuExtSparseHeader, GnuHeader, GnuSparseHeader, OldHeader, UstarHeader};
pub use crate::header::{Header, HeaderMode};
pub use crate::metadata::EntryMetadata;
pub use crate::name::{LinkTarget, Name};
pub use crate::pax::{PaxExtension, PaxExtensions};
