//! Archives that are read.

use crate::counter::{add_to_counter, counter_value, load_counter, new_counter};
use crate::entries::{entries_start, Entries, RawEntries};
use crate::error::{failure, other, Error};
use crate::options::{default_options, ArchiveOptions, Usage, UsageView};
use crate::scan::{scan_start, wrap_add};
use portable_atomic::AtomicU64;
use vstd::prelude::*;

verus! {

/// A top-level representation of an archive file.
#[derive(Debug)]
pub struct Archive<R> {
    inner: ArchiveInner<R>,
}

/// How an archive is read, how far it was read, and where from.
#[derive(Debug)]
pub struct ArchiveInner<R> {
    pos: AtomicU64,
    usage: Usage,
    options: ArchiveOptions,
    obj: R,
}

/// What an [`Archive`] is, apart from where it is read from.
#[verifier::ext_equal]
pub struct ArchiveView {
    /// How it is read.
    pub options: ArchiveOptions,
    /// What its entries have used up.
    pub usage: UsageView,
    /// How many bytes of it were read.
    pub pos: u64,
}

impl<R> View for Archive<R> {
    type V = ArchiveView;

    closed spec fn view(&self) -> ArchiveView {
        ArchiveView {
            options: self.inner.options,
            usage: self.inner.usage@,
            pos: counter_value(self.inner.pos),
        }
    }
}

/// An archive of which nothing was read.
pub open spec fn archive_start(options: ArchiveOptions) -> ArchiveView {
    ArchiveView { options, usage: UsageView { physical_entries: 0, extension_bytes: 0 }, pos: 0 }
}

/// Configure the archive.
#[derive(Debug)]
pub struct ArchiveBuilder<R> {
    pub obj: R,
    pub options: ArchiveOptions,
}

impl<R> ArchiveBuilder<R> {
    /// Create a new builder.
    pub fn new(obj: R) -> (builder: Self)
        ensures
            builder == (ArchiveBuilder { obj, options: default_options() }),
    {
        ArchiveBuilder { obj, options: ArchiveOptions::default() }
    }

    /// Indicate whether extended file attributes are preserved when unpacking
    /// this archive.
    ///
    /// This flag is disabled by default.
    pub fn set_unpack_xattrs(self, unpack_xattrs: bool) -> (builder: Self)
        ensures
            builder == (ArchiveBuilder {
                options: ArchiveOptions { unpack_xattrs, ..self.options },
                ..self
            }),
    {
        ArchiveBuilder {
            options: ArchiveOptions { unpack_xattrs, ..self.options },
            obj: self.obj,
        }
    }

    /// Indicate whether the permissions on files and directories are preserved
    /// when unpacking.
    ///
    /// This flag is disabled by default.
    pub fn set_preserve_permissions(self, preserve: bool) -> (builder: Self)
        ensures
            builder == (ArchiveBuilder {
                options: ArchiveOptions { preserve_permissions: preserve, ..self.options },
                ..self
            }),
    {
        ArchiveBuilder {
            options: ArchiveOptions { preserve_permissions: preserve, ..self.options },
            obj: self.obj,
        }
    }

    /// Indicate whether files and symlinks should be overwritten on extraction.
    pub fn set_overwrite(self, overwrite: bool) -> (builder: Self)
        ensures
            builder == (ArchiveBuilder {
                options: ArchiveOptions { overwrite, ..self.options },
                ..self
            }),
    {
        ArchiveBuilder { options: ArchiveOptions { overwrite, ..self.options }, obj: self.obj }
    }

    /// Indicate whether access time information is preserved when unpacking.
    ///
    /// This flag is enabled by default.
    pub fn set_preserve_mtime(self, preserve: bool) -> (builder: Self)
        ensures
            builder == (ArchiveBuilder {
                options: ArchiveOptions { preserve_mtime: preserve, ..self.options },
                ..self
            }),
    {
        ArchiveBuilder {
            options: ArchiveOptions { preserve_mtime: preserve, ..self.options },
            obj: self.obj,
        }
    }

    /// Ignore zeroed headers, which would otherwise indicate to the archive
    /// that it has no more entries.
    ///
    /// This can be used in case multiple tar archives have been concatenated
    /// together.
    pub fn set_ignore_zeros(self, ignore_zeros: bool) -> (builder: Self)
        ensures
            builder == (ArchiveBuilder {
                options: ArchiveOptions { ignore_zeros, ..self.options },
                ..self
            }),
    {
        ArchiveBuilder { options: ArchiveOptions { ignore_zeros, ..self.options }, obj: self.obj }
    }

    /// Indicate whether to only accept strict POSIX pax-compatible input
    /// archives.
    ///
    /// This mode accepts UStar members that need no pax extended records and
    /// local pax records that describe the following UStar member. It rejects
    /// global pax extensions, non-pax typeflags, and non-octal header numeric
    /// fields. Extended values must be carried by local pax records instead.
    /// Raw entry iteration is unavailable in this mode because it cannot
    /// validate local pax metadata without consuming the entry payload.
    ///
    /// This flag is disabled by default.
    pub fn set_pax_only(self, pax_only: bool) -> (builder: Self)
        ensures
            builder == (ArchiveBuilder {
                options: ArchiveOptions { pax_only, ..self.options },
                ..self
            }),
    {
        ArchiveBuilder { options: ArchiveOptions { pax_only, ..self.options }, obj: self.obj }
    }

    /// Limit the declared payload size of each metadata extension entry.
    ///
    /// This applies to GNU long name and long link entries and to local and
    /// global PAX extension entries. The limit is checked before the extension
    /// payload is buffered. A value of zero rejects every such entry. Extension
    /// entry sizes are unlimited by default.
    pub fn set_max_extension_entry_size(self, max: u64) -> (builder: Self)
        ensures
            builder == (ArchiveBuilder {
                options: ArchiveOptions { max_extension_entry_size: Some(max), ..self.options },
                ..self
            }),
    {
        ArchiveBuilder {
            options: ArchiveOptions { max_extension_entry_size: Some(max), ..self.options },
            obj: self.obj,
        }
    }

    /// Limit the total declared payload size of metadata extension entries.
    ///
    /// This cumulative limit covers GNU long name and long link entries and
    /// local and global PAX extension entries. It is shared by all entry streams
    /// created from this archive. A value of zero rejects every such entry.
    /// Total extension entry size is unlimited by default.
    pub fn set_max_total_extension_size(self, max: u64) -> (builder: Self)
        ensures
            builder == (ArchiveBuilder {
                options: ArchiveOptions { max_total_extension_size: Some(max), ..self.options },
                ..self
            }),
    {
        ArchiveBuilder {
            options: ArchiveOptions { max_total_extension_size: Some(max), ..self.options },
            obj: self.obj,
        }
    }

    /// Limit the number of physical entry headers in the archive.
    ///
    /// Extension entries count toward this limit. GNU sparse continuation
    /// blocks are part of one physical entry and do not count separately. The
    /// limit is shared by all entry streams created from this archive. A value
    /// of zero rejects every entry. Physical entry count is unlimited by
    /// default.
    pub fn set_max_physical_entries(self, max: u64) -> (builder: Self)
        ensures
            builder == (ArchiveBuilder {
                options: ArchiveOptions { max_physical_entries: Some(max), ..self.options },
                ..self
            }),
    {
        ArchiveBuilder {
            options: ArchiveOptions { max_physical_entries: Some(max), ..self.options },
            obj: self.obj,
        }
    }

    /// Limit the number of non-empty map entries in each GNU sparse entry.
    ///
    /// Map entries in the main GNU header and every sparse continuation block
    /// count toward the same per-entry limit. A value of zero rejects every GNU
    /// sparse entry with a non-empty map. Sparse map entry count is unlimited
    /// by default. The limit is not applied by [`Archive::entries_raw`], which
    /// does not interpret GNU sparse maps.
    pub fn set_max_sparse_entries(self, max: u64) -> (builder: Self)
        ensures
            builder == (ArchiveBuilder {
                options: ArchiveOptions { max_sparse_entries: Some(max), ..self.options },
                ..self
            }),
    {
        ArchiveBuilder {
            options: ArchiveOptions { max_sparse_entries: Some(max), ..self.options },
            obj: self.obj,
        }
    }

    /// Limit the number of continuation blocks in each GNU sparse entry.
    ///
    /// Every 512-byte sparse continuation block counts, including blocks with
    /// no map entries. The limit is checked before each block is read. A value
    /// of zero rejects every GNU sparse entry that declares a continuation
    /// block. Sparse continuation block count is unlimited by default.
    pub fn set_max_sparse_continuation_blocks(self, max: u64) -> (builder: Self)
        ensures
            builder == (ArchiveBuilder {
                options: ArchiveOptions {
                    max_sparse_continuation_blocks: Some(max),
                    ..self.options
                },
                ..self
            }),
    {
        ArchiveBuilder {
            options: ArchiveOptions { max_sparse_continuation_blocks: Some(max), ..self.options },
            obj: self.obj,
        }
    }

    /// Indicate whether to deny symlinks that point outside the destination
    /// directory when unpacking. (Writing to locations outside the destination
    /// directory is _always_ forbidden.)
    ///
    /// This flag is enabled by default.
    pub fn set_allow_external_symlinks(self, allow_external_symlinks: bool) -> (builder: Self)
        ensures
            builder == (ArchiveBuilder {
                options: ArchiveOptions { allow_external_symlinks, ..self.options },
                ..self
            }),
    {
        ArchiveBuilder {
            options: ArchiveOptions { allow_external_symlinks, ..self.options },
            obj: self.obj,
        }
    }

    /// Construct the archive, ready to accept inputs.
    pub fn build(self) -> (archive: Archive<R>)
        ensures
            archive@ == archive_start(self.options),
            archive.source() == self.obj,
    {
        let archive = Archive {
            inner: ArchiveInner {
                pos: new_counter(0),
                usage: Usage::new(),
                options: self.options,
                obj: self.obj,
            },
        };
        assert(archive@ =~= archive_start(self.options));
        archive
    }
}

impl<R> Archive<R> {
    /// Where the archive is read from.
    pub closed spec fn source(&self) -> R {
        self.inner.obj
    }

    /// Create a new archive with the underlying object as the reader.
    pub fn new(obj: R) -> (archive: Archive<R>)
        ensures
            archive@ == archive_start(default_options()),
            archive.source() == obj,
    {
        ArchiveBuilder::new(obj).build()
    }

    /// Unwrap this archive, returning the underlying object.
    pub fn into_inner(self) -> (obj: Result<R, Self>)
        ensures
            obj == Ok::<R, Self>(self.source()),
    {
        Ok(self.inner.obj)
    }

    /// The underlying object.
    pub fn get_ref(&self) -> (obj: &R)
        ensures
            *obj == self.source(),
    {
        &self.inner.obj
    }

    /// How the archive is read.
    pub fn options(&self) -> (options: &ArchiveOptions)
        ensures
            *options == self@.options,
    {
        &self.inner.options
    }

    /// How many bytes of the archive were read.
    pub fn position(&mut self) -> (pos: u64)
        ensures
            pos == old(self)@.pos,
            final(self)@ == old(self)@,
            final(self).source() == old(self).source(),
    {
        load_counter(&mut self.inner.pos)
    }

    /// Takes note that `n` more bytes of the archive were read.
    pub fn advance(&mut self, n: u64)
        ensures
            final(self)@ == (ArchiveView { pos: wrap_add(old(self)@.pos, n as nat), ..old(self)@ }),
            final(self).source() == old(self).source(),
    {
        let _ = add_to_counter(&mut self.inner.pos, n);
        assert(self@ =~= ArchiveView { pos: wrap_add(old(self)@.pos, n as nat), ..old(self)@ });
    }

    /// How the archive is read, and what its entries have used up.
    pub(crate) fn limits(&mut self) -> (parts: (&ArchiveOptions, &mut Usage))
        ensures
            *parts.0 == old(self)@.options,
            parts.1@ == old(self)@.usage,
            final(self)@ == (ArchiveView { usage: final(parts.1)@, ..old(self)@ }),
            final(self).source() == old(self).source(),
    {
        (&self.inner.options, &mut self.inner.usage)
    }

    /// Construct a stream over the entries in this archive.
    ///
    /// Note that care must be taken to consider each entry within an archive in
    /// sequence. If entries are processed out of sequence (from what the
    /// stream returns), then the contents read for each entry may be
    /// corrupted.
    pub fn entries(&mut self) -> (entries: Result<Entries, Error>)
        ensures
            if old(self)@.pos != 0 {
                entries matches Err(e) && e@ == failure(
                    "cannot call entries unless archive is at position 0"@,
                )
            } else {
                entries matches Ok(stream) && stream@ == entries_start()
            },
            final(self)@ == old(self)@,
            final(self).source() == old(self).source(),
    {
        if self.position() != 0 {
            return Err(other("cannot call entries unless archive is at position 0"));
        }
        Ok(Entries::new())
    }

    /// Construct a stream over the raw entries in this archive.
    ///
    /// Most users want [`Self::entries`], not this API. This API returns every
    /// *physical* entry in the archive, rather than their composed "logical"
    /// entries. It should only be used for low-level diagnostic parsing.
    pub fn entries_raw(&mut self) -> (entries: Result<RawEntries, Error>)
        ensures
            if old(self)@.options.pax_only {
                entries matches Err(e) && e@ == failure(
                    "raw entries are not supported by pax-only mode"@,
                )
            } else if old(self)@.pos != 0 {
                entries matches Err(e) && e@ == failure(
                    "cannot call entries_raw unless archive is at position 0"@,
                )
            } else {
                entries matches Ok(stream) && stream@ == scan_start()
            },
            final(self)@ == old(self)@,
            final(self).source() == old(self).source(),
    {
        if self.inner.options.pax_only {
            return Err(other("raw entries are not supported by pax-only mode"));
        }
        if self.position() != 0 {
            return Err(other("cannot call entries_raw unless archive is at position 0"));
        }
        Ok(RawEntries::new())
    }
}

} // verus!
