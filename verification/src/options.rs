//! What a reader allows an archive to hold, and how much of it was used up.

use crate::counter::{counter_value, new_counter, reserve_with_limit, reserved};
use crate::error::{excess, invalid_data, outcome, Error, ErrorView};
use portable_atomic::AtomicU64;
use vstd::prelude::*;

verus! {

/// How an archive is read.
#[derive(Clone, Copy, Debug, PartialEq, Eq)]
pub struct ArchiveOptions {
    /// Whether extended file attributes are unpacked.
    pub unpack_xattrs: bool,
    /// Whether permissions are unpacked.
    pub preserve_permissions: bool,
    /// Whether modification times are unpacked.
    pub preserve_mtime: bool,
    /// Whether symbolic links may lead out of the directory to unpack to.
    pub allow_external_symlinks: bool,
    /// Whether files that are there already are replaced.
    pub overwrite: bool,
    /// Whether blocks of zeros are passed over.
    pub ignore_zeros: bool,
    /// Whether only strict pax archives are read.
    pub pax_only: bool,
    /// The most bytes in one extension entry.
    pub max_extension_entry_size: Option<u64>,
    /// The most bytes in all extension entries.
    pub max_total_extension_size: Option<u64>,
    /// The most headers.
    pub max_physical_entries: Option<u64>,
    /// The most map entries in one sparse file.
    pub max_sparse_entries: Option<u64>,
    /// The most continuation blocks in one sparse file.
    pub max_sparse_continuation_blocks: Option<u64>,
}

/// How an archive is read where nothing else was asked for.
pub open spec fn default_options() -> ArchiveOptions {
    ArchiveOptions {
        unpack_xattrs: false,
        preserve_permissions: false,
        preserve_mtime: true,
        allow_external_symlinks: true,
        overwrite: true,
        ignore_zeros: false,
        pax_only: false,
        max_extension_entry_size: None,
        max_total_extension_size: None,
        max_physical_entries: None,
        max_sparse_entries: None,
        max_sparse_continuation_blocks: None,
    }
}

impl Default for ArchiveOptions {
    fn default() -> (options: Self)
        ensures
            options == default_options(),
    {
        ArchiveOptions {
            unpack_xattrs: false,
            preserve_permissions: false,
            preserve_mtime: true,
            allow_external_symlinks: true,
            overwrite: true,
            ignore_zeros: false,
            pax_only: false,
            max_extension_entry_size: None,
            max_total_extension_size: None,
            max_physical_entries: None,
            max_sparse_entries: None,
            max_sparse_continuation_blocks: None,
        }
    }
}

/// How many headers an archive had so far, and how many bytes its extension
/// entries. Each is counted only where there is a limit on it.
#[derive(Debug)]
pub struct Usage {
    physical_entries: AtomicU64,
    extension_bytes: AtomicU64,
}

/// What a [`Usage`] has counted.
pub struct UsageView {
    pub physical_entries: u64,
    pub extension_bytes: u64,
}

impl View for Usage {
    type V = UsageView;

    closed spec fn view(&self) -> UsageView {
        UsageView {
            physical_entries: counter_value(self.physical_entries),
            extension_bytes: counter_value(self.extension_bytes),
        }
    }
}

/// The count of headers and the outcome after one more is reserved.
pub open spec fn header_reserved(o: ArchiveOptions, u: UsageView) -> (
    UsageView,
    Result<(), ErrorView>,
) {
    match o.max_physical_entries {
        Some(limit) => {
            let (count, done) = reserved(
                u.physical_entries,
                1,
                limit,
                "archive physical entry limit exceeded"@,
            );
            (UsageView { physical_entries: count, ..u }, done)
        },
        None => (u, Ok(())),
    }
}

/// The count of extension bytes and the outcome after `size` of them are
/// reserved.
pub open spec fn extension_reserved(o: ArchiveOptions, u: UsageView, size: u64) -> (
    UsageView,
    Result<(), ErrorView>,
) {
    if o.max_extension_entry_size matches Some(limit) && (limit == 0 || size > limit) {
        (u, Err(excess("archive extension entry size limit exceeded"@)))
    } else {
        match o.max_total_extension_size {
            Some(limit) => if limit == 0 {
                (u, Err(excess("archive total extension size limit exceeded"@)))
            } else {
                let (count, done) = reserved(
                    u.extension_bytes,
                    size,
                    limit,
                    "archive total extension size limit exceeded"@,
                );
                (UsageView { extension_bytes: count, ..u }, done)
            },
            None => (u, Ok(())),
        }
    }
}

/// The counts and the outcome after an entry with `size` bytes of data is
/// reserved.
pub open spec fn entry_reserved(o: ArchiveOptions, u: UsageView, size: u64, is_extension: bool) -> (
    UsageView,
    Result<(), ErrorView>,
) {
    let (counted, done) = header_reserved(o, u);
    if done is Err || !is_extension {
        (counted, done)
    } else {
        extension_reserved(o, counted, size)
    }
}

/// Whether counts are within their limits.
pub open spec fn within_limits(o: ArchiveOptions, u: UsageView) -> bool {
    &&& o.max_physical_entries matches Some(limit) ==> u.physical_entries <= limit
    &&& o.max_total_extension_size matches Some(limit) ==> u.extension_bytes <= limit
}

impl Usage {
    /// Nothing used up.
    pub fn new() -> (usage: Usage)
        ensures
            usage@ == (UsageView { physical_entries: 0, extension_bytes: 0 }),
    {
        Usage { physical_entries: new_counter(0), extension_bytes: new_counter(0) }
    }

    /// Counts an entry with `size` bytes of data, within the limits.
    pub fn reserve_entry(&mut self, options: &ArchiveOptions, size: u64, is_extension: bool) -> (done:
        Result<(), Error>)
        ensures
            (final(self)@, outcome(done)) == entry_reserved(
                *options,
                old(self)@,
                size,
                is_extension,
            ),
    {
        if let Some(limit) = options.max_physical_entries {
            match reserve_with_limit(
                &mut self.physical_entries,
                1,
                limit,
                "archive physical entry limit exceeded",
            ) {
                Ok(()) => {},
                Err(e) => {
                    return Err(e);
                },
            }
        }
        if !is_extension {
            return Ok(());
        }
        if let Some(limit) = options.max_extension_entry_size {
            if limit == 0 || size > limit {
                return Err(invalid_data("archive extension entry size limit exceeded"));
            }
        }
        if let Some(limit) = options.max_total_extension_size {
            if limit == 0 {
                return Err(invalid_data("archive total extension size limit exceeded"));
            }
            return reserve_with_limit(
                &mut self.extension_bytes,
                size,
                limit,
                "archive total extension size limit exceeded",
            );
        }
        Ok(())
    }
}

/// Reserving keeps the counts within their limits; an entry that is accepted
/// is counted, and one that has too much data is not.
pub proof fn law_limits_are_kept(o: ArchiveOptions, u: UsageView, size: u64, is_extension: bool)
    requires
        within_limits(o, u),
    ensures
        within_limits(o, entry_reserved(o, u, size, is_extension).0),
        entry_reserved(o, u, size, is_extension).1 is Ok && o.max_physical_entries is Some
            ==> entry_reserved(o, u, size, is_extension).0.physical_entries == u.physical_entries
            + 1,
        entry_reserved(o, u, size, is_extension).1 is Ok && is_extension
            && o.max_total_extension_size is Some ==> entry_reserved(
            o,
            u,
            size,
            is_extension,
        ).0.extension_bytes == u.extension_bytes + size,
        entry_reserved(o, u, size, is_extension).1 is Err ==> entry_reserved(
            o,
            u,
            size,
            is_extension,
        ).0.extension_bytes == u.extension_bytes,
        is_extension && (o.max_extension_entry_size matches Some(limit) && size > limit)
            ==> entry_reserved(o, u, size, is_extension).1 is Err,
{
}

/// A limit of zero lets nothing through: no header, and no extension entry, not
/// even an empty one.
pub proof fn law_zero_limits_reject(o: ArchiveOptions, u: UsageView, size: u64, is_extension: bool)
    ensures
        o.max_physical_entries == Some(0u64) ==> entry_reserved(o, u, size, is_extension).1 is Err,
        is_extension && (o.max_extension_entry_size == Some(0u64) || o.max_total_extension_size
            == Some(0u64)) ==> entry_reserved(o, u, size, is_extension).1 is Err,
{
}

} // verus!
