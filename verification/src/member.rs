//! From a header block to an archive member.

use crate::bytes::{copy_range, field, opt_bytes, put, starts_with};
use crate::entry::{unpack_options, Entry, EntryIo, EntryView, UnpackOptions};
use crate::entry_type::EntryType;
use crate::error::{failure, other, outcome, Error, ErrorView};
use crate::header::{
    checksum, groupname_refusal, header_cksum, header_size, header_type, is_ustar,
    nul_version_magic, slot_text, username_refusal, Header, BLOCK_SIZE,
};
use crate::number::{numeric_field, parse_decimal, parsed_decimal};
use crate::options::{entry_reserved, ArchiveOptions, Usage, UsageView};
use crate::pax::{
    malformed_failure, pax_extensions, pax_malformed, pax_records, pax_views, PaxExtension,
    PaxView,
};
use std::collections::VecDeque;
use vstd::prelude::*;
use vstd::utf8::{encode_utf8, valid_utf8};

verus! {

/// Whether a kind of member may stand in a strict pax archive.
pub open spec fn is_pax_type(kind: EntryType) -> bool {
    match kind {
        EntryType::Regular => true,
        EntryType::Link => true,
        EntryType::Symlink => true,
        EntryType::Char => true,
        EntryType::Block => true,
        EntryType::Directory => true,
        EntryType::Fifo => true,
        EntryType::XHeader => true,
        _ => false,
    }
}

/// Whether a byte may stand in a numeric field of a strict pax archive: a zero
/// byte, a space or an octal digit.
pub open spec fn is_pax_numeric_byte(b: u8) -> bool {
    b == 0 || b == 32 || 48 <= b <= 55
}

/// Whether every byte of `b` from `from` up to `to` may stand in a numeric
/// field of a strict pax archive.
pub open spec fn is_pax_numeric(b: Seq<u8>, from: int, to: int) -> bool {
    forall|i: int| from <= i < to ==> is_pax_numeric_byte(#[trigger] b[i])
}

/// Whether a header may stand in a strict pax archive. Its numeric fields are
/// the mode, the owner's numbers, the size and the modification time, which
/// follow each other, and the two device numbers.
pub open spec fn is_pax_block(b: Seq<u8>) -> bool {
    &&& is_ustar(b)
    &&& is_pax_type(header_type(b))
    &&& is_pax_numeric(b, 100, 148)
    &&& is_pax_numeric(b, 329, 345)
}

/// Why a header is not accepted.
pub open spec fn header_refusal(o: ArchiveOptions, b: Seq<u8>) -> Option<ErrorView> {
    match header_cksum(b) {
        Err(err) => Some(err),
        Ok(cksum) => if cksum != checksum(b) {
            Some(failure("archive header checksum mismatch"@))
        } else if field(b, 257, 8) == nul_version_magic() {
            Some(failure("NUL-version USTAR header is ambiguous and not supported"@))
        } else if o.pax_only && !is_pax_block(b) {
            Some(failure("archive header is not allowed by pax-only mode"@))
        } else {
            None
        },
    }
}

/// Whether a header is that of an entry that describes others.
pub open spec fn is_extension_block(b: Seq<u8>) -> bool {
    ||| header_type(b) is GNULongName
    ||| header_type(b) is GNULongLink
    ||| is_ustar(b) && header_type(b) is XHeader
    ||| header_type(b) is XGlobalHeader
}

/// What a member is after some of its pax records were applied.
#[verifier::ext_equal]
pub struct OverrideView {
    pub size: u64,
    pub header: Seq<u8>,
    pub username: Option<Seq<u8>>,
    pub groupname: Option<Seq<u8>>,
    /// Whether a record is about GNU sparse files.
    pub sparse_metadata: bool,
    /// Whether a record tells of a GNU sparse format that needs no version.
    pub sparse_format: bool,
    /// Whether the last major version of the GNU sparse format is 1.
    pub sparse_major_1: bool,
    /// Whether the last minor version of the GNU sparse format is 0.
    pub sparse_minor_0: bool,
}

/// A number in a pax record.
pub open spec fn pax_number(
    value: Seq<u8>,
    not_text: Seq<char>,
    not_a_number: Seq<char>,
) -> Result<u64, ErrorView> {
    if !valid_utf8(value) {
        Err(failure(not_text))
    } else {
        match parsed_decimal(value) {
            Some(n) => Ok(n),
            None => Err(failure(not_a_number)),
        }
    }
}

/// A member after one more pax record. The fields of the header are replaced
/// only where `apply` says so. A name is put in the header where it fits.
pub open spec fn with_record(v: OverrideView, r: PaxView, apply: bool) -> Result<
    OverrideView,
    ErrorView,
> {
    if !valid_utf8(r.key) {
        Ok(v)
    } else if r.key == encode_utf8("size"@) {
        match pax_number(
            r.value,
            "failed to parse pax size as string"@,
            "failed to parse pax size"@,
        ) {
            Ok(n) => Ok(OverrideView { size: n, ..v }),
            Err(err) => Err(err),
        }
    } else if r.key == encode_utf8("uid"@) {
        if apply {
            match pax_number(
                r.value,
                "failed to parse pax uid as string"@,
                "failed to parse pax uid"@,
            ) {
                Ok(n) => Ok(
                    OverrideView { header: put(v.header, 108, numeric_field(n as nat, 8)), ..v },
                ),
                Err(err) => Err(err),
            }
        } else {
            Ok(v)
        }
    } else if r.key == encode_utf8("gid"@) {
        if apply {
            match pax_number(
                r.value,
                "failed to parse pax gid as string"@,
                "failed to parse pax gid"@,
            ) {
                Ok(n) => Ok(
                    OverrideView { header: put(v.header, 116, numeric_field(n as nat, 8)), ..v },
                ),
                Err(err) => Err(err),
            }
        } else {
            Ok(v)
        }
    } else if r.key == encode_utf8("uname"@) {
        let fits = r.value.len() > 0 && valid_utf8(r.value) && username_refusal(
            v.header,
            r.value,
        ) is None;
        Ok(
            OverrideView {
                username: Some(r.value),
                header: if fits {
                    put(v.header, 265, slot_text(r.value, 32))
                } else {
                    v.header
                },
                ..v
            },
        )
    } else if r.key == encode_utf8("gname"@) {
        let fits = r.value.len() > 0 && valid_utf8(r.value) && groupname_refusal(
            v.header,
            r.value,
        ) is None;
        Ok(
            OverrideView {
                groupname: Some(r.value),
                header: if fits {
                    put(v.header, 297, slot_text(r.value, 32))
                } else {
                    v.header
                },
                ..v
            },
        )
    } else {
        Ok(with_sparse_record(v, r))
    }
}

/// A member after a pax record that has no other meaning than to tell of GNU
/// sparse files.
pub open spec fn with_sparse_record(v: OverrideView, r: PaxView) -> OverrideView {
    let told = OverrideView {
        sparse_metadata: v.sparse_metadata || encode_utf8("GNU.sparse."@).is_prefix_of(r.key),
        ..v
    };
    if r.key == encode_utf8("GNU.sparse.map"@) || r.key == encode_utf8("GNU.sparse.size"@) {
        OverrideView { sparse_format: true, ..told }
    } else if r.key == encode_utf8("GNU.sparse.major"@) {
        OverrideView { sparse_major_1: r.value == encode_utf8("1"@), ..told }
    } else if r.key == encode_utf8("GNU.sparse.minor"@) {
        OverrideView { sparse_minor_0: r.value == encode_utf8("0"@), ..told }
    } else {
        told
    }
}

/// A member after pax records, one after the other.
pub open spec fn with_records(v: OverrideView, rs: Seq<PaxView>, apply: bool) -> Result<
    OverrideView,
    ErrorView,
>
    decreases rs.len(),
{
    if rs.len() == 0 {
        Ok(v)
    } else {
        match with_records(v, rs.drop_last(), apply) {
            Ok(before) => with_record(before, rs.last(), apply),
            Err(err) => Err(err),
        }
    }
}

/// A member after the records of an extension entry.
pub open spec fn with_pax(v: OverrideView, d: Seq<u8>, apply: bool) -> Result<
    OverrideView,
    ErrorView,
> {
    match with_records(v, pax_records(d), apply) {
        Ok(after) => if pax_malformed(d) {
            Err(malformed_failure())
        } else {
            Ok(after)
        },
        Err(err) => Err(err),
    }
}

/// A member as its header alone has it.
pub open spec fn plain_override(b: Seq<u8>, size: u64) -> OverrideView {
    OverrideView {
        size,
        header: b,
        username: None,
        groupname: None,
        sparse_metadata: false,
        sparse_format: false,
        sparse_major_1: false,
        sparse_minor_0: false,
    }
}

/// Whether pax records tell of a GNU sparse file in no known format.
pub open spec fn is_orphaned(v: OverrideView) -> bool {
    v.sparse_metadata && !(v.sparse_format || v.sparse_major_1 && v.sparse_minor_0)
}

/// The member that a header and pax records make.
pub open spec fn member_of(
    o: ArchiveOptions,
    v: OverrideView,
    b: Seq<u8>,
    header_pos: u64,
    file_pos: u64,
    apply: bool,
) -> EntryView {
    EntryView {
        size: v.size,
        header_pos,
        file_pos,
        data: if header_type(b) is GNUSparse && apply {
            Seq::empty()
        } else {
            seq![EntryIo::Data(v.size)]
        },
        header: v.header,
        long_pathname: None,
        long_linkname: None,
        pax_extensions: None,
        pax_username: v.username,
        pax_groupname: v.groupname,
        unpack: unpack_options(o),
    }
}

/// The position behind `size` bytes of data from `at` on, where data fills
/// whole blocks.
pub open spec fn behind_data(at: u64, size: u64) -> Option<u64> {
    let padded = (size + 511) / 512 * 512;
    if size + 511 > u64::MAX || at + padded > u64::MAX {
        None
    } else {
        Some((at + padded) as u64)
    }
}

/// What an accepted header gives: the counts, the position of the next header,
/// and the member or the failure. Pax records are for members, not for the
/// entries that describe them.
pub open spec fn member(
    o: ArchiveOptions,
    u: UsageView,
    b: Seq<u8>,
    header_pos: u64,
    file_pos: u64,
    pax: Option<Seq<u8>>,
    apply: bool,
) -> (UsageView, u64, Result<EntryView, ErrorView>) {
    match header_size(b) {
        Err(err) => (u, file_pos, Err(err)),
        Ok(size) => {
            let (counted, done) = entry_reserved(o, u, size, is_extension_block(b));
            let plain = plain_override(b, size);
            let overridden = if pax is Some && !is_extension_block(b) {
                with_pax(plain, pax->0, apply)
            } else {
                Ok(plain)
            };
            match (done, overridden) {
                (Err(err), _) => (counted, file_pos, Err(err)),
                (_, Err(err)) => (counted, file_pos, Err(err)),
                (_, Ok(v)) => if is_orphaned(v) {
                    (
                        counted,
                        file_pos,
                        Err(failure("orphaned GNU sparse pax metadata is not supported"@)),
                    )
                } else {
                    match behind_data(file_pos, v.size) {
                        Some(next) => (
                            counted,
                            next,
                            Ok(member_of(o, v, b, header_pos, file_pos, apply)),
                        ),
                        None => (counted, file_pos, Err(failure("size overflow"@))),
                    }
                },
            }
        },
    }
}

/// A result, with what its member is in place of it.
pub open spec fn outcome_entry(r: Result<Entry, Error>) -> Result<EntryView, ErrorView> {
    match r {
        Ok(e) => Ok(e@),
        Err(e) => Err(e@),
    }
}

/// Whether a kind of member may stand in a strict pax archive.
pub fn is_pax_entry_type(entry_type: EntryType) -> (yes: bool)
    ensures
        yes == is_pax_type(entry_type),
{
    matches!(
        entry_type,
        EntryType::Regular
            | EntryType::Link
            | EntryType::Symlink
            | EntryType::Char
            | EntryType::Block
            | EntryType::Directory
            | EntryType::Fifo
            | EntryType::XHeader
    )
}

fn is_pax_numeric_range(b: &[u8; 512], from: usize, to: usize) -> (yes: bool)
    requires
        from <= to <= 512,
    ensures
        yes == is_pax_numeric(b@, from as int, to as int),
{
    let mut i: usize = from;
    while i < to
        invariant
            from <= i <= to <= 512,
            forall|j: int| from <= j < i ==> is_pax_numeric_byte(#[trigger] b@[j]),
        decreases to - i,
    {
        let byte = b[i];
        if !(byte == 0 || byte == 32 || (48 <= byte && byte <= 55)) {
            assert(!is_pax_numeric_byte(b@[i as int]));
            return false;
        }
        i = i + 1;
    }
    true
}

/// Whether every numeric field of a header is octal.
pub fn has_pax_numeric_fields(header: &Header) -> (yes: bool)
    ensures
        yes == (is_pax_numeric(header@, 100, 148) && is_pax_numeric(header@, 329, 345)),
{
    is_pax_numeric_range(header.as_bytes(), 100, 148) && is_pax_numeric_range(
        header.as_bytes(),
        329,
        345,
    )
}

/// Whether a header may stand in a strict pax archive.
pub fn is_pax_header(header: &Header) -> (yes: bool)
    ensures
        yes == is_pax_block(header@),
{
    header.is_ustar() && is_pax_entry_type(header.entry_type()) && has_pax_numeric_fields(header)
}

/// Reads a number in a pax record: decimal digits alone.
pub fn parse_pax_decimal(value: &str, parse_error: &str) -> (number: Result<u64, Error>)
    ensures
        outcome(number) == (match parsed_decimal(encode_utf8(value@)) {
            Some(n) => Ok(n),
            None => Err(failure(parse_error@)),
        }),
{
    match parse_decimal(value.as_bytes()) {
        Some(n) => Ok(n),
        None => Err(other(parse_error)),
    }
}

/// Checks a header.
pub fn check_header(options: &ArchiveOptions, header: &Header) -> (done: Result<(), Error>)
    ensures
        match header_refusal(*options, header@) {
            Some(err) => done matches Err(e) && e@ == err,
            None => done is Ok,
        },
{
    let sum: u32 = header.calculate_cksum();
    let cksum: u32 = match header.cksum() {
        Ok(n) => n,
        Err(e) => {
            return Err(e);
        },
    };
    if sum != cksum {
        return Err(other("archive header checksum mismatch"));
    }
    if header.is_ambiguous_nul_version_ustar() {
        return Err(other("NUL-version USTAR header is ambiguous and not supported"));
    }
    if options.pax_only && !is_pax_header(header) {
        return Err(other("archive header is not allowed by pax-only mode"));
    }
    Ok(())
}

/// A member to which pax records are being applied.
struct Override {
    size: u64,
    header: Header,
    username: Option<Vec<u8>>,
    groupname: Option<Vec<u8>>,
    sparse_metadata: bool,
    sparse_format: bool,
    sparse_major_1: bool,
    sparse_minor_0: bool,
}

impl View for Override {
    type V = OverrideView;

    closed spec fn view(&self) -> OverrideView {
        OverrideView {
            size: self.size,
            header: self.header@,
            username: opt_bytes(self.username),
            groupname: opt_bytes(self.groupname),
            sparse_metadata: self.sparse_metadata,
            sparse_format: self.sparse_format,
            sparse_major_1: self.sparse_major_1,
            sparse_minor_0: self.sparse_minor_0,
        }
    }
}

fn number_of(record: &PaxExtension, not_text: &str, not_a_number: &str) -> (number: Result<
    u64,
    Error,
>)
    ensures
        outcome(number) == pax_number(record@.value, not_text@, not_a_number@),
{
    match record.value() {
        Some(value) => {
            proof {
                vstd::utf8::decode_utf8_encode_utf8(record@.value);
            }
            parse_pax_decimal(value, not_a_number)
        },
        None => Err(other(not_text)),
    }
}

fn is_value(record: &PaxExtension, value: &str) -> (yes: bool)
    ensures
        yes == (record@.value == encode_utf8(value@)),
{
    crate::bytes::same_bytes(record.value_bytes(), value.as_bytes())
}

fn copied(bytes: &[u8]) -> (copy: Vec<u8>)
    ensures
        copy@ == bytes@,
{
    let copy: Vec<u8> = copy_range(bytes, 0, bytes.len());
    assert(copy@ =~= bytes@);
    copy
}

impl Override {
    fn apply_sparse_record(&mut self, record: &PaxExtension)
        ensures
            final(self)@ == with_sparse_record(old(self)@, record@),
    {
        if starts_with(record.key_bytes(), "GNU.sparse.".as_bytes()) {
            self.sparse_metadata = true;
        }
        if record.has_key("GNU.sparse.map") || record.has_key("GNU.sparse.size") {
            self.sparse_format = true;
        } else if record.has_key("GNU.sparse.major") {
            self.sparse_major_1 = is_value(record, "1");
        } else if record.has_key("GNU.sparse.minor") {
            self.sparse_minor_0 = is_value(record, "0");
        }
        assert(self@ =~= with_sparse_record(old(self)@, record@));
    }

    fn apply_record(&mut self, record: &PaxExtension, apply: bool) -> (done: Result<(), Error>)
        ensures
            match with_record(old(self)@, record@, apply) {
                Ok(v) => done is Ok && final(self)@ == v,
                Err(err) => done matches Err(e) && e@ == err,
            },
    {
        let ghost before = self@;
        if record.key().is_none() {
            return Ok(());
        }
        if record.has_key("size") {
            match number_of(
                record,
                "failed to parse pax size as string",
                "failed to parse pax size",
            ) {
                Ok(n) => {
                    self.size = n;
                },
                Err(e) => {
                    return Err(e);
                },
            }
        } else if record.has_key("uid") {
            if apply {
                match number_of(
                    record,
                    "failed to parse pax uid as string",
                    "failed to parse pax uid",
                ) {
                    Ok(n) => {
                        self.header.set_uid(n);
                    },
                    Err(e) => {
                        return Err(e);
                    },
                }
            }
        } else if record.has_key("gid") {
            if apply {
                match number_of(
                    record,
                    "failed to parse pax gid as string",
                    "failed to parse pax gid",
                ) {
                    Ok(n) => {
                        self.header.set_gid(n);
                    },
                    Err(e) => {
                        return Err(e);
                    },
                }
            }
        } else if record.has_key("uname") {
            let value = record.value_bytes();
            self.username = Some(copied(value));
            if value.len() > 0 && record.value().is_some() {
                let _ = self.header.set_username(value);
            }
        } else if record.has_key("gname") {
            let value = record.value_bytes();
            self.groupname = Some(copied(value));
            if value.len() > 0 && record.value().is_some() {
                let _ = self.header.set_groupname(value);
            }
        } else {
            self.apply_sparse_record(record);
        }
        assert(with_record(before, record@, apply) matches Ok(v) && self@ =~= v);
        Ok(())
    }

    fn apply_pax(&mut self, data: &[u8], apply: bool) -> (done: Result<(), Error>)
        ensures
            match with_pax(old(self)@, data@, apply) {
                Ok(v) => done is Ok && final(self)@ == v,
                Err(err) => done matches Err(e) && e@ == err,
            },
    {
        let pax = pax_extensions(data);
        let ghost rs = pax_views(pax.records@);
        let mut i: usize = 0;
        assert(rs.take(0) =~= Seq::<PaxView>::empty());
        while i < pax.records.len()
            invariant
                i <= pax.records@.len(),
                rs == pax_views(pax.records@),
                rs == pax_records(data@),
                with_records(old(self)@, rs.take(i as int), apply) == Ok::<OverrideView, ErrorView>(
                    self@,
                ),
            decreases pax.records@.len() - i,
        {
            assert(rs.take(i + 1).drop_last() =~= rs.take(i as int));
            assert(rs.take(i + 1).last() == pax.records@[i as int]@);
            let record = pax.records[i];
            match self.apply_record(&record, apply) {
                Ok(()) => {},
                Err(e) => {
                    proof {
                        lemma_records_stuck(old(self)@, rs, apply, i + 1);
                    }
                    return Err(e);
                },
            }
            i = i + 1;
        }
        assert(rs.take(rs.len() as int) =~= rs);
        if pax.malformed {
            return Err(other("malformed pax extension"));
        }
        Ok(())
    }
}

/// Records with a bad one among them are bad.
proof fn lemma_records_stuck(v: OverrideView, rs: Seq<PaxView>, apply: bool, k: int)
    requires
        0 <= k <= rs.len(),
        with_records(v, rs.take(k), apply) is Err,
    ensures
        with_records(v, rs, apply) == with_records(v, rs.take(k), apply),
    decreases rs.len() - k,
{
    if k < rs.len() {
        assert(rs.take(k + 1).drop_last() =~= rs.take(k));
        lemma_records_stuck(v, rs, apply, k + 1);
    } else {
        assert(rs.take(k) =~= rs);
    }
}

/// Makes a member of an accepted header. `next` is the position of the data,
/// and becomes that of the next header.
pub fn read_member(
    options: &ArchiveOptions,
    usage: &mut Usage,
    header: Header,
    header_pos: u64,
    next: &mut u64,
    pax: Option<&[u8]>,
    apply: bool,
) -> (entry: Result<Entry, Error>)
    ensures
        (final(usage)@, *final(next), outcome_entry(entry)) == member(
            *options,
            old(usage)@,
            header@,
            header_pos,
            *old(next),
            match pax {
                Some(d) => Some(d@),
                None => None,
            },
            apply,
        ),
{
    let file_pos: u64 = *next;
    let size: u64 = match header.raw_entry_size() {
        Ok(n) => n,
        Err(e) => {
            return Err(e);
        },
    };
    let entry_type = header.entry_type();
    let is_extension: bool = entry_type.is_gnu_longname() || entry_type.is_gnu_longlink()
        || header.is_pax_local_extensions() || entry_type.is_pax_global_extensions();
    match usage.reserve_entry(options, size, is_extension) {
        Ok(()) => {},
        Err(e) => {
            return Err(e);
        },
    }
    let mut v = Override {
        size,
        header,
        username: None,
        groupname: None,
        sparse_metadata: false,
        sparse_format: false,
        sparse_major_1: false,
        sparse_minor_0: false,
    };
    assert(v@ =~= plain_override(header@, size));
    if !is_extension {
        if let Some(data) = pax {
            match v.apply_pax(data, apply) {
                Ok(()) => {},
                Err(e) => {
                    return Err(e);
                },
            }
        }
    }
    if v.sparse_metadata && !(v.sparse_format || v.sparse_major_1 && v.sparse_minor_0) {
        return Err(other("orphaned GNU sparse pax metadata is not supported"));
    }
    let mut data: VecDeque<EntryIo> = VecDeque::new();
    if !(entry_type.is_gnu_sparse() && apply) {
        data.push_back(EntryIo::Data(v.size));
    }
    let padded: u64 = match v.size.checked_add(BLOCK_SIZE - 1) {
        Some(n) => (n / BLOCK_SIZE) * BLOCK_SIZE,
        None => {
            return Err(other("size overflow"));
        },
    };
    let after: u64 = match file_pos.checked_add(padded) {
        Some(n) => n,
        None => {
            return Err(other("size overflow"));
        },
    };
    *next = after;
    let entry = Entry {
        size: v.size,
        header_pos,
        file_pos,
        data,
        header: v.header,
        long_pathname: None,
        long_linkname: None,
        pax_extensions: None,
        pax_username: v.username,
        pax_groupname: v.groupname,
        unpack: UnpackOptions {
            unpack_xattrs: options.unpack_xattrs,
            preserve_permissions: options.preserve_permissions,
            preserve_mtime: options.preserve_mtime,
            overwrite: options.overwrite,
            allow_external_symlinks: options.allow_external_symlinks,
        },
    };
    assert(entry@ =~= member_of(*options, v@, header@, header_pos, file_pos, apply));
    Ok(entry)
}

/// The next header stands behind the data, on a block boundary, and less than
/// a block behind its end.
pub proof fn law_next_header_is_behind_data(at: u64, size: u64)
    requires
        at % 512 == 0,
    ensures
        behind_data(at, size) matches Some(next) ==> next % 512 == 0 && at + size <= next < at
            + size + 512,
{
}

/// In pax-only mode only USTAR headers of the kinds that pax knows are accepted,
/// with octal numbers alone; in particular no global pax records and no GNU
/// extension.
pub proof fn law_pax_only_is_strict(o: ArchiveOptions, b: Seq<u8>)
    requires
        o.pax_only,
        header_refusal(o, b) is None,
    ensures
        is_pax_block(b),
        !(header_type(b) is XGlobalHeader),
        !(header_type(b) is GNULongName),
        !(header_type(b) is GNULongLink),
        !(header_type(b) is GNUSparse),
{
}

/// A header whose checksum is wrong is never accepted.
pub proof fn law_wrong_checksum_is_refused(o: ArchiveOptions, b: Seq<u8>)
    requires
        header_cksum(b) matches Ok(c) ==> c != checksum(b),
    ensures
        header_refusal(o, b) is Some,
{
}

/// Of several records for the size of a member the last one counts.
pub proof fn law_last_size_counts(v: OverrideView, rs: Seq<PaxView>, size: u64, apply: bool)
    requires
        with_records(v, rs, apply) is Ok,
        rs.len() > 0,
        rs.last().key == encode_utf8("size"@),
        parsed_decimal(rs.last().value) == Some(size),
    ensures
        with_records(v, rs, apply)->Ok_0.size == size,
{
    vstd::utf8::encode_utf8_valid_utf8("size"@);
}

} // verus!
