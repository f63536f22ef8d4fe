//! What the entries that are written for names and metadata say, and how it is
//! read back.

use crate::archive::ArchiveView;
use crate::archived::is_unlimited;
use crate::builder::{
    data_generated, directory_generated, hard_link_generated, stat_generated, symlink_generated,
};
use crate::bytes::{field, lemma_field_put_other, lemma_field_put_same, lemma_first_of_is, put, until_nul};
use crate::entries::EntriesView;
use crate::entry::{contents, entry_link, entry_path, pax_value, EntryView};
use crate::entry_type::EntryType;
use crate::error::{failure, ErrorView};
use crate::facts::EntryFacts;
use crate::generate::{
    entry_bytes, generated, generated_header, generated_number, generated_numbers, generated_path,
    GeneratedView,
};
use crate::header::{
    device_at, header_gid, header_link, header_mode, header_mtime, header_path, header_type,
    header_uid, is_ustar, last_slash, lemma_header_path_with_path, lemma_last_slash,
    lemma_until_nul_padded, padded, path_refusal, slot_refusal, slot_text, split_point, with_path,
    HeaderMode,
};
use crate::layout::{law_form_is_told_by_magic, says_gnu, says_ustar};
use crate::metadata::EntryMetadata;
use crate::name::{name_refusal, name_text, target_refusal};
use crate::number::{
    decimal, lemma_numeric_field, lemma_octal_field, lemma_octal_truncates, lemma_pow_values,
    numeric_field, octal_field, octal_limit, parsed_octal,
};
use crate::path::{member_path, member_path_refusal};
use crate::pax::PaxView;
use crate::readback::{
    kept_mode, law_data_is_read_back, law_directory_is_read_back, law_hard_link_is_read_back,
    law_symlink_is_read_back, lemma_generated_header, lemma_header_part, lemma_named,
};
use crate::roundtrip::{can_read, is_fresh};
use crate::scan::distance;
use crate::stat::{
    blank_entry, device_major, device_minor, member_kind, special_generated, with_stat, FileStat,
};
use crate::stream::said;
use vstd::prelude::*;
use vstd::utf8::{encode_utf8, is_ascii_chars};

verus! {

/// Whether a member says what metadata says: the owner's numbers, the permissions
/// or those that stand in for them, and the time, which is in a pax record from
/// 2^33 on. Of the permissions seven octal digits are kept.
pub open spec fn tells_metadata(m: EntryView, metadata: EntryMetadata, default_mode: u32) -> bool {
    &&& header_uid(m.header) == Ok::<u64, ErrorView>(metadata.uid)
    &&& header_gid(m.header) == Ok::<u64, ErrorView>(metadata.gid)
    &&& header_mode(m.header) == Ok::<u32, ErrorView>(
        (match metadata.mode {
            Some(mode) => mode % 0x20_0000,
            None => default_mode,
        }) as u32,
    )
    &&& if metadata.mtime < 0x2_0000_0000 {
        header_mtime(m.header) == Ok::<u64, ErrorView>(metadata.mtime)
    } else {
        pax_value(m.pax_extensions, encode_utf8("mtime"@)) == Ok::<Option<Seq<u8>>, ErrorView>(
            Some(decimal(metadata.mtime as nat)),
        )
    }
}

/// Where an entry of the given length can be read without limits.
pub open spec fn has_room(a: ArchiveView, e: EntriesView, between: Seq<u8>, len: nat) -> bool {
    &&& is_fresh(e)
    &&& is_unlimited(a)
    &&& between.len() == distance(a.pos, e.scan.next)
    &&& a.pos + between.len() + len <= u64::MAX
}

/// A file that is generated under a name is read back as a regular file with its
/// data and its metadata; the name is refused if and only if it cannot be a
/// member's. Without permissions of its own it has 644.
pub proof fn law_generated_file_is_read_back(
    a: ArchiveView,
    e: EntriesView,
    between: Seq<u8>,
    path: Seq<u8>,
    metadata: EntryMetadata,
    data: Seq<u8>,
    tail: Seq<u8>,
)
    requires
        data.len() <= u64::MAX,
        metadata.uid < 0x8000_0000_0000_0000,
        metadata.gid < 0x8000_0000_0000_0000,
        data_generated(path, data.len() as u64, metadata) matches Ok(g) ==> has_room(
            a,
            e,
            between,
            entry_bytes(g, data).len(),
        ),
    ensures
        data_generated(path, data.len() as u64, metadata) is Ok <==> name_refusal(path) is None,
        data_generated(path, data.len() as u64, metadata) matches Ok(g) ==> (said(
            a,
            e,
            between + entry_bytes(g, data) + tail,
        ) matches (read, after, rest, Some(Ok(m))) && {
            &&& entry_path(m) == Ok::<Seq<u8>, ErrorView>(member_path(path))
            &&& entry_link(m) == Ok::<Option<Seq<u8>>, ErrorView>(None)
            &&& header_type(m.header) is Regular
            &&& m.size == data.len()
            &&& contents(m.data, rest) == data
            &&& tells_metadata(m, metadata, 0o644)
            &&& is_fresh(after)
        }),
{
    if let Ok(g) = data_generated(path, data.len() as u64, metadata) {
        assert(can_read(a, e, between, g, data));
        law_data_is_read_back(a, e, between, path, data.len() as u64, metadata, data, tail);
    }
}

/// A generated directory is read back as a directory without data, with 755 for
/// its permissions unless it has its own.
pub proof fn law_generated_directory_is_read_back(
    a: ArchiveView,
    e: EntriesView,
    between: Seq<u8>,
    path: Seq<u8>,
    metadata: EntryMetadata,
    tail: Seq<u8>,
)
    requires
        metadata.uid < 0x8000_0000_0000_0000,
        metadata.gid < 0x8000_0000_0000_0000,
        directory_generated(path, metadata) matches Ok(g) ==> has_room(
            a,
            e,
            between,
            entry_bytes(g, Seq::empty()).len(),
        ),
    ensures
        directory_generated(path, metadata) is Ok <==> name_refusal(path) is None,
        directory_generated(path, metadata) matches Ok(g) ==> (said(
            a,
            e,
            between + entry_bytes(g, Seq::empty()) + tail,
        ) matches (read, after, rest, Some(Ok(m))) && {
            &&& entry_path(m) == Ok::<Seq<u8>, ErrorView>(member_path(path))
            &&& entry_link(m) == Ok::<Option<Seq<u8>>, ErrorView>(None)
            &&& header_type(m.header) is Directory
            &&& m.size == 0
            &&& tells_metadata(m, metadata, 0o755)
            &&& is_fresh(after)
        }),
{
    if let Ok(g) = directory_generated(path, metadata) {
        assert(can_read(a, e, between, g, Seq::empty()));
        law_directory_is_read_back(a, e, between, path, metadata, tail);
    }
}

/// A generated hard link is read back as a hard link whose target is named as a
/// member is; both names must be such that a member can have them.
pub proof fn law_generated_hard_link_is_read_back(
    a: ArchiveView,
    e: EntriesView,
    between: Seq<u8>,
    path: Seq<u8>,
    target: Seq<u8>,
    tail: Seq<u8>,
)
    requires
        hard_link_generated(path, target) matches Ok(g) ==> has_room(
            a,
            e,
            between,
            entry_bytes(g, Seq::empty()).len(),
        ),
    ensures
        hard_link_generated(path, target) is Ok <==> name_refusal(path) is None && name_refusal(
            target,
        ) is None,
        hard_link_generated(path, target) matches Ok(g) ==> (said(
            a,
            e,
            between + entry_bytes(g, Seq::empty()) + tail,
        ) matches (read, after, rest, Some(Ok(m))) && {
            &&& entry_path(m) == Ok::<Seq<u8>, ErrorView>(member_path(path))
            &&& entry_link(m) == Ok::<Option<Seq<u8>>, ErrorView>(Some(member_path(target)))
            &&& header_type(m.header) is Link
            &&& m.size == 0
            &&& tells_metadata(m, EntryMetadata { mode: None, uid: 0, gid: 0, mtime: 0 }, 0o644)
            &&& is_fresh(after)
        }),
{
    if let Ok(g) = hard_link_generated(path, target) {
        assert(can_read(a, e, between, g, Seq::empty()));
        law_hard_link_is_read_back(a, e, between, path, target, tail);
    }
}

/// A generated symbolic link is read back as a symbolic link with its target as it
/// was given; the target must be text that can stand in an archive.
pub proof fn law_generated_symlink_is_read_back(
    a: ArchiveView,
    e: EntriesView,
    between: Seq<u8>,
    path: Seq<u8>,
    target: Seq<u8>,
    tail: Seq<u8>,
)
    requires
        symlink_generated(path, target) matches Ok(g) ==> has_room(
            a,
            e,
            between,
            entry_bytes(g, Seq::empty()).len(),
        ),
    ensures
        symlink_generated(path, target) is Ok <==> name_refusal(path) is None && target_refusal(
            target,
        ) is None,
        symlink_generated(path, target) matches Ok(g) ==> (said(
            a,
            e,
            between + entry_bytes(g, Seq::empty()) + tail,
        ) matches (read, after, rest, Some(Ok(m))) && {
            &&& entry_path(m) == Ok::<Seq<u8>, ErrorView>(member_path(path))
            &&& entry_link(m) == Ok::<Option<Seq<u8>>, ErrorView>(Some(target))
            &&& header_type(m.header) is Symlink
            &&& m.size == 0
            &&& tells_metadata(m, EntryMetadata { mode: None, uid: 0, gid: 0, mtime: 0 }, 0o777)
            &&& is_fresh(after)
        }),
{
    if let Ok(g) = symlink_generated(path, target) {
        assert(can_read(a, e, between, g, Seq::empty()));
        law_symlink_is_read_back(a, e, between, path, target, tail);
    }
}

/// Whether a path can be split for a USTAR header: at a slash that leaves up to 155
/// bytes in front of it, and from 1 to 100 bytes behind it.
pub open spec fn can_be_split(t: Seq<u8>) -> bool {
    exists|k: int|
        0 < k <= 155 && k < t.len() - 1 && t.len() - k - 1 <= 100 && #[trigger] t[k] == '/' as u8
}

proof fn lemma_last_slash_is_last(t: Seq<u8>, below: int, k: int)
    requires
        0 <= k < below <= t.len(),
        t[k] == 47,
    ensures
        last_slash(t, below) >= k,
    decreases below,
{
    if t[below - 1] != 47 {
        lemma_last_slash_is_last(t, below - 1, k);
    }
}

/// A path fits in a header if and only if it can be a member's path, has no zero
/// byte, and is no longer than 100 bytes or, in a USTAR header, can be split.
pub proof fn law_path_fits_header(b: Seq<u8>, p: Seq<u8>)
    requires
        b.len() == 512,
    ensures
        path_refusal(b, p) is None <==> {
            let t = member_path(p);
            &&& member_path_refusal(p) is None
            &&& !t.contains(0)
            &&& t.len() <= 100 || says_ustar(b) && can_be_split(t)
        },
{
    let t = member_path(p);
    law_form_is_told_by_magic(b);
    if t.len() > 100 {
        let below = if t.len() <= 156 {
            t.len() - 1
        } else {
            156
        };
        lemma_last_slash(t, below);
        let s = split_point(t);
        if s > 0 && t.len() - s - 1 <= 100 {
            assert(t[s] == '/' as u8);
        }
        if can_be_split(t) {
            let k = choose|k: int|
                0 < k <= 155 && k < t.len() - 1 && t.len() - k - 1 <= 100 && #[trigger] t[k]
                    == '/' as u8;
            lemma_last_slash_is_last(t, below, k);
        }
    }
}

/// A path that fits in a header is read back from it, and the rest of the header
/// is left as it was.
pub proof fn law_path_is_put_in_header(b: Seq<u8>, p: Seq<u8>)
    requires
        b.len() == 512,
        path_refusal(b, p) is None,
    ensures
        header_path(with_path(b, member_path(p))) == member_path(p),
        with_path(b, member_path(p)).len() == 512,
        forall|i: int|
            100 <= i < 345 || 500 <= i < 512 ==> #[trigger] with_path(b, member_path(p))[i] == b[i],
        !says_ustar(b) ==> forall|i: int|
            345 <= i < 500 ==> #[trigger] with_path(b, member_path(p))[i] == b[i],
{
    broadcast use {lemma_field_put_same, lemma_field_put_other};

    let t = member_path(p);
    let w = with_path(b, t);
    law_form_is_told_by_magic(b);
    if is_ustar(b) {
        lemma_header_path_with_path(b, p);
        if t.len() > 100 {
            crate::header::lemma_split_point(t);
        }
    } else {
        lemma_until_nul_padded(t, 100);
        assert(field(w, 0, 100) == padded(t, 100));
        assert(field(w, 257, 8) == field(b, 257, 8));
    }
}

/// A link target fits in a header if and only if it is no longer than 100 bytes and
/// has no zero byte; it is then read back from the header.
pub proof fn law_link_is_put_in_header(b: Seq<u8>, t: Seq<u8>)
    requires
        b.len() == 512,
    ensures
        slot_refusal(t, 100) is None <==> t.len() <= 100 && !t.contains(0),
        slot_refusal(t, 100) is None && t.len() > 0 ==> header_link(
            put(b, 157, slot_text(t, 100)),
        ) == Some(t),
        slot_refusal(t, 100) is None && t.len() == 0 ==> header_link(
            put(b, 157, slot_text(t, 100)),
        ) is None,
{
    if slot_refusal(t, 100) is None {
        let h = put(b, 157, slot_text(t, 100));
        let slot = field(h, 157, 100);
        assert forall|j: int| 0 <= j < t.len() implies slot[j] != 0 by {
            assert(slot[j] == slot_text(t, 100)[j]);
            assert(t.contains(t[j]));
        }
        lemma_first_of_is(slot, 0, t.len() as int);
        assert(until_nul(slot) =~= t);
        assert(h[157] == slot[0]);
    }
}

/// The record for a number, where the number does not fit in its field.
pub open spec fn record_from(key: Seq<char>, n: u64, limit: nat) -> Seq<PaxView> {
    if n < limit {
        Seq::empty()
    } else {
        seq![PaxView { key: encode_utf8(key), value: decimal(n as nat) }]
    }
}

proof fn lemma_number_record(g: GeneratedView, key: Seq<char>, at: int, len: int, n: u64)
    requires
        g.header.len() == 512,
        len == 8 || len == 12,
        0 <= at,
        at + len <= 512,
        field(g.header, at, len) == numeric_field(n as nat, len as nat),
        len == 8 ==> n < 0x8000_0000_0000_0000,
    ensures
        ({
            let after = generated_number(g, key, at, len);
            &&& after.extensions == g.extensions + record_from(key, n, octal_limit(len as nat))
            &&& after.header.len() == 512
            &&& forall|i: int|
                0 <= i < at || at + len <= i < 512 ==> #[trigger] after.header[i] == g.header[i]
        }),
{
    let after = generated_number(g, key, at, len);
    lemma_numeric_field(n as nat, len as nat);
    lemma_numeric_field(0, len as nat);
    assert(after.extensions =~= g.extensions + record_from(key, n, octal_limit(len as nat)));
}

/// An entry has pax records for exactly what its header cannot hold: a path that is
/// not ASCII or does not fit, a size or a time from 2^33 on, and an owner's number
/// from 2^21 on.
pub proof fn law_records_hold_what_does_not_fit(
    path: Seq<u8>,
    size: u64,
    kind: EntryType,
    metadata: EntryMetadata,
    default_mode: u32,
)
    requires
        name_refusal(path) is None,
        metadata.uid < 0x8000_0000_0000_0000,
        metadata.gid < 0x8000_0000_0000_0000,
    ensures
        ({
            let t = member_path(path);
            let name = name_text(path);
            let fits = is_ascii_chars(name) && (t.len() <= 100 || can_be_split(t));
            let named = if fits {
                Seq::empty()
            } else {
                seq![PaxView { key: encode_utf8("path"@), value: t }]
            };
            generated(name, size, kind, metadata, default_mode).extensions == named + record_from(
                "size"@,
                size,
                0x2_0000_0000,
            ) + record_from("uid"@, metadata.uid, 0x20_0000) + record_from(
                "gid"@,
                metadata.gid,
                0x20_0000,
            ) + record_from("mtime"@, metadata.mtime, 0x2_0000_0000)
        }),
{
    let t = member_path(path);
    let name = name_text(path);
    let h = generated_header(size, kind, metadata, default_mode);
    let f = EntryFacts {
        mode: kept_mode(
            match metadata.mode {
                Some(mode) => mode,
                None => default_mode,
            },
        ),
        uid: metadata.uid,
        gid: metadata.gid,
        mtime: metadata.mtime,
        size,
        kind,
        ..arbitrary()
    };
    lemma_generated_header(f, metadata, default_mode);
    let g0 = GeneratedView { header: h, extensions: Seq::empty() };
    let g1 = generated_path(g0, name);
    lemma_named(g0, path);
    lemma_header_part(h, g1.header);
    crate::name::law_name_is_kept(path);
    crate::path::law_member_path_is_kept(path);
    law_path_fits_header(h, t);
    law_form_is_told_by_magic(h);
    if is_ascii_chars(name) {
        crate::name::lemma_plain_member_path(path);
        lemma_no_zero(path);
    }
    let fits = is_ascii_chars(name) && (t.len() <= 100 || can_be_split(t));
    let named = if fits {
        Seq::empty()
    } else {
        seq![PaxView { key: encode_utf8("path"@), value: t }]
    };
    assert(g1.extensions =~= named);
    let g2 = generated_number(g1, "size"@, 124, 12);
    let g3 = generated_number(g2, "uid"@, 108, 8);
    let g4 = generated_number(g3, "gid"@, 116, 8);
    lemma_number_record(g1, "size"@, 124, 12, size);
    assert(field(g2.header, 108, 8) =~= field(g1.header, 108, 8));
    lemma_number_record(g2, "uid"@, 108, 8, metadata.uid);
    assert(field(g3.header, 116, 8) =~= field(g1.header, 116, 8));
    lemma_number_record(g3, "gid"@, 116, 8, metadata.gid);
    assert(field(g4.header, 136, 12) =~= field(g1.header, 136, 12));
    lemma_number_record(g4, "mtime"@, 136, 12, metadata.mtime);
}

/// A name has no zero byte: that would be a control character.
proof fn lemma_no_zero(path: Seq<u8>)
    requires
        name_refusal(path) is None,
        is_ascii_chars(name_text(path)),
    ensures
        !member_path(path).contains(0),
{
    let t = member_path(path);
    let name = name_text(path);
    crate::name::law_name_is_kept(path);
    crate::name::lemma_plain_member_path(path);
    vstd::utf8::is_ascii_chars_encode_utf8(name);
    if t.contains(0) {
        let i = choose|i: int| 0 <= i < t.len() && t[i] == 0;
        assert(encode_utf8(name)[i] == 0);
        assert(name[i] as u8 == 0);
        assert(crate::text::is_control_char(name[i]));
        assert(crate::text::has_control(name));
    }
}

/// The header of a device has its major and its minor number, and they are read
/// back from it; seven octal digits are kept of each.
pub proof fn law_device_is_told(path: Seq<u8>, stat: FileStat, mode: HeaderMode, what: Seq<char>)
    requires
        name_refusal(path) is None,
    ensures
        ({
            let h = special_generated(name_text(path), stat, mode).header;
            &&& device_at(h, 329, what) == Ok::<Option<u32>, ErrorView>(
                Some((device_major(stat.rdev) % 0x20_0000) as u32),
            )
            &&& device_at(h, 337, what) == Ok::<Option<u32>, ErrorView>(
                Some((device_minor(stat.rdev) % 0x20_0000) as u32),
            )
        }),
{
    broadcast use {lemma_field_put_same, lemma_field_put_other, crate::header::lemma_form_put};

    let g0 = blank_entry();
    crate::facts::lemma_new_ustar();
    let f = EntryFacts { ..crate::readback::facts_of_stat(path, stat, mode, None) };
    crate::readback::lemma_with_stat(g0.header, stat, mode, f);
    let g1 = GeneratedView { header: with_stat(g0.header, stat, mode), ..g0 };
    let g2 = generated_path(g1, name_text(path));
    lemma_named(g1, path);
    let n = device_major(stat.rdev);
    let m = device_minor(stat.rdev);
    let major = octal_field(n as nat, 8);
    let minor = octal_field(m as nat, 8);
    lemma_pow_values();
    lemma_octal_truncates(n as nat, 7);
    lemma_octal_truncates(m as nat, 7);
    lemma_octal_field((n % 0x20_0000) as nat, 8);
    lemma_octal_field((m % 0x20_0000) as nat, 8);
    let h3 = put(
        g2.header,
        156,
        seq![crate::entry_type::typeflag_of(member_kind(stat.kind))],
    );
    let h4 = put(h3, 329, major);
    let h5 = put(h4, 337, minor);
    let g3 = GeneratedView { header: h5, ..g2 };
    assert(is_ustar(h5));
    assert(field(h5, 329, 8) == major);
    assert(field(h5, 337, 8) == minor);
    lemma_numbers_keep(g3);
    let h = generated_numbers(g3).header;
    assert(field(h, 329, 8) =~= field(h5, 329, 8));
    assert(field(h, 337, 8) =~= field(h5, 337, 8));
    assert(field(h, 257, 8) =~= field(h5, 257, 8));
}

/// Moving numbers to records changes nothing behind them.
proof fn lemma_numbers_keep(g: GeneratedView)
    requires
        g.header.len() == 512,
    ensures
        generated_numbers(g).header.len() == 512,
        forall|i: int|
            148 <= i < 512 ==> #[trigger] generated_numbers(g).header[i] == g.header[i],
{
    crate::number::lemma_numeric_field_form(0, 8);
    crate::number::lemma_numeric_field_form(0, 12);
    let g1 = generated_number(g, "size"@, 124, 12);
    let g2 = generated_number(g1, "uid"@, 108, 8);
    let g3 = generated_number(g2, "gid"@, 116, 8);
    let g4 = generated_number(g3, "mtime"@, 136, 12);
    assert forall|i: int| 148 <= i < 512 implies #[trigger] g4.header[i] == g.header[i] by {
        assert(g1.header[i] == g.header[i]);
        assert(g2.header[i] == g1.header[i]);
        assert(g3.header[i] == g2.header[i]);
    }
}

/// A link target stands in the header where it is ASCII and fits there, and else in a
/// pax record.
pub proof fn law_link_stands_where_it_fits(
    g: GeneratedView,
    target: Seq<char>,
    fallback: Seq<char>,
)
    requires
        g.header.len() == 512,
        encode_utf8(target).len() > 0,
    ensures
        ({
            let t = encode_utf8(target);
            let after = crate::generate::generated_link(g, target, fallback);
            let fits = is_ascii_chars(target) && t.len() <= 100 && !t.contains(0);
            &&& fits ==> after.extensions == g.extensions && header_link(after.header) == Some(t)
            &&& !fits ==> after.extensions == g.extensions.push(
                PaxView { key: encode_utf8("linkpath"@), value: t },
            )
        }),
{
    law_link_is_put_in_header(put(g.header, 157, crate::bytes::zeros(100)), encode_utf8(target));
}

/// What a file system says of a file is put in a header of any form: the numbers, in
/// deterministic mode zeros and plain permissions, the size, the kind, and device
/// numbers of zero where there is room for them. Nothing else changes.
pub proof fn law_stat_is_put_in_header(b: Seq<u8>, stat: FileStat, mode: HeaderMode)
    requires
        b.len() == 512,
        stat.uid < 0x8000_0000_0000_0000,
        stat.gid < 0x8000_0000_0000_0000,
    ensures
        ({
            let h = with_stat(b, stat, mode);
            let complete = mode is Complete;
            &&& h.len() == 512
            &&& header_uid(h) == Ok::<u64, ErrorView>(
                if complete {
                    stat.uid
                } else {
                    0
                },
            )
            &&& header_gid(h) == Ok::<u64, ErrorView>(
                if complete {
                    stat.gid
                } else {
                    0
                },
            )
            &&& header_mtime(h) == Ok::<u64, ErrorView>(
                if complete {
                    stat.mtime
                } else {
                    0
                },
            )
            &&& header_mode(h) == Ok::<u32, ErrorView>(
                if complete {
                    (stat.mode % 0x20_0000) as u32
                } else if stat.kind is Directory || stat.mode & 0o100 != 0 {
                    0o755
                } else {
                    0o644
                },
            )
            &&& crate::header::header_size(h) == Ok::<u64, ErrorView>(
                if stat.kind is Directory || stat.kind is Symlink {
                    0
                } else {
                    stat.len
                },
            )
            &&& forall|i: int|
                0 <= i < 100 || 148 <= i < 156 || 157 <= i < 329 || 345 <= i < 512 ==> #[trigger] h[i]
                    == b[i]
            &&& says_ustar(b) || says_gnu(b) ==> parsed_octal(h.subrange(329, 337)) == Some(0u64)
                && parsed_octal(h.subrange(337, 345)) == Some(0u64)
            &&& !says_ustar(b) && !says_gnu(b) ==> forall|i: int|
                329 <= i < 345 ==> #[trigger] h[i] == b[i]
        }),
{
    broadcast use {lemma_field_put_same, lemma_field_put_other};

    law_form_is_told_by_magic(b);
    let complete = mode is Complete;
    let bits = stat.mode;
    assert((bits / 64) % 2 == 1 <==> bits & 0o100 != 0) by (bit_vector);
    let mtime = if complete {
        stat.mtime
    } else {
        0
    };
    let uid = if complete {
        stat.uid
    } else {
        0
    };
    let gid = if complete {
        stat.gid
    } else {
        0
    };
    let perm = if complete {
        stat.mode
    } else {
        crate::stat::plain_mode(stat)
    };
    let size = crate::stat::data_len(stat);
    lemma_numeric_field(mtime as nat, 12);
    lemma_numeric_field(uid as nat, 8);
    lemma_numeric_field(gid as nat, 8);
    lemma_numeric_field(size as nat, 12);
    lemma_pow_values();
    lemma_octal_truncates(perm as nat, 7);
    lemma_octal_field((perm % 0x20_0000) as nat, 8);
    lemma_octal_field(0, 8);
    let h0 = put(b, 136, numeric_field(mtime as nat, 12));
    let h1 = put(h0, 108, numeric_field(uid as nat, 8));
    let h2 = put(h1, 116, numeric_field(gid as nat, 8));
    let h3 = put(h2, 100, octal_field(perm as nat, 8));
    let h4 = put(h3, 156, seq![crate::entry_type::typeflag_of(member_kind(stat.kind))]);
    let h5 = put(h4, 124, numeric_field(size as nat, 12));
    let h6 = put(h5, 329, octal_field(0, 8));
    let h = with_stat(b, stat, mode);
    assert(h == h5 || h == put(h6, 337, octal_field(0, 8)));
    assert(octal_field(perm as nat, 8).len() == 8);
    assert(field(h5, 136, 12) == numeric_field(mtime as nat, 12)) by {
        assert(field(h0, 136, 12) == numeric_field(mtime as nat, 12));
        assert(field(h1, 136, 12) == field(h0, 136, 12));
        assert(field(h2, 136, 12) == field(h1, 136, 12));
        assert(field(h3, 136, 12) == field(h2, 136, 12));
        assert(field(h4, 136, 12) == field(h3, 136, 12));
    }
    assert(field(h5, 108, 8) == numeric_field(uid as nat, 8)) by {
        assert(field(h1, 108, 8) == numeric_field(uid as nat, 8));
        assert(field(h2, 108, 8) == field(h1, 108, 8));
        assert(field(h3, 108, 8) == field(h2, 108, 8));
        assert(field(h4, 108, 8) == field(h3, 108, 8));
    }
    assert(field(h5, 116, 8) == numeric_field(gid as nat, 8)) by {
        assert(field(h2, 116, 8) == numeric_field(gid as nat, 8));
        assert(field(h3, 116, 8) == field(h2, 116, 8));
        assert(field(h4, 116, 8) == field(h3, 116, 8));
    }
    assert(field(h5, 100, 8) == octal_field(perm as nat, 8)) by {
        assert(field(h3, 100, 8) == octal_field(perm as nat, 8));
        assert(field(h4, 100, 8) == field(h3, 100, 8));
    }
    assert(field(h5, 124, 12) == numeric_field(size as nat, 12));
    assert(field(h, 136, 12) =~= field(h5, 136, 12));
    assert(field(h, 108, 8) =~= field(h5, 108, 8));
    assert(field(h, 116, 8) =~= field(h5, 116, 8));
    assert(field(h, 100, 8) =~= field(h5, 100, 8));
    assert(field(h, 124, 12) =~= field(h5, 124, 12));
    if is_ustar(b) || crate::header::is_gnu(b) {
        assert(field(h, 337, 8) == octal_field(0, 8));
        assert(field(h, 329, 8) == field(h6, 329, 8));
    }
}

/// Metadata is put in a header of any form and read back from it; nothing else
/// changes.
pub proof fn law_metadata_is_put_in_header(
    b: Seq<u8>,
    metadata: EntryMetadata,
    default_mode: u32,
)
    requires
        b.len() == 512,
        metadata.uid < 0x8000_0000_0000_0000,
        metadata.gid < 0x8000_0000_0000_0000,
    ensures
        ({
            let h = crate::metadata::with_metadata(b, metadata, default_mode);
            &&& h.len() == 512
            &&& header_uid(h) == Ok::<u64, ErrorView>(metadata.uid)
            &&& header_gid(h) == Ok::<u64, ErrorView>(metadata.gid)
            &&& header_mtime(h) == Ok::<u64, ErrorView>(metadata.mtime)
            &&& header_mode(h) == Ok::<u32, ErrorView>(
                ((match metadata.mode {
                    Some(mode) => mode,
                    None => default_mode,
                }) % 0x20_0000) as u32,
            )
            &&& forall|i: int|
                0 <= i < 100 || 124 <= i < 136 || 148 <= i < 512 ==> #[trigger] h[i] == b[i]
        }),
{
    broadcast use {lemma_field_put_same, lemma_field_put_other};

    let perm = match metadata.mode {
        Some(mode) => mode,
        None => default_mode,
    };
    lemma_numeric_field(metadata.mtime as nat, 12);
    lemma_numeric_field(metadata.uid as nat, 8);
    lemma_numeric_field(metadata.gid as nat, 8);
    lemma_pow_values();
    lemma_octal_truncates(perm as nat, 7);
    lemma_octal_field((perm % 0x20_0000) as nat, 8);
    let h0 = put(b, 100, octal_field(perm as nat, 8));
    let h1 = put(h0, 108, numeric_field(metadata.uid as nat, 8));
    let h2 = put(h1, 116, numeric_field(metadata.gid as nat, 8));
    let h = put(h2, 136, numeric_field(metadata.mtime as nat, 12));
    assert(field(h0, 100, 8) == octal_field(perm as nat, 8));
    assert(field(h1, 108, 8) == numeric_field(metadata.uid as nat, 8));
    assert(field(h2, 116, 8) == numeric_field(metadata.gid as nat, 8));
    assert(field(h, 136, 12) == numeric_field(metadata.mtime as nat, 12));
    assert(field(h1, 100, 8) == field(h0, 100, 8));
    assert(field(h2, 100, 8) == field(h1, 100, 8));
    assert(field(h, 100, 8) == field(h2, 100, 8));
    assert(field(h2, 108, 8) == field(h1, 108, 8));
    assert(field(h, 108, 8) == field(h2, 108, 8));
    assert(field(h, 116, 8) == field(h2, 116, 8));
}

/// Where an entry cannot be written, the failure is that of its name where the name
/// cannot be a member's, and else that of the link target.
pub proof fn law_refusal_is_told(
    path: Seq<u8>,
    target: Seq<u8>,
    size: u64,
    metadata: EntryMetadata,
    stat: FileStat,
    mode: HeaderMode,
)
    ensures
        name_refusal(path) matches Some(message) ==> {
            let refused = Err::<GeneratedView, ErrorView>(failure(message));
            &&& data_generated(path, size, metadata) == refused
            &&& directory_generated(path, metadata) == refused
            &&& hard_link_generated(path, target) == refused
            &&& symlink_generated(path, target) == refused
            &&& stat_generated(path, stat, mode) == refused
        },
        name_refusal(path) is None ==> (name_refusal(target) matches Some(message)
            ==> hard_link_generated(path, target) == Err::<GeneratedView, ErrorView>(
            failure(message),
        )),
        name_refusal(path) is None ==> (target_refusal(target) matches Some(message)
            ==> symlink_generated(path, target) == Err::<GeneratedView, ErrorView>(
            failure(message),
        )),
{
}

} // verus!
