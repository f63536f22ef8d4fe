//! The entries that a builder makes are read back.

use crate::archive::ArchiveView;
use crate::builder::{
    data_generated, directory_generated, file_generated, hard_link_generated, no_metadata,
    symlink_generated, termination,
};
use crate::bytes::{
    field, lemma_field_put_other, lemma_field_put_same, lemma_first_of_is, put, until_nul, zeros,
};
use crate::entries::{entries_start, EntriesView};
use crate::entry_type::{entry_type_of, typeflag_of, EntryType};
use crate::facts::{
    all_pax_numeric, facts_wf, is_entry_of, is_plain_text, is_record_of, lemma_has_key,
    lemma_new_ustar, lemma_octal_is_pax_numeric, lemma_pax_numeric_fields, lemma_with_metadata,
    lemma_with_path_keeps, EntryFacts,
};
use crate::generate::{
    generated, generated_header, generated_link, generated_number, generated_numbers,
    generated_path, lemma_fixed_paths, lemma_fixed_texts, GeneratedView, PAX_HARD_LINK_FALLBACK,
    PAX_PAYLOAD_PATH, PAX_SYM_LINK_FALLBACK,
};
use crate::header::{
    header_link, header_path, is_ustar, lemma_form_put, new_ustar_bytes, path_refusal, slot_refusal,
    slot_text, HeaderMode,
};
use crate::member::{is_pax_numeric, is_pax_numeric_byte, is_pax_type};
use crate::metadata::{
    with_metadata, DEFAULT_DIRECTORY_MODE, DEFAULT_FILE_MODE, DEFAULT_SYMLINK_MODE, EntryMetadata,
};
use crate::name::{law_name_is_kept, lemma_plain_member_path, name_refusal, name_text};
use crate::number::{
    decimal, lemma_numeric_field, lemma_numeric_field_form, lemma_octal, lemma_octal_field,
    lemma_octal_truncates, lemma_pow_values, numeric_field, octal_field, octal_limit, parsed_numeric,
};
use crate::path::{law_member_path_is_kept, member_path};
use crate::pax::{has_key, pax_data, PaxView};
use crate::roundtrip::{
    are_allowed, can_read, finds_all, is_read_back, is_written, law_archive_is_read_with_contents,
    law_entry_is_read_back, whole_data, written_bytes, Written,
};
use crate::stat::{
    action_for, blank_entry, data_len, device_major, device_minor, fs_generated, member_kind,
    plain_mode, special_generated, with_stat, FileStat,
};
use vstd::prelude::*;
use vstd::utf8::{decode_utf8, encode_utf8, is_ascii_chars};

verus! {

pub proof fn lemma_push_key(rs: Seq<PaxView>, r: PaxView, key: Seq<u8>)
    ensures
        has_key(rs.push(r), key) == (has_key(rs, key) || r.key == key),
{
    lemma_has_key(rs.push(r), key);
    assert(rs.push(r).drop_last() =~= rs);
}

/// Whether `b` has the bytes of `h` but for the four numbers that may be moved
/// to pax records.
pub open spec fn same_but_numbers(b: Seq<u8>, h: Seq<u8>) -> bool {
    &&& b.len() == 512
    &&& h.len() == 512
    &&& forall|i: int| 0 <= i < 108 || 148 <= i < 512 ==> #[trigger] b[i] == h[i]
}

/// A number that is in the header, or in a pax record.
pub open spec fn is_moved(
    g: GeneratedView,
    after: GeneratedView,
    key: Seq<char>,
    at: int,
    len: int,
    n: u64,
) -> bool {
    let f = field(after.header, at, len);
    let k = encode_utf8(key);
    &&& after.header.len() == 512
    &&& forall|i: int|
        0 <= i < at || at + len <= i < 512 ==> #[trigger] after.header[i] == g.header[i]
    &&& all_pax_numeric(f)
    &&& parsed_numeric(f) is Some
    &&& if n < octal_limit(len as nat) {
        parsed_numeric(f) == Some(n)
    } else {
        has_key(after.extensions, k)
    }
    &&& after.extensions == g.extensions || after.extensions == g.extensions.push(
        PaxView { key: k, value: decimal(n as nat) },
    )
}

proof fn lemma_number_moved(g: GeneratedView, key: Seq<char>, at: int, len: int, n: u64)
    requires
        g.header.len() == 512,
        len == 8 || len == 12,
        0 <= at,
        at + len <= 512,
        field(g.header, at, len) == numeric_field(n as nat, len as nat),
        len == 8 ==> n < 0x8000_0000_0000_0000,
    ensures
        is_moved(g, generated_number(g, key, at, len), key, at, len, n),
{
    let after = generated_number(g, key, at, len);
    let k = encode_utf8(key);
    lemma_numeric_field(n as nat, len as nat);
    lemma_numeric_field(0, len as nat);
    lemma_octal_is_pax_numeric(0, len as nat);
    lemma_octal_is_pax_numeric(n as nat, len as nat);
    if n >= octal_limit(len as nat) {
        lemma_field_put_same(g.header, at, numeric_field(0, len as nat));
        lemma_push_key(g.extensions, PaxView { key: k, value: decimal(n as nat) }, k);
    }
}

/// Whether an entry has the four numbers in its header.
pub open spec fn has_numbers(g: GeneratedView, f: EntryFacts) -> bool {
    &&& g.header.len() == 512
    &&& field(g.header, 124, 12) == numeric_field(f.size as nat, 12)
    &&& field(g.header, 108, 8) == numeric_field(f.uid as nat, 8)
    &&& field(g.header, 116, 8) == numeric_field(f.gid as nat, 8)
    &&& field(g.header, 136, 12) == numeric_field(f.mtime as nat, 12)
}

/// Moving the numbers of an entry keeps everything else.
proof fn lemma_numbers_moved(g: GeneratedView, f: EntryFacts)
    requires
        has_numbers(g, f),
        forall|i: int| 0 <= i < g.extensions.len() ==> is_record_of(f, #[trigger] g.extensions[i]),
        f.uid < 0x8000_0000_0000_0000,
        f.gid < 0x8000_0000_0000_0000,
    ensures
        ({
            let after = generated_numbers(g);
            let h = after.header;
            let rs = after.extensions;
            &&& same_but_numbers(h, g.header)
            &&& forall|i: int| 0 <= i < rs.len() ==> is_record_of(f, #[trigger] rs[i])
            &&& all_pax_numeric(field(h, 108, 8))
            &&& all_pax_numeric(field(h, 116, 8))
            &&& all_pax_numeric(field(h, 124, 12))
            &&& all_pax_numeric(field(h, 136, 12))
            &&& parsed_numeric(field(h, 124, 12)) is Some
            &&& has_key(rs, encode_utf8("size"@)) || parsed_numeric(field(h, 124, 12)) == Some(
                f.size,
            )
            &&& has_key(rs, encode_utf8("uid"@)) || parsed_numeric(field(h, 108, 8)) == Some(f.uid)
            &&& has_key(rs, encode_utf8("gid"@)) || parsed_numeric(field(h, 116, 8)) == Some(f.gid)
            &&& if f.mtime < octal_limit(12) {
                parsed_numeric(field(h, 136, 12)) == Some(f.mtime)
            } else {
                has_key(rs, encode_utf8("mtime"@))
            }
            &&& has_key(g.extensions, encode_utf8("path"@)) ==> has_key(rs, encode_utf8("path"@))
            &&& has_key(g.extensions, encode_utf8("linkpath"@)) ==> has_key(
                rs,
                encode_utf8("linkpath"@),
            )
        }),
{
    let g1 = generated_number(g, "size"@, 124, 12);
    let g2 = generated_number(g1, "uid"@, 108, 8);
    let g3 = generated_number(g2, "gid"@, 116, 8);
    let g4 = generated_number(g3, "mtime"@, 136, 12);
    lemma_number_moved(g, "size"@, 124, 12, f.size);
    assert(field(g1.header, 108, 8) =~= field(g.header, 108, 8));
    lemma_number_moved(g1, "uid"@, 108, 8, f.uid);
    assert(field(g2.header, 116, 8) =~= field(g.header, 116, 8));
    lemma_number_moved(g2, "gid"@, 116, 8, f.gid);
    assert(field(g3.header, 136, 12) =~= field(g.header, 136, 12));
    lemma_number_moved(g3, "mtime"@, 136, 12, f.mtime);
    assert(field(g4.header, 124, 12) =~= field(g1.header, 124, 12));
    assert(field(g4.header, 108, 8) =~= field(g2.header, 108, 8));
    assert(field(g4.header, 116, 8) =~= field(g3.header, 116, 8));
    lemma_moved_keys(g, g1, "size"@, 124, 12, f.size, f);
    lemma_moved_keys(g1, g2, "uid"@, 108, 8, f.uid, f);
    lemma_moved_keys(g2, g3, "gid"@, 116, 8, f.gid, f);
    lemma_moved_keys(g3, g4, "mtime"@, 136, 12, f.mtime, f);
}

/// No record is lost when a number is moved to one.
proof fn lemma_moved_keys(
    g: GeneratedView,
    after: GeneratedView,
    key: Seq<char>,
    at: int,
    len: int,
    n: u64,
    f: EntryFacts,
)
    requires
        is_moved(g, after, key, at, len, n),
        is_record_of(f, PaxView { key: encode_utf8(key), value: decimal(n as nat) }),
        forall|i: int| 0 <= i < g.extensions.len() ==> is_record_of(f, #[trigger] g.extensions[i]),
    ensures
        forall|i: int|
            0 <= i < after.extensions.len() ==> is_record_of(f, #[trigger] after.extensions[i]),
        forall|k: Seq<u8>| has_key(g.extensions, k) ==> #[trigger] has_key(after.extensions, k),
{
    let r = PaxView { key: encode_utf8(key), value: decimal(n as nat) };
    assert forall|k: Seq<u8>| has_key(g.extensions, k) implies #[trigger] has_key(
        after.extensions,
        k,
    ) by {
        lemma_push_key(g.extensions, r, k);
    }
}

/// An entry whose path is in its header, or in a pax record.
pub open spec fn is_named(g: GeneratedView, after: GeneratedView, t: Seq<u8>) -> bool {
    let k = encode_utf8("path"@);
    &&& after.header.len() == 512
    &&& is_ustar(after.header)
    &&& forall|i: int| 100 <= i < 345 ==> #[trigger] after.header[i] == g.header[i]
    &&& (after.extensions == g.extensions && header_path(after.header) == t) || (after.extensions
        == g.extensions.push(PaxView { key: k, value: t }) && has_key(after.extensions, k))
}

pub proof fn lemma_named(g: GeneratedView, p: Seq<u8>)
    requires
        g.header.len() == 512,
        is_ustar(g.header),
        name_refusal(p) is None,
    ensures
        is_named(g, generated_path(g, name_text(p)), member_path(p)),
        is_plain_text(member_path(p)),
{
    let t = member_path(p);
    let name = name_text(p);
    law_name_is_kept(p);
    law_member_path_is_kept(p);
    lemma_plain_member_path(p);
    lemma_fixed_paths();
    let payload = encode_utf8(PAX_PAYLOAD_PATH@);
    lemma_with_path_keeps(g.header, payload);
    lemma_push_key(
        g.extensions,
        PaxView { key: encode_utf8("path"@), value: t },
        encode_utf8("path"@),
    );
    if is_ascii_chars(name) && path_refusal(g.header, t) is None {
        lemma_with_path_keeps(g.header, t);
    }
}

/// An entry whose link target is in its header, or in a pax record.
pub open spec fn is_linked(g: GeneratedView, after: GeneratedView, t: Seq<u8>) -> bool {
    let k = encode_utf8("linkpath"@);
    &&& after.header.len() == 512
    &&& forall|i: int| 0 <= i < 157 || 257 <= i < 512 ==> #[trigger] after.header[i] == g.header[i]
    &&& (after.extensions == g.extensions && header_link(after.header) == Some(t)) || (
    after.extensions == g.extensions.push(PaxView { key: k, value: t }) && has_key(
        after.extensions,
        k,
    ))
}

proof fn lemma_linked(g: GeneratedView, target: Seq<char>, fallback: Seq<char>)
    requires
        g.header.len() == 512,
        encode_utf8(target).len() > 0,
        encode_utf8(fallback).len() <= 100,
    ensures
        is_linked(g, generated_link(g, target, fallback), encode_utf8(target)),
{
    let t = encode_utf8(target);
    let k = encode_utf8("linkpath"@);
    lemma_push_key(g.extensions, PaxView { key: k, value: t }, k);
    let cleared = put(g.header, 157, zeros(100));
    if is_ascii_chars(target) && slot_refusal(t, 100) is None {
        let h = put(cleared, 157, slot_text(t, 100));
        let slot = field(h, 157, 100);
        assert forall|j: int| 0 <= j < t.len() implies slot[j] != 0 by {
            assert(slot[j] == slot_text(t, 100)[j]);
            assert(t.contains(t[j]));
        }
        lemma_first_of_is(slot, 0, t.len() as int);
        assert(until_nul(slot) =~= t);
        assert(h[157] == slot[0]);
    }
}

/// What a header keeps of a mode: the seven octal digits that it has room for.
pub open spec fn kept_mode(mode: u32) -> u32 {
    (mode % 0x20_0000) as u32
}

/// A mode is written as what is kept of it.
pub proof fn lemma_kept_mode(mode: u32)
    ensures
        octal_field(mode as nat, 8) == octal_field(kept_mode(mode) as nat, 8),
        kept_mode(mode) < 0x20_0000,
{
    lemma_pow_values();
    lemma_octal_truncates(mode as nat, 7);
}

/// What a generated entry says.
pub open spec fn facts_of(
    path: Seq<u8>,
    kind: EntryType,
    size: u64,
    metadata: EntryMetadata,
    default_mode: u32,
) -> EntryFacts {
    EntryFacts {
        path: member_path(path),
        kind,
        size,
        uid: metadata.uid,
        gid: metadata.gid,
        mtime: metadata.mtime,
        mode: kept_mode(
            match metadata.mode {
                Some(mode) => mode,
                None => default_mode,
            },
        ),
        link: None,
    }
}

/// Whether the owner's numbers of an entry fit: they are below 2^63.
pub open spec fn numbers_fit(f: EntryFacts) -> bool {
    &&& f.uid < 0x8000_0000_0000_0000
    &&& f.gid < 0x8000_0000_0000_0000
}

/// The fields of the header of a generated entry.
pub proof fn lemma_generated_header(f: EntryFacts, metadata: EntryMetadata, default_mode: u32)
    requires
        f.mode == kept_mode(
            match metadata.mode {
                Some(mode) => mode,
                None => default_mode,
            },
        ),
        f.uid == metadata.uid,
        f.gid == metadata.gid,
        f.mtime == metadata.mtime,
    ensures
        ({
            let h = generated_header(f.size, f.kind, metadata, default_mode);
            &&& is_ustar(h)
            &&& h[156] == typeflag_of(f.kind)
            &&& h[157] == 0
            &&& has_numbers(GeneratedView { header: h, extensions: Seq::empty() }, f)
            &&& field(h, 100, 8) == octal_field(f.mode as nat, 8)
            &&& forall|i: int| 329 <= i < 345 ==> #[trigger] h[i] == 0
        }),
{
    broadcast use {lemma_field_put_same, lemma_field_put_other, lemma_form_put};

    let b0 = new_ustar_bytes();
    let b1 = with_metadata(b0, metadata, default_mode);
    let b2 = put(b1, 124, numeric_field(f.size as nat, 12));
    let h = put(b2, 156, seq![typeflag_of(f.kind)]);
    lemma_new_ustar();
    lemma_kept_mode(
        match metadata.mode {
            Some(mode) => mode,
            None => default_mode,
        },
    );
    lemma_with_metadata(b0, metadata, default_mode);
    lemma_numeric_field_form(f.size as nat, 12);
    assert(field(b2, 124, 12) == numeric_field(f.size as nat, 12));
    assert(field(b2, 108, 8) == field(b1, 108, 8));
    assert(field(b2, 116, 8) == field(b1, 116, 8));
    assert(field(b2, 136, 12) == field(b1, 136, 12));
    assert(field(b2, 100, 8) == field(b1, 100, 8));
    assert(h[157] == b0[157]);
    assert forall|i: int| 329 <= i < 345 implies #[trigger] h[i] == 0 by {
        assert(h[i] == b1[i] && b1[i] == b0[i]);
    }
}

/// Whether an entry says of its member what is so, with all of its numbers in
/// its header.
pub open spec fn is_unmoved_entry_of(g: GeneratedView, f: EntryFacts) -> bool {
    let h = g.header;
    let rs = g.extensions;
    &&& has_numbers(g, f)
    &&& is_ustar(h)
    &&& h[156] == typeflag_of(f.kind)
    &&& field(h, 100, 8) == octal_field(f.mode as nat, 8)
    &&& is_pax_numeric(h, 329, 345)
    &&& forall|i: int| 0 <= i < rs.len() ==> is_record_of(f, #[trigger] rs[i])
    &&& has_key(rs, encode_utf8("path"@)) || header_path(h) == f.path
    &&& match f.link {
        Some(t) => has_key(rs, encode_utf8("linkpath"@)) || header_link(h) == Some(t),
        None => h[157] == 0,
    }
}

/// An entry says the same once its numbers are moved.
proof fn lemma_moved_is_entry(g: GeneratedView, f: EntryFacts)
    requires
        is_unmoved_entry_of(g, f),
        is_pax_type(f.kind),
        numbers_fit(f),
        f.mode < 0x20_0000,
    ensures
        is_entry_of(generated_numbers(g), f),
        generated_numbers(g).header[157] == g.header[157],
{
    let after = generated_numbers(g);
    let h = after.header;
    lemma_numbers_moved(g, f);
    assert(field(h, 100, 8) =~= field(g.header, 100, 8));
    assert(field(h, 257, 8) =~= field(g.header, 257, 8));
    assert(field(h, 0, 100) =~= field(g.header, 0, 100));
    assert(field(h, 345, 155) =~= field(g.header, 345, 155));
    assert(field(h, 157, 100) =~= field(g.header, 157, 100));
    assert(header_path(h) == header_path(g.header));
    assert(header_link(h) == header_link(g.header));
    lemma_pow_values();
    lemma_octal_field(f.mode as nat, 8);
    lemma_octal_is_pax_numeric(f.mode as nat, 8);
    lemma_pax_numeric_fields(h);
    assert forall|i: int| 329 <= i < 345 implies is_pax_numeric_byte(#[trigger] h[i]) by {
        assert(h[i] == g.header[i]);
    }
    assert(h[156] == g.header[156]);
    lemma_kind_is_read_back(f.kind);
}

/// A generated entry says what it was generated for.
pub proof fn lemma_generated_is_entry(
    path: Seq<u8>,
    kind: EntryType,
    size: u64,
    metadata: EntryMetadata,
    default_mode: u32,
)
    requires
        name_refusal(path) is None,
        is_pax_type(kind),
        !(kind is XHeader),
        numbers_fit(facts_of(path, kind, size, metadata, default_mode)),
    ensures
        is_entry_of(
            generated(name_text(path), size, kind, metadata, default_mode),
            facts_of(path, kind, size, metadata, default_mode),
        ),
        facts_wf(facts_of(path, kind, size, metadata, default_mode)),
{
    let f = facts_of(path, kind, size, metadata, default_mode);
    let g0 = GeneratedView {
        header: generated_header(size, kind, metadata, default_mode),
        extensions: Seq::empty(),
    };
    let g1 = generated_path(g0, name_text(path));
    lemma_generated_header(f, metadata, default_mode);
    lemma_named(g0, path);
    lemma_header_part(g0.header, g1.header);
    assert forall|i: int| 329 <= i < 345 implies is_pax_numeric_byte(#[trigger] g1.header[i]) by {
        assert(g1.header[i] == g0.header[i]);
    }
    assert(g1.header[156] == g0.header[156] && g1.header[157] == g0.header[157]);
    lemma_moved_is_entry(g1, f);
}

/// An entry with a link target says so.
pub proof fn lemma_link_is_entry(
    g: GeneratedView,
    f: EntryFacts,
    target: Seq<char>,
    fallback: Seq<char>,
)
    requires
        is_entry_of(g, f),
        facts_wf(f),
        f.link is None,
        encode_utf8(target).len() > 0,
        encode_utf8(fallback).len() <= 100,
    ensures
        is_entry_of(
            generated_link(g, target, fallback),
            EntryFacts { link: Some(encode_utf8(target)), ..f },
        ),
        facts_wf(EntryFacts { link: Some(encode_utf8(target)), ..f }),
{
    let t = encode_utf8(target);
    let l = EntryFacts { link: Some(t), ..f };
    let after = generated_link(g, target, fallback);
    let h = after.header;
    let rs = after.extensions;
    vstd::utf8::encode_utf8_valid_utf8(target);
    lemma_linked(g, target, fallback);
    assert(field(h, 100, 8) =~= field(g.header, 100, 8));
    assert(field(h, 108, 8) =~= field(g.header, 108, 8));
    assert(field(h, 116, 8) =~= field(g.header, 116, 8));
    assert(field(h, 124, 12) =~= field(g.header, 124, 12));
    assert(field(h, 136, 12) =~= field(g.header, 136, 12));
    assert(field(h, 257, 8) =~= field(g.header, 257, 8));
    assert(field(h, 0, 100) =~= field(g.header, 0, 100));
    assert(field(h, 345, 155) =~= field(g.header, 345, 155));
    assert(header_path(h) == header_path(g.header));
    assert forall|i: int| 100 <= i < 148 implies is_pax_numeric_byte(#[trigger] h[i]) by {
        assert(h[i] == g.header[i]);
    }
    assert forall|i: int| 329 <= i < 345 implies is_pax_numeric_byte(#[trigger] h[i]) by {
        assert(h[i] == g.header[i]);
    }
    assert forall|i: int| 0 <= i < rs.len() implies is_record_of(l, #[trigger] rs[i]) by {
        if i < g.extensions.len() {
            assert(is_record_of(f, g.extensions[i]));
        }
    }
    let r = PaxView { key: encode_utf8("linkpath"@), value: t };
    lemma_push_key(g.extensions, r, encode_utf8("path"@));
    lemma_push_key(g.extensions, r, encode_utf8("size"@));
    lemma_push_key(g.extensions, r, encode_utf8("uid"@));
    lemma_push_key(g.extensions, r, encode_utf8("gid"@));
    lemma_push_key(g.extensions, r, encode_utf8("mtime"@));
}

/// A generated file is read back with its data and its metadata.
pub proof fn law_data_is_read_back(
    a: ArchiveView,
    e: EntriesView,
    between: Seq<u8>,
    path: Seq<u8>,
    size: u64,
    metadata: EntryMetadata,
    data: Seq<u8>,
    tail: Seq<u8>,
)
    requires
        data_generated(path, size, metadata) is Ok,
        size == data.len(),
        numbers_fit(facts_of(path, EntryType::Regular, size, metadata, DEFAULT_FILE_MODE)),
        can_read(a, e, between, data_generated(path, size, metadata)->Ok_0, data),
    ensures
        is_read_back(
            a,
            e,
            between,
            data_generated(path, size, metadata)->Ok_0,
            facts_of(path, EntryType::Regular, size, metadata, DEFAULT_FILE_MODE),
            data,
            tail,
        ),
{
    let g = data_generated(path, size, metadata)->Ok_0;
    let f = facts_of(path, EntryType::Regular, size, metadata, DEFAULT_FILE_MODE);
    lemma_generated_is_entry(path, EntryType::Regular, size, metadata, DEFAULT_FILE_MODE);
    law_entry_is_read_back(a, e, between, g, f, data, tail);
}

/// A generated directory is read back with its metadata.
pub proof fn law_directory_is_read_back(
    a: ArchiveView,
    e: EntriesView,
    between: Seq<u8>,
    path: Seq<u8>,
    metadata: EntryMetadata,
    tail: Seq<u8>,
)
    requires
        directory_generated(path, metadata) is Ok,
        numbers_fit(facts_of(path, EntryType::Directory, 0, metadata, DEFAULT_DIRECTORY_MODE)),
        can_read(a, e, between, directory_generated(path, metadata)->Ok_0, Seq::empty()),
    ensures
        is_read_back(
            a,
            e,
            between,
            directory_generated(path, metadata)->Ok_0,
            facts_of(path, EntryType::Directory, 0, metadata, DEFAULT_DIRECTORY_MODE),
            Seq::empty(),
            tail,
        ),
{
    let g = directory_generated(path, metadata)->Ok_0;
    let f = facts_of(path, EntryType::Directory, 0, metadata, DEFAULT_DIRECTORY_MODE);
    lemma_generated_is_entry(path, EntryType::Directory, 0, metadata, DEFAULT_DIRECTORY_MODE);
    law_entry_is_read_back(a, e, between, g, f, Seq::empty(), tail);
}

/// A generated hard link is read back with its target.
pub proof fn law_hard_link_is_read_back(
    a: ArchiveView,
    e: EntriesView,
    between: Seq<u8>,
    path: Seq<u8>,
    target: Seq<u8>,
    tail: Seq<u8>,
)
    requires
        hard_link_generated(path, target) is Ok,
        can_read(a, e, between, hard_link_generated(path, target)->Ok_0, Seq::empty()),
    ensures
        is_read_back(
            a,
            e,
            between,
            hard_link_generated(path, target)->Ok_0,
            EntryFacts {
                link: Some(member_path(target)),
                ..facts_of(path, EntryType::Link, 0, no_metadata(), DEFAULT_FILE_MODE)
            },
            Seq::empty(),
            tail,
        ),
{
    let f = facts_of(path, EntryType::Link, 0, no_metadata(), DEFAULT_FILE_MODE);
    let plain = generated(
        name_text(path),
        0,
        EntryType::Link,
        no_metadata(),
        DEFAULT_FILE_MODE,
    );
    lemma_generated_is_entry(path, EntryType::Link, 0, no_metadata(), DEFAULT_FILE_MODE);
    law_name_is_kept(target);
    law_member_path_is_kept(target);
    lemma_fixed_texts();
    lemma_link_is_entry(plain, f, name_text(target), PAX_HARD_LINK_FALLBACK@);
    let g = hard_link_generated(path, target)->Ok_0;
    let l = EntryFacts { link: Some(member_path(target)), ..f };
    law_entry_is_read_back(a, e, between, g, l, Seq::empty(), tail);
}

/// A generated symbolic link is read back with its target, byte for byte.
pub proof fn law_symlink_is_read_back(
    a: ArchiveView,
    e: EntriesView,
    between: Seq<u8>,
    path: Seq<u8>,
    target: Seq<u8>,
    tail: Seq<u8>,
)
    requires
        symlink_generated(path, target) is Ok,
        can_read(a, e, between, symlink_generated(path, target)->Ok_0, Seq::empty()),
    ensures
        is_read_back(
            a,
            e,
            between,
            symlink_generated(path, target)->Ok_0,
            EntryFacts {
                link: Some(target),
                ..facts_of(path, EntryType::Symlink, 0, no_metadata(), DEFAULT_SYMLINK_MODE)
            },
            Seq::empty(),
            tail,
        ),
{
    let f = facts_of(path, EntryType::Symlink, 0, no_metadata(), DEFAULT_SYMLINK_MODE);
    let plain = generated(
        name_text(path),
        0,
        EntryType::Symlink,
        no_metadata(),
        DEFAULT_SYMLINK_MODE,
    );
    lemma_generated_is_entry(path, EntryType::Symlink, 0, no_metadata(), DEFAULT_SYMLINK_MODE);
    vstd::utf8::decode_utf8_encode_utf8(target);
    lemma_fixed_texts();
    lemma_link_is_entry(plain, f, decode_utf8(target), PAX_SYM_LINK_FALLBACK@);
    let g = symlink_generated(path, target)->Ok_0;
    let l = EntryFacts { link: Some(target), ..f };
    law_entry_is_read_back(a, e, between, g, l, Seq::empty(), tail);
}

proof fn lemma_kind_is_read_back(kind: EntryType)
    requires
        is_pax_type(kind),
    ensures
        entry_type_of(typeflag_of(kind)) == kind,
{
}

/// The fields between the name and the prefix of a header.
pub proof fn lemma_header_part(h: Seq<u8>, b: Seq<u8>)
    requires
        h.len() == 512,
        b.len() == 512,
        forall|i: int| 100 <= i < 345 ==> #[trigger] b[i] == h[i],
    ensures
        field(b, 100, 8) == field(h, 100, 8),
        field(b, 108, 8) == field(h, 108, 8),
        field(b, 116, 8) == field(h, 116, 8),
        field(b, 124, 12) == field(h, 124, 12),
        field(b, 136, 12) == field(h, 136, 12),
{
    assert(field(b, 100, 8) =~= field(h, 100, 8));
    assert(field(b, 108, 8) =~= field(h, 108, 8));
    assert(field(b, 116, 8) =~= field(h, 116, 8));
    assert(field(b, 124, 12) =~= field(h, 124, 12));
    assert(field(b, 136, 12) =~= field(h, 136, 12));
}

/// What a file system says of a file, as an entry says it.
pub open spec fn facts_of_stat(
    path: Seq<u8>,
    stat: FileStat,
    mode: HeaderMode,
    link: Option<Seq<u8>>,
) -> EntryFacts {
    let complete = mode is Complete;
    EntryFacts {
        path: member_path(path),
        kind: member_kind(stat.kind),
        size: data_len(stat),
        uid: if complete {
            stat.uid
        } else {
            0
        },
        gid: if complete {
            stat.gid
        } else {
            0
        },
        mtime: if complete {
            stat.mtime
        } else {
            0
        },
        mode: kept_mode(
            if complete {
                stat.mode
            } else {
                plain_mode(stat)
            },
        ),
        link,
    }
}

/// The fields of a header with what a file system says of a file.
pub proof fn lemma_with_stat(b: Seq<u8>, stat: FileStat, mode: HeaderMode, f: EntryFacts)
    requires
        b.len() == 512,
        is_ustar(b),
        f == (EntryFacts { path: f.path, ..facts_of_stat(Seq::empty(), stat, mode, f.link) }),
    ensures
        ({
            let h = with_stat(b, stat, mode);
            &&& is_ustar(h)
            &&& h[156] == typeflag_of(f.kind)
            &&& has_numbers(GeneratedView { header: h, extensions: Seq::empty() }, f)
            &&& field(h, 100, 8) == octal_field(f.mode as nat, 8)
            &&& is_pax_numeric(h, 329, 345)
            &&& forall|i: int|
                0 <= i < 100 || 157 <= i < 329 || 345 <= i < 512 ==> #[trigger] h[i] == b[i]
        }),
{
    broadcast use {lemma_field_put_same, lemma_field_put_other, lemma_form_put};

    let h0 = put(b, 136, numeric_field(f.mtime as nat, 12));
    let h1 = put(h0, 108, numeric_field(f.uid as nat, 8));
    let h2 = put(h1, 116, numeric_field(f.gid as nat, 8));
    let h3 = put(h2, 100, octal_field(f.mode as nat, 8));
    let h4 = put(h3, 156, seq![typeflag_of(f.kind)]);
    let h5 = put(h4, 124, numeric_field(f.size as nat, 12));
    let h6 = put(h5, 329, octal_field(0, 8));
    let h7 = put(h6, 337, octal_field(0, 8));
    lemma_numeric_field_form(f.mtime as nat, 12);
    lemma_numeric_field_form(f.uid as nat, 8);
    lemma_numeric_field_form(f.gid as nat, 8);
    lemma_numeric_field_form(f.size as nat, 12);
    lemma_kept_mode(stat.mode);
    lemma_kept_mode(plain_mode(stat));
    lemma_octal(f.mode as nat, 7);
    lemma_octal(0, 7);
    lemma_octal_is_pax_numeric(0, 8);
    assert(with_stat(b, stat, mode) == h7);
    assert(field(h0, 136, 12) == numeric_field(f.mtime as nat, 12));
    assert(field(h1, 108, 8) == numeric_field(f.uid as nat, 8));
    assert(field(h2, 116, 8) == numeric_field(f.gid as nat, 8));
    assert(field(h3, 100, 8) == octal_field(f.mode as nat, 8));
    assert(field(h5, 124, 12) == numeric_field(f.size as nat, 12));
    assert(field(h7, 136, 12) =~= field(h0, 136, 12));
    assert(field(h7, 108, 8) =~= field(h1, 108, 8));
    assert(field(h7, 116, 8) =~= field(h2, 116, 8));
    assert(field(h7, 100, 8) =~= field(h3, 100, 8));
    assert(field(h7, 124, 12) =~= field(h5, 124, 12));
    assert forall|i: int| 329 <= i < 345 implies is_pax_numeric_byte(#[trigger] h7[i]) by {
        if i < 337 {
            assert(h7[i] == octal_field(0, 8)[i - 329]);
        } else {
            assert(h7[i] == octal_field(0, 8)[i - 337]);
        }
    }
    assert(h4[156] == typeflag_of(f.kind));
}

/// The entry of a file, a directory or a symbolic link says what the file system
/// says of it.
pub proof fn lemma_fs_is_entry(
    path: Seq<u8>,
    stat: FileStat,
    mode: HeaderMode,
    link: Option<Seq<char>>,
)
    requires
        name_refusal(path) is None,
        is_pax_type(member_kind(stat.kind)),
        numbers_fit(facts_of_stat(path, stat, mode, None)),
        link matches Some(target) ==> encode_utf8(target).len() > 0,
    ensures
        ({
            let f = facts_of_stat(
                path,
                stat,
                mode,
                match link {
                    Some(target) => Some(encode_utf8(target)),
                    None => None,
                },
            );
            &&& is_entry_of(fs_generated(name_text(path), stat, mode, link), f)
            &&& facts_wf(f)
        }),
{
    let f = facts_of_stat(
        path,
        stat,
        mode,
        match link {
            Some(target) => Some(encode_utf8(target)),
            None => None,
        },
    );
    let g0 = blank_entry();
    let g1 = generated_path(g0, name_text(path));
    lemma_new_ustar();
    lemma_named(g0, path);
    lemma_with_stat(g1.header, stat, mode, f);
    let g2 = GeneratedView { header: with_stat(g1.header, stat, mode), ..g1 };
    assert(field(g2.header, 0, 100) =~= field(g1.header, 0, 100));
    assert(field(g2.header, 345, 155) =~= field(g1.header, 345, 155));
    assert(header_path(g2.header) == header_path(g1.header));
    assert(g2.header[157] == g1.header[157] && g1.header[157] == g0.header[157]);
    if let Some(target) = link {
        let t = encode_utf8(target);
        let g3 = generated_link(g2, target, PAX_SYM_LINK_FALLBACK@);
        vstd::utf8::encode_utf8_valid_utf8(target);
        lemma_fixed_texts();
        lemma_linked(g2, target, PAX_SYM_LINK_FALLBACK@);
        lemma_unmoved_link(g2, g3, f, t);
        lemma_moved_is_entry(g3, f);
    } else {
        lemma_moved_is_entry(g2, f);
    }
}

/// An entry that gets a link target keeps what it says otherwise.
proof fn lemma_unmoved_link(g: GeneratedView, after: GeneratedView, f: EntryFacts, t: Seq<u8>)
    requires
        f.link == Some(t),
        is_linked(g, after, t),
        has_numbers(g, f),
        is_ustar(g.header),
        g.header[156] == typeflag_of(f.kind),
        field(g.header, 100, 8) == octal_field(f.mode as nat, 8),
        is_pax_numeric(g.header, 329, 345),
        forall|i: int| 0 <= i < g.extensions.len() ==> is_record_of(f, #[trigger] g.extensions[i]),
        has_key(g.extensions, encode_utf8("path"@)) || header_path(g.header) == f.path,
    ensures
        is_unmoved_entry_of(after, f),
{
    let h = after.header;
    assert(field(h, 100, 8) =~= field(g.header, 100, 8));
    assert(field(h, 108, 8) =~= field(g.header, 108, 8));
    assert(field(h, 116, 8) =~= field(g.header, 116, 8));
    assert(field(h, 124, 12) =~= field(g.header, 124, 12));
    assert(field(h, 136, 12) =~= field(g.header, 136, 12));
    assert(field(h, 257, 8) =~= field(g.header, 257, 8));
    assert(field(h, 0, 100) =~= field(g.header, 0, 100));
    assert(field(h, 345, 155) =~= field(g.header, 345, 155));
    assert(header_path(h) == header_path(g.header));
    assert forall|i: int| 329 <= i < 345 implies is_pax_numeric_byte(#[trigger] h[i]) by {
        assert(h[i] == g.header[i]);
    }
    let r = PaxView { key: encode_utf8("linkpath"@), value: t };
    lemma_push_key(g.extensions, r, encode_utf8("path"@));
}

/// The entry of a named pipe or of a device says what the file system says of
/// it.
pub proof fn lemma_special_is_entry(path: Seq<u8>, stat: FileStat, mode: HeaderMode)
    requires
        name_refusal(path) is None,
        stat.kind is Fifo || stat.kind is Char || stat.kind is Block,
        numbers_fit(facts_of_stat(path, stat, mode, None)),
    ensures
        is_entry_of(
            special_generated(name_text(path), stat, mode),
            facts_of_stat(path, stat, mode, None),
        ),
        facts_wf(facts_of_stat(path, stat, mode, None)),
{
    broadcast use lemma_form_put;

    let f = facts_of_stat(path, stat, mode, None);
    let g0 = blank_entry();
    lemma_new_ustar();
    lemma_with_stat(g0.header, stat, mode, f);
    let g1 = GeneratedView { header: with_stat(g0.header, stat, mode), ..g0 };
    let g2 = generated_path(g1, name_text(path));
    lemma_named(g1, path);
    lemma_header_part(g1.header, g2.header);
    let major = octal_field(device_major(stat.rdev) as nat, 8);
    let minor = octal_field(device_minor(stat.rdev) as nat, 8);
    lemma_octal(device_major(stat.rdev) as nat, 7);
    lemma_octal(device_minor(stat.rdev) as nat, 7);
    lemma_octal_is_pax_numeric(device_major(stat.rdev) as nat, 8);
    lemma_octal_is_pax_numeric(device_minor(stat.rdev) as nat, 8);
    let h3 = put(g2.header, 156, seq![typeflag_of(member_kind(stat.kind))]);
    let h4 = put(h3, 329, major);
    let h5 = put(h4, 337, minor);
    let g3 = GeneratedView { header: h5, ..g2 };
    assert(field(h5, 100, 8) =~= field(g2.header, 100, 8));
    assert(field(h5, 108, 8) =~= field(g2.header, 108, 8));
    assert(field(h5, 116, 8) =~= field(g2.header, 116, 8));
    assert(field(h5, 124, 12) =~= field(g2.header, 124, 12));
    assert(field(h5, 136, 12) =~= field(g2.header, 136, 12));
    assert(field(h5, 0, 100) =~= field(g2.header, 0, 100));
    assert(field(h5, 345, 155) =~= field(g2.header, 345, 155));
    assert(header_path(h5) == header_path(g2.header));
    assert forall|i: int| 329 <= i < 345 implies is_pax_numeric_byte(#[trigger] h5[i]) by {
        if i < 337 {
            assert(h5[i] == major[i - 329]);
        } else {
            assert(h5[i] == minor[i - 337]);
        }
    }
    assert(h3[156] == typeflag_of(member_kind(stat.kind)));
    assert(h5[157] == g2.header[157] && g2.header[157] == g1.header[157] && g1.header[157]
        == g0.header[157]);
    lemma_moved_is_entry(g3, f);
}

/// A file of a file system is read back with what the file system says of it:
/// a file, a directory, a symbolic link, a named pipe or a device. `data` is as
/// long as the file system says.
pub proof fn law_file_is_read_back(
    a: ArchiveView,
    e: EntriesView,
    between: Seq<u8>,
    path: Seq<u8>,
    stat: FileStat,
    link: Seq<u8>,
    mode: HeaderMode,
    data: Seq<u8>,
    tail: Seq<u8>,
)
    requires
        name_refusal(path) is None,
        file_generated(name_text(path), stat, link, mode) is Ok,
        action_for(stat.kind) is Special ==> data_len(stat) == 0,
        data.len() == data_len(stat),
        numbers_fit(facts_of_stat(path, stat, mode, None)),
        can_read(a, e, between, file_generated(name_text(path), stat, link, mode)->Ok_0, data),
    ensures
        is_read_back(
            a,
            e,
            between,
            file_generated(name_text(path), stat, link, mode)->Ok_0,
            facts_of_stat(
                path,
                stat,
                mode,
                if stat.kind is Symlink {
                    Some(link)
                } else {
                    None
                },
            ),
            data,
            tail,
        ),
{
    let g = file_generated(name_text(path), stat, link, mode)->Ok_0;
    if stat.kind is Symlink {
        let target = decode_utf8(link);
        vstd::utf8::decode_utf8_encode_utf8(link);
        lemma_fs_is_entry(path, stat, mode, Some(target));
        let f = facts_of_stat(path, stat, mode, Some(link));
        law_entry_is_read_back(a, e, between, g, f, data, tail);
    } else {
        let f = facts_of_stat(path, stat, mode, None);
        if action_for(stat.kind) is Special {
            lemma_special_is_entry(path, stat, mode);
        } else {
            lemma_fs_is_entry(path, stat, mode, None);
        }
        law_entry_is_read_back(a, e, between, g, f, data, tail);
    }
}

/// A generated file: its path, its metadata and its data.
pub struct DataFile {
    pub path: Seq<u8>,
    pub metadata: EntryMetadata,
    pub data: Seq<u8>,
}

/// Whether a generated file can be written and read back.
pub open spec fn is_good_file(d: DataFile) -> bool {
    let size = d.data.len() as u64;
    &&& d.data.len() <= u64::MAX
    &&& data_generated(d.path, size, d.metadata) is Ok
    &&& numbers_fit(facts_of(d.path, EntryType::Regular, size, d.metadata, DEFAULT_FILE_MODE))
}

/// The member that is written for a generated file.
pub open spec fn file_written(d: DataFile) -> Written {
    let size = d.data.len() as u64;
    Written {
        entry: data_generated(d.path, size, d.metadata)->Ok_0,
        facts: facts_of(d.path, EntryType::Regular, size, d.metadata, DEFAULT_FILE_MODE),
        data: d.data,
    }
}

/// The members that are written for generated files.
pub open spec fn files_written(ds: Seq<DataFile>) -> Seq<Written> {
    Seq::new(ds.len(), |i: int| file_written(ds[i]))
}

/// An archive of generated files is read back from its start: exactly these
/// files, in their order, each with its path, its owner, its time and its data,
/// where the contents of each are read before the next is asked for. Pax records
/// never come out as members of their own.
pub proof fn law_files_are_read_back(a: ArchiveView, ds: Seq<DataFile>)
    requires
        a.pos == 0,
        forall|i: int| 0 <= i < ds.len() ==> is_good_file(#[trigger] ds[i]),
        are_allowed(a.options, a.usage, files_written(ds)),
        written_bytes(files_written(ds)).len() <= u64::MAX,
        a.options.pax_only ==> forall|i: int|
            0 <= i < ds.len() ==> pax_data(file_written(#[trigger] ds[i]).entry.extensions).len()
                < 0x2_0000_0000,
    ensures
        finds_all(
            a,
            entries_start(),
            written_bytes(files_written(ds)) + termination(),
            files_written(ds),
            whole_data(files_written(ds)),
        ),
{
    let ws = files_written(ds);
    assert forall|i: int| 0 <= i < ws.len() implies is_written(#[trigger] ws[i]) by {
        let d = ds[i];
        assert(is_good_file(d));
        lemma_generated_is_entry(
            d.path,
            EntryType::Regular,
            d.data.len() as u64,
            d.metadata,
            DEFAULT_FILE_MODE,
        );
    }
    if a.options.pax_only {
        assert forall|i: int| 0 <= i < ws.len() implies pax_data(
            (#[trigger] ws[i]).entry.extensions,
        ).len() < 0x2_0000_0000 by {
            assert(ws[i] == file_written(ds[i]));
        }
    }
    law_archive_is_read_with_contents(a, entries_start(), ws);
}

} // verus!
