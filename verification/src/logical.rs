//! How the entries of an archive make up its members, byte by byte.

use crate::archive::ArchiveView;
use crate::bytes::zeros;
use crate::entries::{
    described, extension_read, extension_taken, header_read, member_found, no_extension,
    pax_refusal, record_refusal, seeking, settled, undescribed, EntriesView, ExtensionKind,
    ExtensionView, Output,
};
use crate::entry::{entry_link, entry_path, EntryIo, EntryView};
use crate::error::ErrorView;
use crate::header::{header_link, header_path, header_size};
use crate::layout::{law_form_is_told_by_magic, says_gnu, says_ustar};
use crate::member::{
    behind_data, header_refusal, is_extension_block, is_orphaned, member, member_of, plain_override,
    with_pax, OverrideView,
};
use crate::options::entry_reserved;
use crate::pax::{has_key, last_value, pax_malformed, pax_records, PaxView};
use crate::roundtrip::{
    before_header, lemma_block, lemma_extension, lemma_padding, lemma_skip, opened, read_on,
};
use crate::scan::{distance, wrap_add, ScanView};
use crate::stream::{lemma_said_settled, said};
use vstd::prelude::*;
use vstd::utf8::encode_utf8;

verus! {

/// The key `path`, letter by letter.
pub open spec fn path_key() -> Seq<u8> {
    seq!['p' as u8, 'a' as u8, 't' as u8, 'h' as u8]
}

/// The key `linkpath`, letter by letter.
pub open spec fn linkpath_key() -> Seq<u8> {
    seq![
        'l' as u8,
        'i' as u8,
        'n' as u8,
        'k' as u8,
        'p' as u8,
        'a' as u8,
        't' as u8,
        'h' as u8,
    ]
}

/// Text of ASCII characters is encoded character by character.
pub proof fn lemma_ascii_key(t: Seq<char>, key: Seq<u8>)
    requires
        t.len() == key.len(),
        forall|i: int| 0 <= i < t.len() ==> '\0' <= #[trigger] t[i] <= '\u{7f}' && t[i] as u8 == key[i],
    ensures
        encode_utf8(t) == key,
{
    assert(vstd::utf8::is_ascii_chars(t));
    vstd::utf8::is_ascii_chars_encode_utf8(t);
    assert(encode_utf8(t) =~= key);
}

/// The keys of the records for a member's path and for a link's target.
pub proof fn lemma_keys()
    ensures
        encode_utf8("path"@) == path_key(),
        encode_utf8("linkpath"@) == linkpath_key(),
{
    reveal_strlit("path");
    reveal_strlit("linkpath");
    lemma_ascii_key("path"@, path_key());
    lemma_ascii_key("linkpath"@, linkpath_key());
}

/// Whether the typeflag of a header is that of a member which is complete with
/// its data: not that of a long name, a long link target, pax records or a
/// sparse file.
pub open spec fn is_plain_typeflag(byte: u8) -> bool {
    byte != 'L' as u8 && byte != 'K' as u8 && byte != 'x' as u8 && byte != 'S' as u8
}

/// Bytes without the zero byte at their end, if there is one.
pub open spec fn cut_zero(d: Seq<u8>) -> Seq<u8> {
    if d.len() > 0 && d[d.len() - 1] == 0 {
        d.take(d.len() - 1)
    } else {
        d
    }
}

/// Where an entry's header and its data are read from: the stream stands between
/// two entries, with `between` to pass over, and the header is accepted, within
/// the limits and not at the end of what positions can count.
pub open spec fn comes_to_extension(
    a: ArchiveView,
    e: EntriesView,
    between: Seq<u8>,
    b: Seq<u8>,
    d: Seq<u8>,
) -> bool {
    &&& before_header(e)
    &&& between.len() == distance(a.pos, e.scan.next)
    &&& b.len() == 512
    &&& header_refusal(a.options, b) is None
    &&& header_size(b) == Ok::<u64, ErrorView>(d.len() as u64)
    &&& entry_reserved(a.options, a.usage, d.len() as u64, true).1 is Ok
    &&& a.pos + between.len() + 512 + d.len() + 511 <= u64::MAX
}

/// The archive behind the data of an extension entry.
pub open spec fn archive_behind(a: ArchiveView, between: Seq<u8>, d: Seq<u8>) -> ArchiveView {
    ArchiveView {
        pos: (a.pos + between.len() + 512 + d.len()) as u64,
        usage: entry_reserved(a.options, a.usage, d.len() as u64, true).0,
        ..a
    }
}

/// A stream behind the data of an extension entry, on the way to the next block.
pub open spec fn stream_behind(a: ArchiveView, e: EntriesView, between: Seq<u8>, d: Seq<u8>) -> EntriesView {
    EntriesView {
        scan: ScanView {
            next: (a.pos + between.len() + 512 + (d.len() + 511) / 512 * 512) as u64,
            open: false,
            block: Seq::empty(),
        },
        ..e
    }
}

/// A stream takes the whole of an extension entry, also where that is empty.
proof fn lemma_whole_extension(
    a: ArchiveView,
    e: EntriesView,
    kind: ExtensionKind,
    d: Seq<u8>,
    rest: Seq<u8>,
)
    requires
        !e.failed,
        e.sparse is None,
        e.scan.block.len() == 0,
        d.len() <= u64::MAX,
        e.pending == Some((kind, d.len() as u64)),
    ensures
        ({
            let taken = extension_taken(e, kind, d.len() as u64, d);
            let (after, output) = extension_read(taken, kind);
            let read = read_on(a, d.len());
            said(a, e, d + rest) == (match output {
                Some(out) => (read, after, rest, out),
                None => said(read, after, rest),
            })
        }),
{
    if d.len() > 0 {
        lemma_extension(a, e, kind, d.len() as u64, d, rest);
    } else {
        reveal(settled);
        let taken = extension_taken(e, kind, 0, d);
        assert(e.longname.data + d =~= e.longname.data);
        assert(e.longlink.data + d =~= e.longlink.data);
        assert(e.pax.data + d =~= e.pax.data);
        assert(taken =~= e);
        let (after, output) = extension_read(e, kind);
        assert(d + rest =~= rest);
        assert(read_on(a, 0) =~= a);
        lemma_said_settled(a, e, rest);
        if output is None {
            assert(settled(a.options, a.pos, e) == seeking(a.pos, after));
            assert(settled(a.options, a.pos, after) == seeking(a.pos, after));
            lemma_said_settled(a, after, rest);
        }
    }
}

/// A stream takes the header of an extension entry, and then has its data
/// pending.
proof fn lemma_extension_header(
    a: ArchiveView,
    e: EntriesView,
    between: Seq<u8>,
    b: Seq<u8>,
    d: Seq<u8>,
    kind: ExtensionKind,
    rest: Seq<u8>,
)
    requires
        comes_to_extension(a, e, between, b, d),
        is_extension_block(b),
        b[156] != 0,
        ({
            let moved = stream_behind(a, e, between, d);
            let entry = member_of(
                a.options,
                plain_override(b, d.len() as u64),
                b,
                e.scan.next,
                (e.scan.next + 512) as u64,
                true,
            );
            member_found(a.options, moved, entry) == (
                EntriesView { pending: Some((kind, d.len() as u64)), ..moved },
                None::<Output>,
            )
        }),
    ensures
        said(a, e, between + b + d + rest) == said(
            ArchiveView {
                usage: entry_reserved(a.options, a.usage, d.len() as u64, true).0,
                ..read_on(a, between.len() + 512)
            },
            EntriesView {
                pending: Some((kind, d.len() as u64)),
                ..stream_behind(a, e, between, d)
            },
            d + rest,
        ),
{
    let o = a.options;
    let u = a.usage;
    let n = d.len() as u64;
    let a1 = read_on(a, between.len());
    let e1 = opened(e);
    lemma_padding(d.len());
    lemma_skip(a, e, between, b + (d + rest));
    assert(between + b + d + rest =~= between + (b + (d + rest)));
    assert(a1.pos == e.scan.next);
    lemma_block(a1, e1, b, d + rest);
    assert(b != zeros(512)) by {
        assert(zeros(512)[156] == 0);
    }
    let next = e.scan.next;
    let file_pos = (next + 512) as u64;
    assert(wrap_add(next, 512) == file_pos);
    let moved = stream_behind(a, e, between, d);
    let entry = member_of(o, plain_override(b, n), b, next, file_pos, true);
    assert(!is_orphaned(plain_override(b, n)));
    assert(behind_data(file_pos, n) == Some(moved.scan.next));
    assert(member(o, u, b, next, file_pos, e1.pax_data, true) == (
        entry_reserved(o, u, n, true).0,
        moved.scan.next,
        Ok::<EntryView, ErrorView>(entry),
    ));
    reveal(header_read);
    assert(EntriesView {
        scan: ScanView { next: moved.scan.next, open: false, ..e1.scan },
        ..e1
    } =~= moved);
    assert(read_on(a1, 512) =~= read_on(a, between.len() + 512));
}

/// A long name entry with a GNU or a USTAR header is taken, its data whole, where
/// no other long name waits and no pax record for the path: the stream reports no
/// failure and goes on behind the data.
pub proof fn law_long_name_is_taken(
    a: ArchiveView,
    e: EntriesView,
    between: Seq<u8>,
    b: Seq<u8>,
    d: Seq<u8>,
    rest: Seq<u8>,
)
    requires
        comes_to_extension(a, e, between, b, d),
        b[156] == 'L' as u8,
        says_gnu(b) || says_ustar(b),
        e.longname == no_extension(),
        e.pax.ready ==> !pax_malformed(e.pax.data) && !has_key(
            pax_records(e.pax.data),
            path_key(),
        ),
    ensures
        said(a, e, between + b + d + rest) == said(
            archive_behind(a, between, d),
            EntriesView {
                longname: ExtensionView { ready: true, data: d },
                ..stream_behind(a, e, between, d)
            },
            rest,
        ),
{
    let n = d.len() as u64;
    let moved = stream_behind(a, e, between, d);
    let pending = EntriesView { pending: Some((ExtensionKind::LongName, n)), ..moved };
    law_form_is_told_by_magic(b);
    lemma_keys();
    lemma_extension_header(a, e, between, b, d, ExtensionKind::LongName, rest);
    let a2 = ArchiveView {
        usage: entry_reserved(a.options, a.usage, n, true).0,
        ..read_on(a, between.len() + 512)
    };
    lemma_whole_extension(a2, pending, ExtensionKind::LongName, d, rest);
    assert(read_on(a2, d.len()) =~= archive_behind(a, between, d));
    let taken = extension_taken(pending, ExtensionKind::LongName, n, d);
    assert(Seq::<u8>::empty() + d =~= d);
    assert(extension_read(taken, ExtensionKind::LongName).0 =~= EntriesView {
        longname: ExtensionView { ready: true, data: d },
        ..moved
    });
}

/// A long link entry with a GNU or a USTAR header is taken in the same way.
pub proof fn law_long_link_is_taken(
    a: ArchiveView,
    e: EntriesView,
    between: Seq<u8>,
    b: Seq<u8>,
    d: Seq<u8>,
    rest: Seq<u8>,
)
    requires
        comes_to_extension(a, e, between, b, d),
        b[156] == 'K' as u8,
        says_gnu(b) || says_ustar(b),
        e.longlink == no_extension(),
        e.pax.ready ==> !pax_malformed(e.pax.data) && !has_key(
            pax_records(e.pax.data),
            linkpath_key(),
        ),
    ensures
        said(a, e, between + b + d + rest) == said(
            archive_behind(a, between, d),
            EntriesView {
                longlink: ExtensionView { ready: true, data: d },
                ..stream_behind(a, e, between, d)
            },
            rest,
        ),
{
    let n = d.len() as u64;
    let moved = stream_behind(a, e, between, d);
    let pending = EntriesView { pending: Some((ExtensionKind::LongLink, n)), ..moved };
    law_form_is_told_by_magic(b);
    lemma_keys();
    lemma_extension_header(a, e, between, b, d, ExtensionKind::LongLink, rest);
    let a2 = ArchiveView {
        usage: entry_reserved(a.options, a.usage, n, true).0,
        ..read_on(a, between.len() + 512)
    };
    lemma_whole_extension(a2, pending, ExtensionKind::LongLink, d, rest);
    assert(read_on(a2, d.len()) =~= archive_behind(a, between, d));
    let taken = extension_taken(pending, ExtensionKind::LongLink, n, d);
    assert(Seq::<u8>::empty() + d =~= d);
    assert(extension_read(taken, ExtensionKind::LongLink).0 =~= EntriesView {
        longlink: ExtensionView { ready: true, data: d },
        ..moved
    });
}

/// Whether pax records can describe the next member beside what waits already:
/// they are well formed, none has an empty value, and none is about what a long
/// name or a long link target tells.
pub open spec fn can_describe(e: EntriesView, d: Seq<u8>) -> bool {
    &&& !pax_malformed(d)
    &&& forall|i: int| 0 <= i < pax_records(d).len() ==> (#[trigger] pax_records(d)[i]).value.len() > 0
    &&& e.longname.ready ==> !has_key(pax_records(d), path_key())
    &&& e.longlink.ready ==> !has_key(pax_records(d), linkpath_key())
}

proof fn lemma_record_refusal(rs: Seq<PaxView>, longname: bool)
    ensures
        record_refusal(rs, longname) is None <==> (forall|i: int|
            0 <= i < rs.len() ==> (#[trigger] rs[i]).value.len() > 0) && !(longname && has_key(
            rs,
            path_key(),
        )),
    decreases rs.len(),
{
    lemma_keys();
    if rs.len() > 0 {
        let rest = rs.skip(1);
        lemma_record_refusal(rest, longname);
        if forall|i: int| 0 <= i < rest.len() ==> (#[trigger] rest[i]).value.len() > 0 {
            if rs[0].value.len() > 0 {
                assert forall|i: int| 0 <= i < rs.len() implies (#[trigger] rs[i]).value.len()
                    > 0 by {
                    if i > 0 {
                        assert(rest[i - 1] == rs[i]);
                    }
                }
            }
        } else {
            let i = choose|i: int| 0 <= i < rest.len() && (#[trigger] rest[i]).value.len() == 0;
            assert(rs[i + 1].value.len() == 0);
        }
        if has_key(rest, path_key()) {
            let i = choose|i: int| 0 <= i < rest.len() && (#[trigger] rest[i]).key == path_key();
            assert(rs[i + 1].key == path_key());
        }
        if has_key(rs, path_key()) && rs[0].key != path_key() {
            let i = choose|i: int| 0 <= i < rs.len() && (#[trigger] rs[i]).key == path_key();
            assert(rest[i - 1].key == path_key());
        }
    }
}

/// An entry of pax records with a USTAR header is taken, its data whole, where no
/// other records wait and these can describe the next member.
pub proof fn law_pax_records_are_taken(
    a: ArchiveView,
    e: EntriesView,
    between: Seq<u8>,
    b: Seq<u8>,
    d: Seq<u8>,
    rest: Seq<u8>,
)
    requires
        comes_to_extension(a, e, between, b, d),
        b[156] == 'x' as u8,
        says_ustar(b),
        e.pax == no_extension(),
        can_describe(e, d),
    ensures
        said(a, e, between + b + d + rest) == said(
            archive_behind(a, between, d),
            EntriesView {
                pax: ExtensionView { ready: true, data: d },
                pax_data: Some(d),
                ..stream_behind(a, e, between, d)
            },
            rest,
        ),
{
    let n = d.len() as u64;
    let moved = stream_behind(a, e, between, d);
    let pending = EntriesView { pending: Some((ExtensionKind::Pax, n)), ..moved };
    law_form_is_told_by_magic(b);
    lemma_keys();
    lemma_extension_header(a, e, between, b, d, ExtensionKind::Pax, rest);
    let a2 = ArchiveView {
        usage: entry_reserved(a.options, a.usage, n, true).0,
        ..read_on(a, between.len() + 512)
    };
    lemma_whole_extension(a2, pending, ExtensionKind::Pax, d, rest);
    assert(read_on(a2, d.len()) =~= archive_behind(a, between, d));
    let taken = extension_taken(pending, ExtensionKind::Pax, n, d);
    assert(Seq::<u8>::empty() + d =~= d);
    lemma_record_refusal(pax_records(d), e.longname.ready);
    assert(pax_refusal(taken) is None);
    assert(extension_read(taken, ExtensionKind::Pax).0 =~= EntriesView {
        pax: ExtensionView { ready: true, data: d },
        pax_data: Some(d),
        ..moved
    });
}

/// Pax records that cannot describe the next member are a failure.
pub proof fn law_bad_pax_records_are_refused(
    a: ArchiveView,
    e: EntriesView,
    between: Seq<u8>,
    b: Seq<u8>,
    d: Seq<u8>,
    rest: Seq<u8>,
)
    requires
        comes_to_extension(a, e, between, b, d),
        b[156] == 'x' as u8,
        says_ustar(b),
        e.pax == no_extension(),
        !can_describe(e, d),
    ensures
        said(a, e, between + b + d + rest).3 matches Some(Err(_)),
{
    let n = d.len() as u64;
    let moved = stream_behind(a, e, between, d);
    let pending = EntriesView { pending: Some((ExtensionKind::Pax, n)), ..moved };
    law_form_is_told_by_magic(b);
    lemma_keys();
    lemma_extension_header(a, e, between, b, d, ExtensionKind::Pax, rest);
    let a2 = ArchiveView {
        usage: entry_reserved(a.options, a.usage, n, true).0,
        ..read_on(a, between.len() + 512)
    };
    lemma_whole_extension(a2, pending, ExtensionKind::Pax, d, rest);
    let taken = extension_taken(pending, ExtensionKind::Pax, n, d);
    assert(Seq::<u8>::empty() + d =~= d);
    assert(taken.pax.data == d);
    lemma_record_refusal(pax_records(d), e.longname.ready);
    assert(pax_refusal(taken) is Some);
}

/// Where a member's header is read from.
pub open spec fn comes_to_member(a: ArchiveView, e: EntriesView, between: Seq<u8>, h: Seq<u8>) -> bool {
    &&& before_header(e)
    &&& between.len() == distance(a.pos, e.scan.next)
    &&& h.len() == 512
    &&& header_refusal(a.options, h) is None
    &&& h != zeros(512)
    &&& entry_reserved(a.options, a.usage, 0, false).1 is Ok
    &&& a.pos + between.len() + 512 <= u64::MAX
}

/// What a header says of a member once pax records, if there are any, were
/// applied.
pub open spec fn told_of_member(pax: Option<Seq<u8>>, h: Seq<u8>, size: u64) -> Result<
    OverrideView,
    ErrorView,
> {
    match pax {
        Some(d) => with_pax(plain_override(h, size), d, true),
        None => Ok(plain_override(h, size)),
    }
}

pub proof fn lemma_member_header(
    a: ArchiveView,
    e: EntriesView,
    between: Seq<u8>,
    h: Seq<u8>,
    v: OverrideView,
    rest: Seq<u8>,
)
    requires
        comes_to_member(a, e, between, h),
        !is_extension_block(h),
        header_size(h) is Ok,
        told_of_member(e.pax_data, h, header_size(h)->Ok_0) == Ok::<OverrideView, ErrorView>(v),
        !is_orphaned(v),
        v.size + 511 <= u64::MAX,
        a.pos + between.len() + 512 + (v.size + 511) / 512 * 512 <= u64::MAX,
    ensures
        ({
            let next = e.scan.next;
            let after_next = (next + 512 + (v.size + 511) / 512 * 512) as u64;
            let moved = EntriesView {
                scan: ScanView { next: after_next, open: false, block: Seq::empty() },
                ..e
            };
            let entry = member_of(a.options, v, h, next, (next + 512) as u64, true);
            let (after, output) = member_found(a.options, moved, entry);
            let read = ArchiveView {
                usage: entry_reserved(a.options, a.usage, 0, false).0,
                ..read_on(a, between.len() + 512)
            };
            &&& next == a.pos + between.len()
            &&& said(a, e, between + h + rest) == (match output {
                Some(out) => (read, after, rest, out),
                None => said(read, after, rest),
            })
        }),
{
    let o = a.options;
    let u = a.usage;
    let size = header_size(h)->Ok_0;
    let a1 = read_on(a, between.len());
    let e1 = opened(e);
    lemma_skip(a, e, between, h + rest);
    assert(between + h + rest =~= between + (h + rest));
    assert(a1.pos == e.scan.next);
    lemma_block(a1, e1, h, rest);
    let next = e.scan.next;
    let file_pos = (next + 512) as u64;
    let after_next = (next + 512 + (v.size + 511) / 512 * 512) as u64;
    assert(wrap_add(next, 512) == file_pos);
    let entry = member_of(o, v, h, next, file_pos, true);
    assert(entry_reserved(o, u, size, false) == entry_reserved(o, u, 0, false));
    assert(behind_data(file_pos, v.size) == Some(after_next));
    assert(member(o, u, h, next, file_pos, e1.pax_data, true) == (
        entry_reserved(o, u, 0, false).0,
        after_next,
        Ok::<EntryView, ErrorView>(entry),
    ));
    reveal(header_read);
    assert(EntriesView {
        scan: ScanView { next: after_next, open: false, ..e1.scan },
        ..e1
    } =~= EntriesView {
        scan: ScanView { next: after_next, open: false, block: Seq::empty() },
        ..e
    });
    assert(read_on(a1, 512) =~= read_on(a, between.len() + 512));
}

/// The path of a member, as what waited for it and its header tell it: a long
/// name first, then the last pax record for it, then the header.
pub open spec fn told_path(e: EntriesView, h: Seq<u8>) -> Seq<u8> {
    if e.longname.ready {
        cut_zero(e.longname.data)
    } else if e.pax.ready && has_key(pax_records(e.pax.data), path_key()) {
        last_value(pax_records(e.pax.data), path_key())->0
    } else {
        header_path(h)
    }
}

/// The target of a link, told in the same way.
pub open spec fn told_link(e: EntriesView, h: Seq<u8>) -> Option<Seq<u8>> {
    if e.longlink.ready {
        Some(cut_zero(e.longlink.data))
    } else if e.pax.ready && has_key(pax_records(e.pax.data), linkpath_key()) {
        last_value(pax_records(e.pax.data), linkpath_key())
    } else {
        header_link(h)
    }
}

proof fn lemma_last_value(rs: Seq<PaxView>, key: Seq<u8>)
    ensures
        last_value(rs, key) is Some <==> has_key(rs, key),
    decreases rs.len(),
{
    if rs.len() > 0 {
        let front = rs.drop_last();
        lemma_last_value(front, key);
        if rs.last().key == key {
            assert(rs[rs.len() - 1].key == key);
        } else if has_key(front, key) {
            let i = choose|i: int| 0 <= i < front.len() && (#[trigger] front[i]).key == key;
            assert(rs[i].key == key);
        } else if has_key(rs, key) {
            let i = choose|i: int| 0 <= i < rs.len() && (#[trigger] rs[i]).key == key;
            assert(front[i].key == key);
        }
    }
}

/// Of several pax records with a key the last one counts.
pub proof fn law_last_record_counts(rs: Seq<PaxView>, key: Seq<u8>, i: int)
    requires
        0 <= i < rs.len(),
        rs[i].key == key,
        forall|j: int| i < j < rs.len() ==> (#[trigger] rs[j]).key != key,
    ensures
        last_value(rs, key) == Some(rs[i].value),
    decreases rs.len(),
{
    if i < rs.len() - 1 {
        let front = rs.drop_last();
        assert(rs[rs.len() - 1].key != key);
        assert forall|j: int| i < j < front.len() implies (#[trigger] front[j]).key != key by {
            assert(front[j] == rs[j]);
        }
        law_last_record_counts(front, key, i);
    }
}

/// A member is yielded as soon as its header is read, with all that waited for
/// it: its path and its link target are told by a long name or a long link
/// target, else by pax records, else by its header. Its size, and what its header
/// says then, are those of the header or of the pax records. Its data is what
/// follows, nothing waits any longer, and the next header stands behind the data.
pub proof fn law_member_is_read(
    a: ArchiveView,
    e: EntriesView,
    between: Seq<u8>,
    h: Seq<u8>,
    v: OverrideView,
    rest: Seq<u8>,
)
    requires
        comes_to_member(a, e, between, h),
        is_plain_typeflag(h[156]),
        h[156] != 'g' as u8,
        header_size(h) is Ok,
        e.pax.ready <==> e.pax_data is Some,
        e.pax.ready ==> e.pax_data == Some(e.pax.data),
        told_of_member(e.pax_data, h, header_size(h)->Ok_0) == Ok::<OverrideView, ErrorView>(v),
        !is_orphaned(v),
        v.size + 511 <= u64::MAX,
        a.pos + between.len() + 512 + (v.size + 511) / 512 * 512 <= u64::MAX,
    ensures
        said(a, e, between + h + rest) matches (read, after, left, Some(Ok(m))) && {
            &&& left == rest
            &&& entry_path(m) == Ok::<Seq<u8>, ErrorView>(told_path(e, v.header))
            &&& entry_link(m) == Ok::<Option<Seq<u8>>, ErrorView>(told_link(e, v.header))
            &&& m.header == v.header
            &&& m.size == v.size
            &&& m.data == seq![EntryIo::Data(v.size)]
            &&& m.header_pos == a.pos + between.len()
            &&& m.file_pos == a.pos + between.len() + 512
            &&& m.pax_username == v.username
            &&& m.pax_groupname == v.groupname
            &&& e.pax.ready ==> m.pax_extensions == Some(e.pax.data)
            &&& !after.longname.ready && !after.longlink.ready && !after.pax.ready
            &&& after.pax_data is None
            &&& before_header(after)
            &&& read.pos == a.pos + between.len() + 512
            &&& after.scan.next == read.pos + (v.size + 511) / 512 * 512
        },
{
    law_form_is_told_by_magic(h);
    lemma_keys();
    lemma_member_header(a, e, between, h, v, rest);
    let next = e.scan.next;
    let after_next = (next + 512 + (v.size + 511) / 512 * 512) as u64;
    let moved = EntriesView {
        scan: ScanView { next: after_next, open: false, block: Seq::empty() },
        ..e
    };
    let entry = member_of(a.options, v, h, next, (next + 512) as u64, true);
    lemma_same_type(e.pax_data, h, header_size(h)->Ok_0, v);
    let (after, output) = member_found(a.options, moved, entry);
    assert(output == Some(Some(Ok::<EntryView, ErrorView>(described(moved, entry)))));
    let m = described(moved, entry);
    if e.pax.ready {
        let rs = pax_records(e.pax.data);
        lemma_last_value(rs, path_key());
        lemma_last_value(rs, linkpath_key());
    }
    let d = e.longname.data;
    if d.len() > 0 {
        assert(d.drop_last() =~= d.take(d.len() - 1));
    }
    let l = e.longlink.data;
    if l.len() > 0 {
        assert(l.drop_last() =~= l.take(l.len() - 1));
    }
    assert(after == undescribed(moved));
}

/// Pax records leave the kind of a member as it is.
proof fn lemma_same_type(pax: Option<Seq<u8>>, h: Seq<u8>, size: u64, v: OverrideView)
    requires
        h.len() == 512,
        told_of_member(pax, h, size) == Ok::<OverrideView, ErrorView>(v),
    ensures
        v.header.len() == 512,
        v.header[156] == h[156],
        forall|i: int| 257 <= i < 265 ==> #[trigger] v.header[i] == h[i],
        !(pax matches Some(d)) ==> v.header == h,
{
    if let Some(d) = pax {
        lemma_records_keep_type(plain_override(h, size), pax_records(d));
    }
}

proof fn lemma_records_keep_type(v: OverrideView, rs: Seq<PaxView>)
    requires
        v.header.len() == 512,
        crate::member::with_records(v, rs, true) is Ok,
    ensures
        ({
            let b = crate::member::with_records(v, rs, true)->Ok_0.header;
            &&& b.len() == 512
            &&& b[156] == v.header[156]
            &&& forall|i: int| 257 <= i < 265 ==> #[trigger] b[i] == v.header[i]
        }),
    decreases rs.len(),
{
    if rs.len() > 0 {
        lemma_records_keep_type(v, rs.drop_last());
        let w = crate::member::with_records(v, rs.drop_last(), true)->Ok_0;
        let r = rs.last();
        let b = crate::member::with_record(w, r, true)->Ok_0.header;
        if let Some(n) = crate::number::parsed_decimal(r.value) {
            crate::number::lemma_numeric_field_form(n as nat, 8);
        }
        assert(b.len() == 512);
        assert(b[156] == w.header[156]);
        assert forall|i: int| 257 <= i < 265 implies #[trigger] b[i] == w.header[i] by {}
    }
}

/// A file with a long name is read as GNU tar writes it: a long name entry with a
/// GNU or a USTAR header, the name as its data, and then the header of the file.
/// The stream reports no failure, and yields one member, whose path is the name
/// without the zero byte at its end.
pub proof fn law_long_named_member_is_read(
    a: ArchiveView,
    e: EntriesView,
    between: Seq<u8>,
    b: Seq<u8>,
    name: Seq<u8>,
    fill: Seq<u8>,
    h: Seq<u8>,
    rest: Seq<u8>,
)
    requires
        comes_to_extension(a, e, between, b, name),
        b[156] == 'L' as u8,
        says_gnu(b) || says_ustar(b),
        crate::roundtrip::is_fresh(e),
        (name.len() + fill.len()) % 512 == 0,
        fill.len() < 512,
        h.len() == 512,
        h != zeros(512),
        is_plain_typeflag(h[156]),
        h[156] != 'g' as u8,
        header_refusal(a.options, h) is None,
        entry_reserved(
            a.options,
            entry_reserved(a.options, a.usage, name.len() as u64, true).0,
            0,
            false,
        ).1 is Ok,
        header_size(h) matches Ok(size) && a.pos + between.len() + 1024 + name.len() + fill.len()
            + size + 511 <= u64::MAX,
    ensures
        said(a, e, between + b + name + fill + h + rest) matches (read, after, left, Some(Ok(m)))
            && {
            &&& left == rest
            &&& entry_path(m) == Ok::<Seq<u8>, ErrorView>(cut_zero(name))
            &&& entry_link(m) == Ok::<Option<Seq<u8>>, ErrorView>(header_link(h))
            &&& m.header == h
            &&& Ok::<u64, ErrorView>(m.size) == header_size(h)
            &&& m.data == seq![EntryIo::Data(m.size)]
            &&& crate::roundtrip::is_fresh(after)
        },
{
    let size = header_size(h)->Ok_0;
    let v = plain_override(h, size);
    law_long_name_is_taken(a, e, between, b, name, fill + h + rest);
    assert(between + b + name + fill + h + rest =~= between + b + name + (fill + h + rest));
    let a1 = archive_behind(a, between, name);
    let e1 = EntriesView {
        longname: ExtensionView { ready: true, data: name },
        ..stream_behind(a, e, between, name)
    };
    assert((name.len() + 511) / 512 * 512 == name.len() + fill.len());
    law_member_is_read(a1, e1, fill, h, v, rest);
    lemma_longname_used_up(a1, e1, fill, h, v, rest);
}

/// What waited for a member is gone once the member is read.
proof fn lemma_longname_used_up(
    a: ArchiveView,
    e: EntriesView,
    between: Seq<u8>,
    h: Seq<u8>,
    v: OverrideView,
    rest: Seq<u8>,
)
    requires
        comes_to_member(a, e, between, h),
        is_plain_typeflag(h[156]),
        h[156] != 'g' as u8,
        header_size(h) is Ok,
        e.pax == no_extension(),
        e.pax_data is None,
        e.longname.ready || e.longname == no_extension(),
        e.longlink.ready || e.longlink == no_extension(),
        v == plain_override(h, header_size(h)->Ok_0),
        v.size + 511 <= u64::MAX,
        a.pos + between.len() + 512 + (v.size + 511) / 512 * 512 <= u64::MAX,
    ensures
        crate::roundtrip::is_fresh(said(a, e, between + h + rest).1),
{
    law_form_is_told_by_magic(h);
    lemma_member_header(a, e, between, h, v, rest);
}

/// What each kind of entry is refused for: a long name or a long link target for
/// an unknown form of header, for a second one, and for pax records that tell the
/// same or are malformed; pax records for a header that is not USTAR and for
/// second ones. No other entry is refused but a sparse file whose map is no good.
pub proof fn law_entries_are_refused(
    o: crate::options::ArchiveOptions,
    e: EntriesView,
    entry: EntryView,
)
    requires
        entry.header.len() == 512,
    ensures
        ({
            let flag = entry.header[156];
            let known = says_ustar(entry.header) || says_gnu(entry.header);
            let rs = pax_records(e.pax.data);
            let refused = member_found(o, e, entry).1 matches Some(Some(Err(_)));
            &&& flag == 'L' as u8 ==> (refused <==> !known || e.longname.ready || e.pax.ready && (
            has_key(rs, path_key()) || pax_malformed(e.pax.data)))
            &&& flag == 'K' as u8 ==> (refused <==> !known || e.longlink.ready || e.pax.ready && (
            has_key(rs, linkpath_key()) || pax_malformed(e.pax.data)))
            &&& flag == 'x' as u8 ==> (refused <==> !says_ustar(entry.header) || e.pax.ready)
            &&& is_plain_typeflag(flag) ==> !refused
            &&& refused && flag != 'S' as u8 ==> member_found(o, e, entry).0 == e
            &&& !known && (flag == 'L' as u8 || flag == 'K' as u8) || !says_ustar(entry.header)
                && flag == 'x' as u8 ==> member_found(o, e, entry).1 == Some(
                Some(
                    Err::<EntryView, ErrorView>(
                        crate::error::failure(
                            "extension typeflag is not permitted on an unrecognized header"@,
                        ),
                    ),
                ),
            )
        }),
{
    law_form_is_told_by_magic(entry.header);
    lemma_keys();
}

/// A header of global pax records is yielded like a member, with the records as
/// its data; no pax records that wait are applied to it.
pub proof fn law_global_records_are_yielded(
    a: ArchiveView,
    e: EntriesView,
    between: Seq<u8>,
    b: Seq<u8>,
    d: Seq<u8>,
    rest: Seq<u8>,
)
    requires
        comes_to_extension(a, e, between, b, d),
        b[156] == 'g' as u8,
    ensures
        said(a, e, between + b + d + rest) matches (read, after, left, Some(Ok(m))) && {
            &&& left == d + rest
            &&& m.header == b
            &&& m.size == d.len()
            &&& m.data == seq![EntryIo::Data(d.len() as u64)]
            &&& after.scan == stream_behind(a, e, between, d).scan
        },
{
    let o = a.options;
    let u = a.usage;
    let n = d.len() as u64;
    let a1 = read_on(a, between.len());
    let e1 = opened(e);
    lemma_padding(d.len());
    lemma_skip(a, e, between, b + (d + rest));
    assert(between + b + d + rest =~= between + (b + (d + rest)));
    assert(a1.pos == e.scan.next);
    lemma_block(a1, e1, b, d + rest);
    assert(b != zeros(512)) by {
        assert(zeros(512)[156] == 0);
    }
    let next = e.scan.next;
    let file_pos = (next + 512) as u64;
    assert(wrap_add(next, 512) == file_pos);
    let moved = stream_behind(a, e, between, d);
    let entry = member_of(o, plain_override(b, n), b, next, file_pos, true);
    assert(is_extension_block(b));
    assert(!is_orphaned(plain_override(b, n)));
    assert(behind_data(file_pos, n) == Some(moved.scan.next));
    assert(member(o, u, b, next, file_pos, e1.pax_data, true) == (
        entry_reserved(o, u, n, true).0,
        moved.scan.next,
        Ok::<EntryView, ErrorView>(entry),
    ));
    reveal(header_read);
    assert(EntriesView {
        scan: ScanView { next: moved.scan.next, open: false, ..e1.scan },
        ..e1
    } =~= moved);
}

/// A member is refused where its size is no number, where pax records that wait for it
/// cannot be taken or tell of a sparse file in no known format, and where positions
/// could not count to the end of its data.
pub proof fn law_bad_member_is_refused(
    a: ArchiveView,
    e: EntriesView,
    between: Seq<u8>,
    h: Seq<u8>,
    rest: Seq<u8>,
)
    requires
        comes_to_member(a, e, between, h),
        h[156] != 'L' as u8 && h[156] != 'K' as u8 && h[156] != 'x' as u8 && h[156] != 'g' as u8,
        header_size(h) matches Ok(size) ==> (told_of_member(e.pax_data, h, size) matches Ok(v) ==> {
            ||| is_orphaned(v)
            ||| v.size + 511 > u64::MAX
            ||| a.pos + between.len() + 512 + (v.size + 511) / 512 * 512 > u64::MAX
        }),
    ensures
        said(a, e, between + h + rest).3 matches Some(Err(_)),
{
    let a1 = read_on(a, between.len());
    let e1 = opened(e);
    lemma_skip(a, e, between, h + rest);
    assert(between + h + rest =~= between + (h + rest));
    assert(a1.pos == e.scan.next);
    lemma_block(a1, e1, h, rest);
    assert(wrap_add(e.scan.next, 512) == e.scan.next + 512);
    reveal(header_read);
}

/// Where the input ends within the data of a long name or a long link target, the
/// stream fails.
pub proof fn law_cut_long_name_is_a_failure(
    a: ArchiveView,
    e: EntriesView,
    kind: ExtensionKind,
    left: u64,
    part: Seq<u8>,
)
    requires
        !e.failed,
        e.sparse is None,
        e.scan.block.len() == 0,
        !e.scan.open,
        kind is LongName || kind is LongLink,
        e.pending == Some((kind, left)),
        part.len() < left,
        a.pos + left <= e.scan.next,
    ensures
        said(a, e, part).3 matches Some(Err(_)),
{
    reveal(said);
    reveal(settled);
    reveal(crate::entries::chunk_taken);
    let none = Seq::<u8>::empty();
    assert(none.take(0) =~= none);
    assert(none.skip(0) =~= none);
    assert(settled(a.options, a.pos, e).0 =~= e);
    if part.len() > 0 {
        assert(crate::stream::portion(a.pos, e, part) == part.len());
        assert(part.take(part.len() as int) =~= part);
        assert(part.skip(part.len() as int) =~= none);
        let e1 = extension_taken(e, kind, left, part);
        let a1 = read_on(a, part.len());
        assert(said(a, e, part) == said(a1, e1, none));
        lemma_cut_extension(a1, e1, kind, (left - part.len()) as u64);
    } else {
        assert(part =~= none);
        lemma_cut_extension(a, e, kind, left);
    }
}

proof fn lemma_cut_extension(a: ArchiveView, e: EntriesView, kind: ExtensionKind, left: u64)
    requires
        !e.failed,
        e.sparse is None,
        e.scan.block.len() == 0,
        !e.scan.open,
        kind is LongName || kind is LongLink,
        e.pending == Some((kind, left)),
        left > 0,
        a.pos + left <= e.scan.next,
    ensures
        said(a, e, Seq::empty()).3 matches Some(Err(_)),
{
    reveal(said);
    reveal(settled);
    reveal(crate::entries::chunk_taken);
    let none = Seq::<u8>::empty();
    assert(none.take(0) =~= none);
    assert(none.skip(0) =~= none);
    assert(settled(a.options, a.pos, e).0 =~= e);
    assert(crate::stream::portion(a.pos, e, none) == 0);
    let e1 = extension_taken(e, kind, left, none);
    assert(e1.pending == Some((kind, 0u64)));
    assert(read_on(a, 0) =~= a);
    assert(said(a, e, none) == said(a, e1, none));
    let e2 = extension_read(e1, kind).0;
    assert(settled(a.options, a.pos, e1) == seeking(a.pos, e2));
    lemma_said_settled(a, e1, none);
    assert(seeking(a.pos, e2).0 =~= e2);
    assert(settled(a.options, a.pos, e2) == seeking(a.pos, e2));
}

} // verus!
