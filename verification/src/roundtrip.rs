//! What is written to an archive is read back from it.

use crate::archive::ArchiveView;
use crate::builder::termination;
use crate::bytes::{field, zeros};
use crate::entries::{
    chunk_taken, described, entries_wf, extension_read, extension_taken, header_read, member_found,
    no_extension, pax_refusal, record_refusal, seeking, settled, undescribed, EntriesView,
    ExtensionKind, ExtensionView, Output,
};
use crate::entry::{contents, EntryIo, EntryView};
use crate::error::ErrorView;
use crate::facts::{
    facts_wf, is_entry_of, is_member_of, is_record_of, lemma_accepted, lemma_header_is_told,
    lemma_member_is_told, lemma_one_record, lemma_pax_header, lemma_records_are_taken,
    lemma_with_cksum, override_of, stored_records, EntryFacts,
};
use crate::generate::{
    entry_bytes, entry_head, padded_data, padding, pax_entry, pax_header, with_cksum, GeneratedView,
};
use crate::header::header_size;
use crate::member::{
    behind_data, is_extension_block, is_orphaned, member, member_of, plain_override,
};
use crate::number::parsed_numeric;
use crate::options::{entry_reserved, header_reserved, ArchiveOptions, UsageView};
use crate::pax::{
    is_writable, law_records_are_read_back, lemma_record_is_within, lemma_record_length, pax_data,
    pax_malformed, pax_records, PaxView,
};
use crate::scan::{distance, scan_taken, wrap_add, ScanTurnView, ScanView};
use crate::stream::{contents_read, lemma_header_read, lemma_said_settled, portion, said};
use vstd::prelude::*;

verus! {

/// A stream that waits for a header.
pub open spec fn at_header(e: EntriesView) -> bool {
    &&& !e.failed
    &&& e.sparse is None
    &&& e.pending is None
    &&& e.scan.open
    &&& e.scan.block.len() == 0
}

/// A stream that is on the way to a header.
pub open spec fn before_header(e: EntriesView) -> bool {
    &&& !e.failed
    &&& e.sparse is None
    &&& e.pending is None
    &&& !e.scan.open
    &&& e.scan.block.len() == 0
}

/// A stream that has come to the next header.
pub open spec fn opened(e: EntriesView) -> EntriesView {
    EntriesView { scan: ScanView { open: true, block: Seq::empty(), ..e.scan }, ..e }
}

/// An archive of which `n` more bytes were read.
pub open spec fn read_on(a: ArchiveView, n: nat) -> ArchiveView {
    ArchiveView { pos: wrap_add(a.pos, n), ..a }
}

/// On the way to the next header a stream passes over what is in between.
pub proof fn lemma_skip(a: ArchiveView, e: EntriesView, between: Seq<u8>, rest: Seq<u8>)
    requires
        before_header(e),
        between.len() == distance(a.pos, e.scan.next),
    ensures
        said(a, e, between + rest) == said(read_on(a, between.len()), opened(e), rest),
{
    reveal(said);
    reveal(settled);
    reveal(chunk_taken);
    let all = between + rest;
    let o = a.options;
    let a1 = read_on(a, between.len());
    if between.len() > 0 {
        assert(settled(o, a.pos, e).0 =~= e);
        assert(portion(a.pos, e, all) == between.len());
        assert(all.take(between.len() as int) =~= between);
        assert(all.skip(between.len() as int) =~= rest);
        assert(EntriesView { scan: e.scan, ..e } =~= e);
        assert(said(a, e, all) == said(a1, e, rest));
        assert(distance(a1.pos, e.scan.next) == 0);
        assert(settled(o, a1.pos, e).0 =~= opened(e));
        lemma_said_settled(a1, e, rest);
    } else {
        assert(all =~= rest);
        assert(a1 =~= a);
        assert(settled(o, a.pos, e).0 =~= opened(e));
        lemma_said_settled(a, e, rest);
    }
}

/// A stream that waits for a header takes a block for it.
pub proof fn lemma_block(a: ArchiveView, e: EntriesView, b: Seq<u8>, rest: Seq<u8>)
    requires
        at_header(e),
        b.len() == 512,
    ensures
        said(a, e, b + rest) == ({
            let (usage, after, output) = header_read(a.options, a.usage, e, b);
            let read = ArchiveView { usage, ..read_on(a, 512) };
            match output {
                Some(out) => (read, after, rest, out),
                None => said(read, after, rest),
            }
        }),
{
    reveal(said);
    reveal(settled);
    reveal(chunk_taken);
    let all = b + rest;
    let o = a.options;
    assert(settled(o, a.pos, e).0 =~= e);
    assert(portion(a.pos, e, all) == 512);
    assert(all.take(512) =~= b);
    assert(all.skip(512) =~= rest);
    assert(e.scan.block + b =~= b);
    let (scan, turn) = scan_taken(e.scan, b);
    assert(scan =~= e.scan);
    assert(turn == ScanTurnView::Block(b));
    assert(EntriesView { scan, ..e } =~= e);
    assert(chunk_taken(o, a.usage, e, b) == header_read(o, a.usage, e, b));
    lemma_header_read(o, a.usage, e, b);
}

/// A stream that reads an extension entry takes all of it.
pub proof fn lemma_extension(
    a: ArchiveView,
    e: EntriesView,
    kind: ExtensionKind,
    left: u64,
    d: Seq<u8>,
    rest: Seq<u8>,
)
    requires
        entries_wf(e),
        !e.failed,
        e.sparse is None,
        e.pending == Some((kind, left)),
        d.len() == left,
        left > 0,
    ensures
        ({
            let taken = extension_taken(e, kind, left, d);
            let (after, output) = extension_read(taken, kind);
            let read = read_on(a, d.len());
            said(a, e, d + rest) == (match output {
                Some(out) => (read, after, rest, out),
                None => said(read, after, rest),
            })
        }),
{
    reveal(said);
    reveal(settled);
    reveal(chunk_taken);
    let all = d + rest;
    let o = a.options;
    let taken = extension_taken(e, kind, left, d);
    let (after, output) = extension_read(taken, kind);
    let read = read_on(a, d.len());
    assert(portion(a.pos, e, all) == left);
    assert(all.take(left as int) =~= d);
    assert(all.skip(left as int) =~= rest);
    assert(said(a, e, all) == said(read, taken, rest));
    if output is None {
        assert(settled(o, read.pos, taken) == seeking(read.pos, after));
        assert(settled(o, read.pos, after) == seeking(read.pos, after));
    }
}

/// What an archive has used up once the records of an entry, if it has any, are
/// read.
pub open spec fn used_by_records(o: ArchiveOptions, u: UsageView, rs: Seq<PaxView>) -> UsageView {
    if rs.len() > 0 {
        entry_reserved(o, u, pax_data(rs).len() as u64, true).0
    } else {
        u
    }
}

/// What an archive has used up once an entry with the given records is read.
pub open spec fn used_by_entry(o: ArchiveOptions, u: UsageView, rs: Seq<PaxView>) -> UsageView {
    header_reserved(o, used_by_records(o, u, rs)).0
}

/// Whether the limits of an archive allow an entry with the given records.
pub open spec fn is_allowed(o: ArchiveOptions, u: UsageView, rs: Seq<PaxView>) -> bool {
    &&& rs.len() > 0 ==> entry_reserved(o, u, pax_data(rs).len() as u64, true).1 is Ok
    &&& header_reserved(o, used_by_records(o, u, rs)).1 is Ok
}

/// A stream that has read the records of an entry and waits for its header.
pub open spec fn is_told(e: EntriesView, rs: Seq<PaxView>) -> bool {
    &&& at_header(e)
    &&& e.longname == no_extension()
    &&& e.longlink == no_extension()
    &&& e.pax_data == stored_records(rs)
    &&& e.pax == (if rs.len() == 0 {
        no_extension()
    } else {
        ExtensionView { ready: true, data: pax_data(rs) }
    })
}

/// A stream makes a member of the header of an entry.
proof fn lemma_member_read(
    o: ArchiveOptions,
    u: UsageView,
    e: EntriesView,
    g: GeneratedView,
    f: EntryFacts,
)
    requires
        facts_wf(f),
        is_entry_of(g, f),
        forall|i: int| 0 <= i < g.extensions.len() ==> is_writable(#[trigger] g.extensions[i]),
        f.uid < 0x8000_0000_0000_0000,
        f.gid < 0x8000_0000_0000_0000,
        header_reserved(o, u).1 is Ok,
        is_told(e, g.extensions),
        e.scan.next + 512 + (f.size + 511) / 512 * 512 <= u64::MAX,
    ensures
        header_read(o, u, e, with_cksum(g.header)) matches (usage, after, Some(Some(Ok(m)))) && {
            &&& usage == header_reserved(o, u).0
            &&& is_member_of(m, f)
            &&& m.header_pos == e.scan.next
            &&& m.file_pos == e.scan.next + 512
            &&& is_fresh(after)
            &&& after.scan.next == e.scan.next + 512 + (f.size + 511) / 512 * 512
        },
{
    reveal(header_read);
    let h = g.header;
    let b = with_cksum(h);
    lemma_accepted(o, h);
    lemma_with_cksum(h);
    assert(field(b, 124, 12) =~= field(h, 124, 12));
    let size = parsed_numeric(field(h, 124, 12))->0;
    lemma_records_are_taken(g, f, size);
    let v = override_of(g, size);
    let next = e.scan.next;
    let file_pos = (next + 512) as u64;
    assert(wrap_add(next, 512) == file_pos);
    assert(header_size(b) == Ok::<u64, ErrorView>(size));
    assert(!is_extension_block(b));
    let counted = header_reserved(o, u).0;
    assert(entry_reserved(o, u, size, false) == header_reserved(o, u));
    let entry = member_of(o, v, b, next, file_pos, true);
    let after_next = behind_data(file_pos, f.size)->0;
    assert(member(o, u, b, next, file_pos, e.pax_data, true) == (
        counted,
        after_next,
        Ok::<EntryView, ErrorView>(entry),
    ));
    let moved = EntriesView { scan: ScanView { next: after_next, open: false, ..e.scan }, ..e };
    let m = described(moved, entry);
    lemma_header_is_told(g, f, size);
    assert(member_found(o, moved, entry) == (
        undescribed(moved),
        Some(Some(Ok::<EntryView, ErrorView>(m))),
    ));
    lemma_member_is_told(g, f, size, m);
}

/// A stream between two members, with nothing left over.
pub open spec fn is_fresh(e: EntriesView) -> bool {
    &&& before_header(e)
    &&& e.longname == no_extension()
    &&& e.longlink == no_extension()
    &&& e.pax == no_extension()
    &&& e.pax_data is None
}

/// A stream that was between two members and has come to the next header.
pub open spec fn is_fresh_header(e: EntriesView) -> bool {
    &&& at_header(e)
    &&& e.longname == no_extension()
    &&& e.longlink == no_extension()
    &&& e.pax == no_extension()
    &&& e.pax_data is None
}

/// A stream takes the data of an extension entry.
proof fn lemma_records_data(
    a: ArchiveView,
    e: EntriesView,
    d: Seq<u8>,
    n: u64,
    rest: Seq<u8>,
)
    requires
        !e.failed,
        e.sparse is None,
        e.scan.block.len() == 0,
        e.longname == no_extension(),
        e.longlink == no_extension(),
        e.pax == no_extension(),
        e.pending == Some((ExtensionKind::Pax, n)),
        n == d.len(),
        n > 0,
        !pax_malformed(d),
        record_refusal(pax_records(d), false) is None,
    ensures
        said(a, e, d + rest) == said(
            read_on(a, d.len()),
            EntriesView {
                pending: None,
                pax: ExtensionView { ready: true, data: d },
                pax_data: Some(d),
                ..e
            },
            rest,
        ),
{
    lemma_extension(a, e, ExtensionKind::Pax, n, d, rest);
    let taken = extension_taken(e, ExtensionKind::Pax, n, d);
    assert(taken.pax.data =~= d);
    let after = EntriesView {
        pending: None,
        pax: ExtensionView { ready: true, data: d },
        pax_data: Some(d),
        ..e
    };
    assert(pax_refusal(taken) is None);
    assert(extension_read(taken, ExtensionKind::Pax).0 =~= after);
}

/// A stream reads the records of an entry and waits for its header.
#[verifier::rlimit(30)]
proof fn lemma_records_read(
    a: ArchiveView,
    e: EntriesView,
    d: Seq<u8>,
    n: u64,
    rest: Seq<u8>,
)
    requires
        entry_reserved(a.options, a.usage, n, true).1 is Ok,
        a.options.pax_only ==> n < 0x2_0000_0000,
        is_fresh_header(e),
        a.pos == e.scan.next,
        n == d.len(),
        n > 0,
        !pax_malformed(d),
        record_refusal(pax_records(d), false) is None,
        a.pos + 512 + d.len() + padding(d.len()) <= u64::MAX,
    ensures
        ({
            let len = 512 + d.len() + padding(d.len());
            let told = EntriesView {
                scan: ScanView { next: (a.pos + len) as u64, open: true, block: Seq::empty() },
                pax: ExtensionView { ready: true, data: d },
                pax_data: Some(d),
                ..e
            };
            let usage = entry_reserved(a.options, a.usage, n, true).0;
            said(a, e, pax_header(n) + (d + (zeros(padding(d.len())) + rest))) == said(
                ArchiveView { usage, ..read_on(a, len as nat) },
                told,
                rest,
            )
        }),
{
    let b = pax_header(n);
    let pad = zeros(padding(d.len()));
    let o = a.options;
    let u = a.usage;
    lemma_pax_header(o, n);
    lemma_padding(d.len());
    lemma_pax_header_read(o, u, e, n);
    let next = (a.pos + 512 + d.len() + padding(d.len())) as u64;
    let e1 = header_read(o, u, e, b).1;
    assert(e1.scan.next == next);
    let rest1 = d + (pad + rest);
    lemma_block(a, e, b, rest1);
    let usage = entry_reserved(o, u, n, true).0;
    let a1 = ArchiveView { usage, ..read_on(a, 512) };
    lemma_records_data(a1, e1, d, n, pad + rest);
    let after = EntriesView {
        pending: None,
        pax: ExtensionView { ready: true, data: d },
        pax_data: Some(d),
        ..e1
    };
    let a2 = read_on(a1, d.len());
    assert(distance(a2.pos, next) == pad.len());
    lemma_skip(a2, after, pad, rest);
    let told = EntriesView {
        scan: ScanView { next, open: true, block: Seq::empty() },
        pax: ExtensionView { ready: true, data: d },
        pax_data: Some(d),
        ..e
    };
    assert(opened(after) =~= told);
    let len = (512 + d.len() + padding(d.len())) as nat;
    assert(read_on(a2, pad.len()) =~= ArchiveView { usage, ..read_on(a, len) });
}

#[verifier::spinoff_prover]
pub proof fn lemma_padding(n: nat)
    ensures
        (n + 511) / 512 * 512 == n + padding(n),
        padding(n) < 512,
{
    let q = n / 512;
    let r = n % 512;
    assert(n == 512 * q + r);
    if r == 0 {
        assert((n + 511) / 512 == q);
    } else {
        assert((n + 511) / 512 == q + 1);
        assert((512 - r) % 512 == 512 - r);
    }
}

proof fn lemma_pax_data_is_there(rs: Seq<PaxView>)
    requires
        rs.len() > 0,
    ensures
        pax_data(rs).len() > 0,
{
}

/// A stream takes the header of an extension entry.
proof fn lemma_pax_header_read(o: ArchiveOptions, u: UsageView, e: EntriesView, n: u64)
    requires
        o.pax_only ==> n < 0x2_0000_0000,
        entry_reserved(o, u, n, true).1 is Ok,
        at_header(e),
        !e.pax.ready,
        !e.longname.ready,
        !e.longlink.ready,
        e.scan.next + 512 + (n + 511) / 512 * 512 <= u64::MAX,
    ensures
        header_read(o, u, e, pax_header(n)) == (
            entry_reserved(o, u, n, true).0,
            EntriesView {
                scan: ScanView {
                    next: behind_data((e.scan.next + 512) as u64, n)->0,
                    open: false,
                    block: e.scan.block,
                },
                pending: Some((ExtensionKind::Pax, n)),
                ..e
            },
            None::<Output>,
        ),
{
    reveal(header_read);
    let b = pax_header(n);
    lemma_pax_header(o, n);
    assert(wrap_add(e.scan.next, 512) == (e.scan.next + 512) as u64);
    assert(is_extension_block(b));
    assert(!is_orphaned(plain_override(b, n)));
}

/// The records of an entry are accepted.
proof fn lemma_records_are_accepted(g: GeneratedView, f: EntryFacts)
    requires
        facts_wf(f),
        is_entry_of(g, f),
        forall|i: int| 0 <= i < g.extensions.len() ==> is_writable(#[trigger] g.extensions[i]),
    ensures
        pax_records(pax_data(g.extensions)) == g.extensions,
        !pax_malformed(pax_data(g.extensions)),
        record_refusal(g.extensions, false) is None,
{
    law_records_are_read_back(g.extensions);
    lemma_no_record_refused(f, g.extensions);
}

proof fn lemma_no_record_refused(f: EntryFacts, rs: Seq<PaxView>)
    requires
        facts_wf(f),
        forall|i: int| 0 <= i < rs.len() ==> is_record_of(f, #[trigger] rs[i]),
    ensures
        record_refusal(rs, false) is None,
    decreases rs.len(),
{
    if rs.len() > 0 {
        assert(is_record_of(f, rs[0]));
        lemma_one_record(plain_override(zeros(512), 0), f, rs[0]);
        assert forall|i: int| 0 <= i < rs.skip(1).len() implies is_record_of(
            f,
            #[trigger] rs.skip(1)[i],
        ) by {
            assert(rs.skip(1)[i] == rs[i + 1]);
        }
        lemma_no_record_refused(f, rs.skip(1));
    }
}

/// Whether an entry and its data are read back from an archive: what a stream
/// says of `between`, the entry and `tail`, where `between` is what it has
/// still to pass over.
pub open spec fn is_read_back(
    a: ArchiveView,
    e: EntriesView,
    between: Seq<u8>,
    g: GeneratedView,
    f: EntryFacts,
    data: Seq<u8>,
    tail: Seq<u8>,
) -> bool {
    said(a, e, between + entry_bytes(g, data) + tail) matches (read, after, rest, Some(Ok(m))) && {
        &&& is_member_of(m, f)
        &&& rest == padded_data(data) + tail
        &&& contents(m.data, rest) == data
        &&& read == (ArchiveView {
            usage: used_by_entry(a.options, a.usage, g.extensions),
            ..read_on(a, between.len() + entry_head(g).len())
        })
        &&& is_fresh(after)
        &&& distance(read.pos, after.scan.next) == padded_data(data).len()
    }
}

/// Whether a stream is where an entry of the given length can be read: between
/// two members, within the limits, and not at the end of what positions can
/// count. In pax-only mode the records must be shorter than 2^33 bytes.
pub open spec fn can_read(a: ArchiveView, e: EntriesView, between: Seq<u8>, g: GeneratedView, data: Seq<u8>) -> bool {
    &&& is_fresh(e)
    &&& between.len() == distance(a.pos, e.scan.next)
    &&& is_allowed(a.options, a.usage, g.extensions)
    &&& a.options.pax_only ==> pax_data(g.extensions).len() < 0x2_0000_0000
    &&& a.pos + between.len() + entry_bytes(g, data).len() <= u64::MAX
}

/// An entry that is written is read back: the stream finds the member that the
/// entry is of, with its path, its kind, its size, its owner, its permissions,
/// its time, its link target and its data. `between` is what the stream has
/// still to pass over, and `tail` what follows the entry. The owner's numbers
/// must be below 2^63, and the archive must be shorter than 2^64 bytes.
#[verifier::spinoff_prover]
#[verifier::rlimit(30)]
pub proof fn law_entry_is_read_back(
    a: ArchiveView,
    e: EntriesView,
    between: Seq<u8>,
    g: GeneratedView,
    f: EntryFacts,
    data: Seq<u8>,
    tail: Seq<u8>,
)
    requires
        can_read(a, e, between, g, data),
        facts_wf(f),
        is_entry_of(g, f),
        data.len() == f.size,
        f.uid < 0x8000_0000_0000_0000,
        f.gid < 0x8000_0000_0000_0000,
    ensures
        is_read_back(a, e, between, g, f, data, tail),
{
    let rs = g.extensions;
    let b = with_cksum(g.header);
    let body = padded_data(data) + tail;
    lemma_entry_is_writable(g, f, data);
    lemma_with_cksum(g.header);
    lemma_padding(data.len());
    let a1 = read_on(a, between.len());
    let e1 = opened(e);
    lemma_layout(between, g, data, tail);
    lemma_skip(a, e, between, pax_entry(rs) + (b + body));
    assert(a1.pos == e.scan.next);
    let usage = used_by_records(a.options, a.usage, rs);
    let a2 = ArchiveView { usage, ..read_on(a1, pax_entry(rs).len()) };
    let told = told_by_records(a1, e1, rs);
    lemma_told(a1, e1, g, f, b + body);
    lemma_told_member(a2, told, g, f, data, tail);
    assert(ArchiveView {
        usage: used_by_entry(a.options, a.usage, rs),
        ..read_on(a2, 512)
    } =~= ArchiveView {
        usage: used_by_entry(a.options, a.usage, rs),
        ..read_on(a, between.len() + entry_head(g).len())
    });
}

/// The parts of an entry, one behind the other.
proof fn lemma_layout(between: Seq<u8>, g: GeneratedView, data: Seq<u8>, tail: Seq<u8>)
    requires
        g.header.len() == 512,
    ensures
        between + entry_bytes(g, data) + tail == between + (pax_entry(g.extensions) + (with_cksum(
            g.header,
        ) + (padded_data(data) + tail))),
        entry_bytes(g, data).len() == pax_entry(g.extensions).len() + 512 + padded_data(data).len(),
        entry_head(g).len() == pax_entry(g.extensions).len() + 512,
{
    lemma_with_cksum(g.header);
    assert(between + entry_bytes(g, data) + tail =~= between + (pax_entry(g.extensions) + (
    with_cksum(g.header) + (padded_data(data) + tail))));
}

/// A stream that has read the records of an entry, if it has any.
pub open spec fn told_by_records(a: ArchiveView, e: EntriesView, rs: Seq<PaxView>) -> EntriesView {
    if rs.len() > 0 {
        EntriesView {
            scan: ScanView {
                next: (a.pos + pax_entry(rs).len()) as u64,
                open: true,
                block: Seq::empty(),
            },
            pax: ExtensionView { ready: true, data: pax_data(rs) },
            pax_data: Some(pax_data(rs)),
            ..e
        }
    } else {
        e
    }
}

proof fn lemma_told(
    a: ArchiveView,
    e: EntriesView,
    g: GeneratedView,
    f: EntryFacts,
    rest: Seq<u8>,
)
    requires
        facts_wf(f),
        is_entry_of(g, f),
        forall|i: int| 0 <= i < g.extensions.len() ==> is_writable(#[trigger] g.extensions[i]),
        is_allowed(a.options, a.usage, g.extensions),
        a.options.pax_only ==> pax_data(g.extensions).len() < 0x2_0000_0000,
        is_fresh_header(e),
        a.pos == e.scan.next,
        a.pos + pax_entry(g.extensions).len() <= u64::MAX,
    ensures
        said(a, e, pax_entry(g.extensions) + rest) == said(
            ArchiveView {
                usage: used_by_records(a.options, a.usage, g.extensions),
                ..read_on(a, pax_entry(g.extensions).len())
            },
            told_by_records(a, e, g.extensions),
            rest,
        ),
        is_told(told_by_records(a, e, g.extensions), g.extensions),
        told_by_records(a, e, g.extensions).scan.next == a.pos + pax_entry(g.extensions).len(),
{
    let rs = g.extensions;
    let d = pax_data(rs);
    if rs.len() > 0 {
        let n = d.len() as u64;
        let pad = zeros(padding(d.len()));
        lemma_pax_data_is_there(rs);
        lemma_pax_header_len(n);
        lemma_records_are_accepted(g, f);
        lemma_records_read(a, e, d, n, rest);
        assert(pax_entry(rs) + rest =~= pax_header(n) + (d + (pad + rest)));
    } else {
        assert(pax_entry(rs) + rest =~= rest);
        assert(read_on(a, 0) =~= a);
    }
}

proof fn lemma_pax_header_len(n: u64)
    ensures
        pax_header(n).len() == 512,
{
    let o = ArchiveOptions { pax_only: false, ..arbitrary() };
    lemma_pax_header(o, n);
}

/// A stream that has read the records of an entry makes a member of its header.
proof fn lemma_told_member(
    a: ArchiveView,
    e: EntriesView,
    g: GeneratedView,
    f: EntryFacts,
    data: Seq<u8>,
    tail: Seq<u8>,
)
    requires
        facts_wf(f),
        is_entry_of(g, f),
        forall|i: int| 0 <= i < g.extensions.len() ==> is_writable(#[trigger] g.extensions[i]),
        data.len() == f.size,
        f.uid < 0x8000_0000_0000_0000,
        f.gid < 0x8000_0000_0000_0000,
        header_reserved(a.options, a.usage).1 is Ok,
        is_told(e, g.extensions),
        a.pos == e.scan.next,
        a.pos + 512 + padded_data(data).len() <= u64::MAX,
    ensures
        said(a, e, with_cksum(g.header) + (padded_data(data) + tail)) matches (
            read,
            after,
            rest,
            Some(Ok(m)),
        ) && {
            &&& is_member_of(m, f)
            &&& rest == padded_data(data) + tail
            &&& contents(m.data, rest) == data
            &&& read == (ArchiveView {
                usage: header_reserved(a.options, a.usage).0,
                ..read_on(a, 512)
            })
            &&& is_fresh(after)
            &&& distance(read.pos, after.scan.next) == padded_data(data).len()
        },
{
    let b = with_cksum(g.header);
    let body = padded_data(data) + tail;
    lemma_with_cksum(g.header);
    lemma_padding(data.len());
    lemma_member_read(a.options, a.usage, e, g, f);
    lemma_block(a, e, b, body);
    let (usage, after, output) = header_read(a.options, a.usage, e, b);
    let m = output->0->0->Ok_0;
    assert(body.take(f.size as int) =~= data);
    lemma_contents_of_file(m.data, f.size, data, body);
}

/// The contents of a member that has no holes.
proof fn lemma_contents_of_file(parts: Seq<EntryIo>, size: u64, data: Seq<u8>, body: Seq<u8>)
    requires
        parts == seq![EntryIo::Data(size)],
        data.len() == size,
        size <= body.len(),
        body.take(size as int) == data,
    ensures
        contents(parts, body) == data,
{
    let after = body.skip(size as int);
    assert(parts.skip(1) =~= Seq::<EntryIo>::empty());
    assert(contents(parts.skip(1), after) =~= Seq::<u8>::empty());
    assert(data + Seq::<u8>::empty() =~= data);
}

/// Each record of an entry is shorter than the entry.
proof fn lemma_entry_is_writable(g: GeneratedView, f: EntryFacts, data: Seq<u8>)
    requires
        facts_wf(f),
        is_entry_of(g, f),
        entry_bytes(g, data).len() <= u64::MAX,
    ensures
        forall|i: int| 0 <= i < g.extensions.len() ==> is_writable(#[trigger] g.extensions[i]),
{
    let rs = g.extensions;
    assert forall|i: int| 0 <= i < rs.len() implies is_writable(#[trigger] rs[i]) by {
        assert(is_record_of(f, rs[i]));
        lemma_one_record(plain_override(zeros(512), 0), f, rs[i]);
        lemma_record_is_within(rs, i);
        lemma_record_length(rs[i].key, rs[i].value);
        lemma_pax_header_len(pax_data(rs).len() as u64);
        assert(pax_entry(rs).len() >= pax_data(rs).len());
    }
}

/// At the end of an archive a stream says that there is no more. Where blocks
/// of zeros are passed over, nothing may follow the end.
pub proof fn law_end_is_read(a: ArchiveView, e: EntriesView, between: Seq<u8>, tail: Seq<u8>)
    requires
        is_fresh(e),
        between.len() == distance(a.pos, e.scan.next),
        a.options.ignore_zeros ==> tail.len() == 0,
    ensures
        said(a, e, between + termination() + tail).3 is None,
{
    if a.options.ignore_zeros {
        let a1 = read_on(a, between.len() + 1024);
        let e1 = passed(e, 1024);
        let none = Seq::<u8>::empty();
        lemma_end_is_passed_over(a, e, between, tail);
        lemma_skip(a1, e1, none, none);
        assert(none + none =~= none && tail =~= none);
        lemma_end_of_input(read_on(a1, 0), opened(e1));
    } else {
        let a1 = read_on(a, between.len());
        let e1 = opened(e);
        let half = zeros(512);
        assert(between + termination() + tail =~= between + (half + (half + tail)));
        lemma_skip(a, e, between, half + (half + tail));
        lemma_block(a1, e1, half, half + tail);
        reveal(header_read);
    }
}

/// A stream that has passed over `n` bytes of zeros.
pub open spec fn passed(e: EntriesView, n: nat) -> EntriesView {
    EntriesView { scan: ScanView { next: wrap_add(e.scan.next, n), ..e.scan }, ..e }
}

/// Where blocks of zeros are passed over, a stream goes on behind them.
proof fn lemma_zeros_are_passed_over(o: ArchiveOptions, u: UsageView, e: EntriesView)
    requires
        is_fresh_header(e),
        o.ignore_zeros,
    ensures
        header_read(o, u, e, zeros(512)) == (u, passed(e, 512), None::<Output>),
{
    reveal(header_read);
    assert(header_read(o, u, e, zeros(512)).1 =~= passed(e, 512));
}

/// Where blocks of zeros are passed over, a stream goes on behind the end of an
/// archive.
proof fn lemma_end_is_passed_over(a: ArchiveView, e: EntriesView, between: Seq<u8>, rest: Seq<u8>)
    requires
        is_fresh(e),
        between.len() == distance(a.pos, e.scan.next),
        a.options.ignore_zeros,
    ensures
        said(a, e, between + termination() + rest) == said(
            read_on(a, between.len() + 1024),
            passed(e, 1024),
            rest,
        ),
        is_fresh(passed(e, 1024)),
        distance(read_on(a, between.len() + 1024).pos, passed(e, 1024).scan.next) == 0,
{
    let a1 = read_on(a, between.len());
    let e1 = opened(e);
    let a2 = read_on(a1, 512);
    let e2 = passed(e1, 512);
    let a3 = read_on(a, between.len() + 1024);
    let e3 = passed(e, 1024);
    let half = zeros(512);
    assert(between + termination() + rest =~= between + (half + (half + rest)));
    lemma_skip(a, e, between, half + (half + rest));
    lemma_block(a1, e1, half, half + rest);
    lemma_zeros_are_passed_over(a.options, a.usage, e1);
    lemma_block(a2, e2, half, rest);
    lemma_zeros_are_passed_over(a.options, a.usage, e2);
    assert(read_on(a2, 512) =~= a3);
    assert(passed(e2, 512) =~= opened(e3));
    let none = Seq::<u8>::empty();
    lemma_skip(a3, e3, none, rest);
    assert(none + rest =~= rest);
    assert(read_on(a3, 0) =~= a3);
}

/// Where the input ends, a stream says that there is no more.
proof fn lemma_end_of_input(a: ArchiveView, e: EntriesView)
    requires
        is_fresh_header(e),
    ensures
        said(a, e, Seq::empty()).3 is None,
{
    reveal(said);
    reveal(settled);
    reveal(chunk_taken);
    let none = Seq::<u8>::empty();
    assert(settled(a.options, a.pos, e).0 =~= e);
    assert(none.take(0) =~= none);
}

/// A member that is to be written: its entry, what the entry says, and its data.
pub struct Written {
    pub entry: GeneratedView,
    pub facts: EntryFacts,
    pub data: Seq<u8>,
}

/// Whether an entry is written as it says.
pub open spec fn is_written(w: Written) -> bool {
    &&& facts_wf(w.facts)
    &&& is_entry_of(w.entry, w.facts)
    &&& w.data.len() == w.facts.size
    &&& w.facts.uid < 0x8000_0000_0000_0000
    &&& w.facts.gid < 0x8000_0000_0000_0000
}

/// The bytes of members, one after the other.
pub open spec fn written_bytes(ws: Seq<Written>) -> Seq<u8>
    decreases ws.len(),
{
    if ws.len() == 0 {
        Seq::empty()
    } else {
        entry_bytes(ws[0].entry, ws[0].data) + written_bytes(ws.skip(1))
    }
}

/// What is written for members and then for further ones is what is written for
/// all of them.
pub proof fn law_written_bytes_add_up(ws: Seq<Written>, more: Seq<Written>)
    ensures
        written_bytes(ws + more) == written_bytes(ws) + written_bytes(more),
    decreases ws.len(),
{
    if ws.len() == 0 {
        assert(ws + more =~= more);
        assert(written_bytes(ws) + written_bytes(more) =~= written_bytes(more));
    } else {
        law_written_bytes_add_up(ws.skip(1), more);
        assert((ws + more).skip(1) =~= ws.skip(1) + more);
        assert(written_bytes(ws + more) =~= written_bytes(ws) + written_bytes(more));
    }
}

/// Whether the limits of an archive allow members, one after the other.
pub open spec fn are_allowed(o: ArchiveOptions, u: UsageView, ws: Seq<Written>) -> bool
    decreases ws.len(),
{
    ws.len() > 0 ==> {
        let rs = ws[0].entry.extensions;
        &&& is_allowed(o, u, rs)
        &&& are_allowed(o, used_by_entry(o, u, rs), ws.skip(1))
    }
}

/// Without limits on headers and extension entries, all members are allowed.
pub proof fn law_without_limits_all_is_allowed(o: ArchiveOptions, u: UsageView, ws: Seq<Written>)
    requires
        o.max_physical_entries is None,
        o.max_extension_entry_size is None,
        o.max_total_extension_size is None,
    ensures
        are_allowed(o, u, ws),
    decreases ws.len(),
{
    if ws.len() > 0 {
        law_without_limits_all_is_allowed(
            o,
            used_by_entry(o, u, ws[0].entry.extensions),
            ws.skip(1),
        );
    }
}

/// Whether a stream finds the members that were written, in their order and with
/// their data, and then says that there is no more. `rest` is what was not read
/// yet of the archive, and `ks` tells how many bytes of each member's data are
/// read before the next member is asked for: none where the member is passed
/// over, all where its contents are read.
pub open spec fn finds_all(
    a: ArchiveView,
    e: EntriesView,
    rest: Seq<u8>,
    ws: Seq<Written>,
    ks: Seq<nat>,
) -> bool
    decreases ws.len(),
{
    if ws.len() == 0 {
        said(a, e, rest).3 is None
    } else {
        said(a, e, rest) matches (read, after, left, Some(Ok(m))) && {
            &&& is_member_of(m, ws[0].facts)
            &&& contents(m.data, left) == ws[0].data
            &&& contents_read(m.data, left.len()) == ws[0].data.len()
            &&& finds_all(
                ArchiveView { pos: (read.pos + ks[0]) as u64, ..read },
                after,
                left.skip(ks[0] as int),
                ws.skip(1),
                ks.skip(1),
            )
        }
    }
}

/// Whether a caller reads at most the data of each member.
pub open spec fn are_within(ks: Seq<nat>, ws: Seq<Written>) -> bool {
    &&& ks.len() == ws.len()
    &&& forall|i: int| 0 <= i < ws.len() ==> #[trigger] ks[i] <= ws[i].data.len()
}

/// The bytes of archives, one after the other, each with its end.
pub open spec fn archives_bytes(parts: Seq<Seq<Written>>) -> Seq<u8>
    decreases parts.len(),
{
    if parts.len() == 0 {
        Seq::empty()
    } else {
        written_bytes(parts[0]) + termination() + archives_bytes(parts.skip(1))
    }
}

/// The members of archives, one after the other.
pub open spec fn archives_members(parts: Seq<Seq<Written>>) -> Seq<Written>
    decreases parts.len(),
{
    if parts.len() == 0 {
        Seq::empty()
    } else {
        parts[0] + archives_members(parts.skip(1))
    }
}

/// Whether members are written as they say, with no more records than a strict
/// archive can have.
pub open spec fn are_written(o: ArchiveOptions, ws: Seq<Written>) -> bool {
    &&& forall|i: int| 0 <= i < ws.len() ==> is_written(#[trigger] ws[i])
    &&& o.pax_only ==> forall|i: int|
        0 <= i < ws.len() ==> pax_data((#[trigger] ws[i]).entry.extensions).len() < 0x2_0000_0000
}

/// The first member is found, and what is left when `k` bytes of its data were
/// read is the rest of the data and what follows the member.
#[verifier::spinoff_prover]
#[verifier::rlimit(30)]
proof fn lemma_first_is_found(
    a: ArchiveView,
    e: EntriesView,
    between: Seq<u8>,
    w: Written,
    rest: Seq<u8>,
    k: nat,
)
    requires
        can_read(a, e, between, w.entry, w.data),
        is_written(w),
        k <= w.data.len(),
    ensures
        said(a, e, between + entry_bytes(w.entry, w.data) + rest) matches (
            read,
            after,
            left,
            Some(Ok(m)),
        ) && {
            &&& is_member_of(m, w.facts)
            &&& contents(m.data, left) == w.data
            &&& contents_read(m.data, left.len()) == w.data.len()
            &&& left.skip(k as int) == padded_data(w.data).skip(k as int) + rest
            &&& is_fresh(after)
            &&& read.pos + k + padded_data(w.data).skip(k as int).len() == a.pos + between.len()
                + entry_bytes(w.entry, w.data).len()
            &&& distance((read.pos + k) as u64, after.scan.next) == padded_data(w.data).skip(
                k as int,
            ).len()
            &&& read.options == a.options
            &&& read.usage == used_by_entry(a.options, a.usage, w.entry.extensions)
        },
{
    law_entry_is_read_back(a, e, between, w.entry, w.facts, w.data, rest);
    lemma_layout(between, w.entry, w.data, rest);
    lemma_padding(w.data.len());
    let whole = between + entry_bytes(w.entry, w.data) + rest;
    let (read, after, left, out) = said(a, e, whole);
    let m = out->0->Ok_0;
    let body = padded_data(w.data);
    lemma_taken_by_file(m.data, w.facts.size, left.len());
    assert(left.skip(k as int) =~= body.skip(k as int) + rest);
}

/// It is the same to put bytes together from the front or from the back.
proof fn lemma_regrouped(a: Seq<u8>, b: Seq<u8>, c: Seq<u8>, d: Seq<u8>, e: Seq<u8>)
    ensures
        a + b + c + d + e == a + (b + c + (d + e)),
{
    assert(a + b + c + d + e =~= a + (b + c + (d + e)));
}

/// What stands before the end of an archive, where there are no members.
proof fn lemma_nothing_between(a: Seq<u8>, c: Seq<u8>, d: Seq<u8>, e: Seq<u8>)
    ensures
        a + Seq::<u8>::empty() + c + d + e == a + c + (d + e),
        Seq::<u8>::empty() + a + c + d + e == a + c + d + e,
{
    assert(a + Seq::<u8>::empty() + c + d + e =~= a + c + (d + e));
    assert(Seq::<u8>::empty() + a + c + d + e =~= a + c + d + e);
}

/// What stands in an archive and in the archives behind it is found, member by
/// member.
#[verifier::spinoff_prover]
#[verifier::rlimit(60)]
proof fn lemma_archives_are_found(
    a: ArchiveView,
    e: EntriesView,
    between: Seq<u8>,
    ws: Seq<Written>,
    parts: Seq<Seq<Written>>,
    tail: Seq<u8>,
    ks: Seq<nat>,
)
    requires
        is_fresh(e),
        between.len() == distance(a.pos, e.scan.next),
        are_allowed(a.options, a.usage, ws + archives_members(parts)),
        are_written(a.options, ws + archives_members(parts)),
        are_within(ks, ws + archives_members(parts)),
        parts.len() > 0 ==> a.options.ignore_zeros,
        a.options.ignore_zeros ==> tail.len() == 0,
        a.pos + between.len() + written_bytes(ws).len() <= u64::MAX,
        parts.len() > 0 ==> a.pos + between.len() + written_bytes(ws).len() + 1024
            + archives_bytes(parts).len() <= u64::MAX,
    ensures
        finds_all(
            a,
            e,
            between + written_bytes(ws) + termination() + archives_bytes(parts) + tail,
            ws + archives_members(parts),
            ks,
        ),
    decreases parts.len(), ws.len(),
{
    let none = Seq::<u8>::empty();
    let behind = archives_bytes(parts) + tail;
    let all = ws + archives_members(parts);
    let whole = between + written_bytes(ws) + termination() + archives_bytes(parts) + tail;
    if ws.len() == 0 && parts.len() == 0 {
        lemma_nothing_between(between, termination(), none, tail);
        assert(none + tail =~= tail);
        law_end_is_read(a, e, between, tail);
    } else if ws.len() == 0 {
        let a1 = read_on(a, between.len() + 1024);
        let e1 = passed(e, 1024);
        lemma_nothing_between(between, termination(), archives_bytes(parts), tail);
        lemma_end_is_passed_over(a, e, between, behind);
        assert(all =~= archives_members(parts));
        lemma_nothing_between(
            written_bytes(parts[0]),
            termination(),
            archives_bytes(parts.skip(1)),
            tail,
        );
        lemma_archives_are_found(a1, e1, none, parts[0], parts.skip(1), tail, ks);
    } else {
        let w = ws[0];
        let k = ks[0] as int;
        let others = ws.skip(1);
        let rest = written_bytes(others) + termination() + behind;
        let body = padded_data(w.data);
        assert(all[0] == w);
        assert(is_written(all[0]));
        assert(ks[0] <= all[0].data.len());
        assert(all.skip(1) =~= others + archives_members(parts));
        assert(a.options.pax_only ==> pax_data(all[0].entry.extensions).len() < 0x2_0000_0000);
        assert(written_bytes(ws).len() == entry_bytes(w.entry, w.data).len() + written_bytes(
            others,
        ).len());
        let first = between + entry_bytes(w.entry, w.data);
        assert(between + written_bytes(ws) =~= first + written_bytes(others));
        lemma_regrouped(first, written_bytes(others), termination(), archives_bytes(parts), tail);
        lemma_first_is_found(a, e, between, w, rest, ks[0]);
        let (read, after, left, out) = said(a, e, whole);
        lemma_regrouped(
            body.skip(k),
            written_bytes(others),
            termination(),
            archives_bytes(parts),
            tail,
        );
        lemma_others_are_written(a.options, all, ks);
        let next = ArchiveView { pos: (read.pos + k) as u64, ..read };
        lemma_archives_are_found(next, after, body.skip(k), others, parts, tail, ks.skip(1));
    }
}

/// What holds of members holds of all but the first.
proof fn lemma_others_are_written(o: ArchiveOptions, ws: Seq<Written>, ks: Seq<nat>)
    requires
        ws.len() > 0,
        are_written(o, ws),
        are_within(ks, ws),
    ensures
        are_written(o, ws.skip(1)),
        are_within(ks.skip(1), ws.skip(1)),
{
    assert forall|i: int| 0 <= i < ws.len() - 1 implies is_written(#[trigger] ws.skip(1)[i]) by {
        assert(ws.skip(1)[i] == ws[i + 1]);
    }
    if o.pax_only {
        assert forall|i: int| 0 <= i < ws.len() - 1 implies pax_data(
            (#[trigger] ws.skip(1)[i]).entry.extensions,
        ).len() < 0x2_0000_0000 by {
            assert(ws.skip(1)[i] == ws[i + 1]);
        }
    }
    assert forall|i: int| 0 <= i < ws.len() - 1 implies #[trigger] ks.skip(1)[i] <= ws.skip(
        1,
    )[i].data.len() by {
        assert(ks.skip(1)[i] == ks[i + 1] && ws.skip(1)[i] == ws[i + 1]);
    }
}

/// An archive that was written is read back, member by member, whatever is read
/// of the members' data in between. `between` is what the stream has still to
/// pass over. What stands behind the end of the archive is not read, unless
/// blocks of zeros are passed over; then nothing may stand there.
pub proof fn law_archive_is_read_back(
    a: ArchiveView,
    e: EntriesView,
    between: Seq<u8>,
    ws: Seq<Written>,
    tail: Seq<u8>,
    ks: Seq<nat>,
)
    requires
        is_fresh(e),
        between.len() == distance(a.pos, e.scan.next),
        are_allowed(a.options, a.usage, ws),
        are_written(a.options, ws),
        a.pos + between.len() + written_bytes(ws).len() <= u64::MAX,
        a.options.ignore_zeros ==> tail.len() == 0,
        are_within(ks, ws),
    ensures
        finds_all(a, e, between + written_bytes(ws) + termination() + tail, ws, ks),
{
    let parts = Seq::<Seq<Written>>::empty();
    assert(ws + archives_members(parts) =~= ws);
    lemma_archives_are_found(a, e, between, ws, parts, tail, ks);
    assert(between + written_bytes(ws) + termination() + archives_bytes(parts) + tail =~= between
        + written_bytes(ws) + termination() + tail);
}

/// Archives that were put behind each other are read back as one, where blocks
/// of zeros are passed over: the members of all of them, in their order, whatever
/// is read of the members' data in between.
pub proof fn law_concatenated_archives_are_read_back(
    a: ArchiveView,
    e: EntriesView,
    parts: Seq<Seq<Written>>,
    ks: Seq<nat>,
)
    requires
        is_fresh(e),
        a.pos == e.scan.next,
        a.options.ignore_zeros,
        parts.len() > 0,
        are_allowed(a.options, a.usage, archives_members(parts)),
        are_written(a.options, archives_members(parts)),
        a.pos + archives_bytes(parts).len() <= u64::MAX,
        are_within(ks, archives_members(parts)),
    ensures
        finds_all(a, e, archives_bytes(parts), archives_members(parts), ks),
{
    let none = Seq::<u8>::empty();
    lemma_archives_are_found(a, e, none, parts[0], parts.skip(1), none, ks);
    assert(archives_bytes(parts) =~= none + written_bytes(parts[0]) + termination()
        + archives_bytes(parts.skip(1)) + none);
}

/// Two archives, one behind the other, are read back as one, where blocks of
/// zeros are passed over.
pub proof fn law_two_archives_are_read_back(
    a: ArchiveView,
    e: EntriesView,
    ws: Seq<Written>,
    vs: Seq<Written>,
    ks: Seq<nat>,
)
    requires
        is_fresh(e),
        a.pos == e.scan.next,
        a.options.ignore_zeros,
        are_allowed(a.options, a.usage, ws + vs),
        are_written(a.options, ws + vs),
        a.pos + written_bytes(ws).len() + written_bytes(vs).len() + 2048 <= u64::MAX,
        are_within(ks, ws + vs),
    ensures
        finds_all(
            a,
            e,
            written_bytes(ws) + termination() + written_bytes(vs) + termination(),
            ws + vs,
            ks,
        ),
{
    let parts = seq![ws, vs];
    reveal_with_fuel(archives_bytes, 3);
    reveal_with_fuel(archives_members, 3);
    assert(parts.skip(1) =~= seq![vs]);
    assert(parts.skip(1).skip(1) =~= Seq::<Seq<Written>>::empty());
    assert(archives_members(parts) =~= ws + vs);
    assert(archives_bytes(parts) =~= written_bytes(ws) + termination() + written_bytes(vs)
        + termination());
    law_concatenated_archives_are_read_back(a, e, parts, ks);
}

/// How much of an archive the contents of a member without holes take.
proof fn lemma_taken_by_file(parts: Seq<EntryIo>, size: u64, left: nat)
    requires
        parts == seq![EntryIo::Data(size)],
        size <= left,
    ensures
        contents_read(parts, left) == size,
{
    assert(parts.skip(1) =~= Seq::<EntryIo>::empty());
    assert(contents_read(parts.skip(1), (left - size) as nat) == 0);
}

/// How much of each member's data is read where its contents are read.
pub open spec fn whole_data(ws: Seq<Written>) -> Seq<nat> {
    Seq::new(ws.len(), |i: int| ws[i].data.len())
}

/// An archive that was written is read back by a caller who reads the contents
/// of each member before asking for the next.
pub proof fn law_archive_is_read_with_contents(a: ArchiveView, e: EntriesView, ws: Seq<Written>)
    requires
        is_fresh(e),
        a.pos == e.scan.next,
        are_allowed(a.options, a.usage, ws),
        are_written(a.options, ws),
        a.pos + written_bytes(ws).len() <= u64::MAX,
    ensures
        finds_all(a, e, written_bytes(ws) + termination(), ws, whole_data(ws)),
{
    let none = Seq::<u8>::empty();
    law_archive_is_read_back(a, e, none, ws, none, whole_data(ws));
    assert(none + written_bytes(ws) + termination() + none =~= written_bytes(ws) + termination());
}

} // verus!
