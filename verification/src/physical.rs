//! The physical entries of an archive: how they are counted, how they are read as
//! they stand, and what comes where the archive ends.

use crate::archive::ArchiveView;
use crate::bytes::zeros;
use crate::entries::{chunk_taken, header_read, is_waiting, raw_chunk_taken, settled, EntriesView};
use crate::builder::termination;
use crate::entry::{contents, stored_len, unread, EntryIo, EntryView};
use crate::error::{excess, failure, ErrorView};
use crate::generate::padded_data;
use crate::header::header_size;
use crate::holes::lemma_stored_front;
use crate::member::{header_refusal, is_extension_block};
use crate::layout::{law_form_is_told_by_magic, says_ustar};
use crate::options::{entry_reserved, ArchiveOptions, UsageView};
use crate::roundtrip::{
    at_header, before_header, lemma_block, lemma_padding, lemma_skip, opened, read_on,
};
use crate::scan::{distance, wrap_add, ScanView};
use crate::stream::{contents_read, portion, said};
use vstd::prelude::*;

verus! {

/// An entry is within the limits if and only if it is not one header too many
/// and, where it describes another, its data is no longer than one extension may
/// be and than all of them may be together. A limit of zero on either rejects
/// every extension.
pub proof fn law_entry_is_within_limits(
    o: ArchiveOptions,
    u: UsageView,
    size: u64,
    is_extension: bool,
)
    ensures
        entry_reserved(o, u, size, is_extension).1 is Ok <==> {
            &&& o.max_physical_entries matches Some(most) ==> u.physical_entries < most
            &&& is_extension ==> (o.max_extension_entry_size matches Some(most) ==> 0 < most && size
                <= most)
            &&& is_extension ==> (o.max_total_extension_size matches Some(most) ==> 0 < most
                && u.extension_bytes + size <= most)
        },
{
}

/// A header within its limit is counted once, and the data of an extension by its
/// length; what is not limited is not counted, and neither is what is refused.
pub proof fn law_entry_is_counted(
    o: ArchiveOptions,
    u: UsageView,
    size: u64,
    is_extension: bool,
)
    ensures
        ({
            let (after, done) = entry_reserved(o, u, size, is_extension);
            let header_fits = o.max_physical_entries matches Some(most) ==> u.physical_entries < most;
            &&& after.physical_entries == u.physical_entries + (if o.max_physical_entries is Some
                && header_fits {
                1int
            } else {
                0
            })
            &&& after.extension_bytes == u.extension_bytes + (if o.max_total_extension_size is Some
                && is_extension && done is Ok {
                size as int
            } else {
                0
            })
        }),
{
}

/// An entry that is refused is refused with the words for the first limit that it
/// breaks, as invalid data.
pub proof fn law_limit_is_told(o: ArchiveOptions, u: UsageView, size: u64, is_extension: bool)
    ensures
        entry_reserved(o, u, size, is_extension).1 matches Err(err) ==> {
            if o.max_physical_entries matches Some(most) && u.physical_entries >= most {
                err == excess("archive physical entry limit exceeded"@)
            } else if o.max_extension_entry_size matches Some(most) && (most == 0 || size > most) {
                err == excess("archive extension entry size limit exceeded"@)
            } else {
                err == excess("archive total extension size limit exceeded"@)
            }
        },
{
}

/// Which entries count as extensions: long names, long link targets and global
/// pax records by their typeflag alone, pax records for one member only in a USTAR
/// header.
pub proof fn law_extensions_by_typeflag(b: Seq<u8>)
    requires
        b.len() == 512,
    ensures
        is_extension_block(b) <==> b[156] == 'L' as u8 || b[156] == 'K' as u8 || b[156] == 'g' as u8
            || b[156] == 'x' as u8 && says_ustar(b),
{
    law_form_is_told_by_magic(b);
}

/// A stream of physical entries yields every entry as it stands, whatever its
/// kind: with its own header and the size that the header says, and its data
/// behind it. Nothing is applied to it and no map is read.
pub proof fn law_physical_entry_is_read(
    o: ArchiveOptions,
    u: UsageView,
    s: ScanView,
    b: Seq<u8>,
)
    requires
        s.open,
        s.block.len() == 0,
        b.len() == 512,
        b != zeros(512),
        header_refusal(o, b) is None,
        header_size(b) matches Ok(size) && entry_reserved(o, u, size, is_extension_block(b)).1 is Ok
            && s.next + 512 + size + 511 <= u64::MAX,
    ensures
        raw_chunk_taken(o, u, s, b) matches (counted, after, Some(Some(Ok(m)))) && {
            &&& m.header == b
            &&& Ok::<u64, ErrorView>(m.size) == header_size(b)
            &&& m.data == seq![EntryIo::Data(m.size)]
            &&& m.header_pos == s.next
            &&& m.file_pos == s.next + 512
            &&& m.long_pathname is None && m.long_linkname is None && m.pax_extensions is None
            &&& m.pax_username is None && m.pax_groupname is None
            &&& after.next == s.next + 512 + (m.size + 511) / 512 * 512
            &&& !after.open
            &&& counted == entry_reserved(o, u, m.size, is_extension_block(b)).0
        },
{
    assert(s.block + b =~= b);
    assert(wrap_add(s.next, 512) == s.next + 512);
}

/// Where blocks of zeros are not passed over, one such block ends the archive,
/// whatever follows it; where something waits for a member, that is a failure.
pub proof fn law_zero_block_ends_archive(
    a: ArchiveView,
    e: EntriesView,
    between: Seq<u8>,
    tail: Seq<u8>,
)
    requires
        before_header(e),
        between.len() == distance(a.pos, e.scan.next),
        !a.options.ignore_zeros,
    ensures
        ({
            let waits = e.longname.ready || e.longlink.ready || e.pax.ready;
            let out = said(a, e, between + zeros(512) + tail).3;
            &&& !waits ==> out is None
            &&& waits ==> (out matches Some(Err(_)))
        }),
{
    lemma_zero_block(a, e, between, tail);
}

/// A block of zeros is a failure where something waits for a member, also where
/// such blocks are passed over.
pub proof fn law_zero_block_does_not_hide_what_waits(
    a: ArchiveView,
    e: EntriesView,
    between: Seq<u8>,
    tail: Seq<u8>,
)
    requires
        before_header(e),
        between.len() == distance(a.pos, e.scan.next),
        e.longname.ready || e.longlink.ready || e.pax.ready,
    ensures
        said(a, e, between + zeros(512) + tail).3 matches Some(Err(_)),
{
    lemma_zero_block(a, e, between, tail);
}

proof fn lemma_zero_block(a: ArchiveView, e: EntriesView, between: Seq<u8>, tail: Seq<u8>)
    requires
        before_header(e),
        between.len() == distance(a.pos, e.scan.next),
        !a.options.ignore_zeros || is_waiting(e),
    ensures
        said(a, e, between + zeros(512) + tail).3 == (if is_waiting(e) {
            if a.options.pax_only && e.pax.ready {
                Some(
                    Err::<EntryView, ErrorView>(
                        failure("local pax header is not followed by an archive entry"@),
                    ),
                )
            } else {
                Some(
                    Err::<EntryView, ErrorView>(
                        failure("extension entry was not followed by a member"@),
                    ),
                )
            }
        } else {
            None
        }),
{
    let a1 = read_on(a, between.len());
    let e1 = opened(e);
    assert(between + zeros(512) + tail =~= between + (zeros(512) + tail));
    lemma_skip(a, e, between, zeros(512) + tail);
    lemma_block(a1, e1, zeros(512), tail);
    reveal(header_read);
}

/// Where the input ends in front of a header, the archive is over; where something
/// waits for a member, that is a failure.
pub proof fn law_input_ends_archive(a: ArchiveView, e: EntriesView, between: Seq<u8>)
    requires
        before_header(e),
        between.len() == distance(a.pos, e.scan.next),
    ensures
        ({
            let waits = e.longname.ready || e.longlink.ready || e.pax.ready;
            let out = said(a, e, between).3;
            &&& !waits ==> out is None
            &&& waits ==> (out matches Some(Err(_)))
        }),
{
    let none = Seq::<u8>::empty();
    let a1 = read_on(a, between.len());
    let e1 = opened(e);
    assert(between + none =~= between);
    lemma_skip(a, e, between, none);
    reveal(said);
    reveal(settled);
    reveal(chunk_taken);
    assert(settled(a1.options, a1.pos, e1).0 =~= e1);
    assert(none.take(0) =~= none);
}

/// Where the input ends within a header, or before what is to be passed over has
/// come to its end, the stream fails.
pub proof fn law_cut_input_is_a_failure(
    a: ArchiveView,
    e: EntriesView,
    between: Seq<u8>,
    part: Seq<u8>,
)
    requires
        before_header(e),
        between.len() == distance(a.pos, e.scan.next),
        0 < part.len() < 512,
    ensures
        said(a, e, between + part).3 == Some(
            Err::<EntryView, ErrorView>(failure("failed to read entire block"@)),
        ),
        forall|k: int|
            0 <= k < between.len() ==> said(a, e, #[trigger] between.take(k)).3 == Some(
                Err::<EntryView, ErrorView>(failure("unexpected EOF during skip"@)),
            ),
{
    let none = Seq::<u8>::empty();
    let a1 = read_on(a, between.len());
    let e1 = opened(e);
    lemma_skip(a, e, between, part);
    lemma_cut_header(a1, e1, part);
    assert forall|k: int| 0 <= k < between.len() implies said(
        a,
        e,
        #[trigger] between.take(k),
    ).3 == Some(Err::<EntryView, ErrorView>(failure("unexpected EOF during skip"@))) by {
        lemma_cut_skip(a, e, between.take(k));
    }
}

proof fn lemma_cut_header(a: ArchiveView, e: EntriesView, part: Seq<u8>)
    requires
        at_header(e),
        0 < part.len() < 512,
    ensures
        said(a, e, part).3 == Some(
            Err::<EntryView, ErrorView>(failure("failed to read entire block"@)),
        ),
{
    reveal(said);
    reveal(settled);
    reveal(chunk_taken);
    let none = Seq::<u8>::empty();
    assert(settled(a.options, a.pos, e).0 =~= e);
    assert(portion(a.pos, e, part) == part.len());
    assert(part.take(part.len() as int) =~= part);
    assert(part.skip(part.len() as int) =~= none);
    let e1 = EntriesView {
        scan: ScanView { block: e.scan.block + part, ..e.scan },
        ..e
    };
    let a1 = read_on(a, part.len());
    assert(said(a, e, part) == said(a1, e1, none));
    assert(settled(a1.options, a1.pos, e1).0 =~= e1);
    assert(none.take(0) =~= none);
}

proof fn lemma_cut_skip(a: ArchiveView, e: EntriesView, part: Seq<u8>)
    requires
        before_header(e),
        part.len() < distance(a.pos, e.scan.next),
    ensures
        said(a, e, part).3 == Some(
            Err::<EntryView, ErrorView>(failure("unexpected EOF during skip"@)),
        ),
{
    reveal(said);
    reveal(settled);
    reveal(chunk_taken);
    let none = Seq::<u8>::empty();
    assert(settled(a.options, a.pos, e).0 =~= e);
    assert(none.take(0) =~= none);
    if part.len() > 0 {
        assert(portion(a.pos, e, part) == part.len());
        assert(part.take(part.len() as int) =~= part);
        assert(part.skip(part.len() as int) =~= none);
        let a1 = read_on(a, part.len());
        assert(said(a, e, part) == said(a1, e, none));
        assert(distance(a1.pos, e.scan.next) == distance(a.pos, e.scan.next) - part.len());
        assert(settled(a1.options, a1.pos, e).0 =~= e);
    } else {
        assert(part =~= none);
    }
}

/// The contents of a member are those of its parts, one after the other: zero
/// bytes for a hole, and for data the next bytes of the archive, as far as the
/// archive has them.
pub proof fn law_contents_of_parts(front: Seq<EntryIo>, n: u64, stored: Seq<u8>)
    ensures
        contents(seq![EntryIo::Pad(n)] + front, stored) == Seq::new(n as nat, |i: int| 0u8)
            + contents(front, stored),
        n <= stored.len() ==> contents(seq![EntryIo::Data(n)] + front, stored) == stored.subrange(
            0,
            n as int,
        ) + contents(front, stored.subrange(n as int, stored.len() as int)),
        n > stored.len() ==> contents(seq![EntryIo::Data(n)] + front, stored) == stored + contents(
            front,
            Seq::empty(),
        ),
        contents(Seq::empty(), stored) == Seq::<u8>::empty(),
{
    let pad = seq![EntryIo::Pad(n)] + front;
    let data = seq![EntryIo::Data(n)] + front;
    assert(pad.skip(1) =~= front);
    assert(data.skip(1) =~= front);
    assert(zeros(n as nat) =~= Seq::new(n as nat, |i: int| 0u8));
}

/// Reading the contents of a member takes as much of the archive as its data parts
/// hold, or all that is left where that is less.
pub proof fn law_contents_are_taken(data: Seq<EntryIo>, left: nat)
    ensures
        contents_read(data, left) == (if stored_len(data) <= left {
            stored_len(data)
        } else {
            left
        }),
    decreases data.len(),
{
    if data.len() > 0 {
        lemma_stored_front(data);
        match data[0] {
            EntryIo::Pad(_) => law_contents_are_taken(data.skip(1), left),
            EntryIo::Data(n) => if n <= left {
                law_contents_are_taken(data.skip(1), (left - n) as nat)
            } else {
                law_contents_are_taken(data.skip(1), 0)
            },
        }
    }
}

/// Empty parts make no difference to the contents, and the next part to read is
/// never empty.
pub proof fn law_empty_parts_do_not_count(data: Seq<EntryIo>, stored: Seq<u8>)
    ensures
        contents(unread(data), stored) == contents(data, stored),
        unread(data).len() > 0 ==> unread(data)[0] != EntryIo::Pad(0) && unread(data)[0]
            != EntryIo::Data(0),
        unread(data).len() == 0 ==> contents(data, stored).len() == 0,
    decreases data.len(),
{
    if data.len() > 0 && crate::entry::io_len(data[0]) == 0 {
        law_empty_parts_do_not_count(data.skip(1), stored);
        assert(stored.skip(0) =~= stored);
        assert(contents(data, stored) =~= contents(data.skip(1), stored));
    }
}

/// What is left to read of a member, once `n` bytes of its first part were read, is
/// the rest of its contents.
pub proof fn law_parts_are_read_on(data: Seq<EntryIo>, n: u64, stored: Seq<u8>)
    requires
        data.len() > 0,
        0 < n <= crate::entry::io_len(data[0]),
        data[0] is Data ==> crate::entry::io_len(data[0]) <= stored.len(),
    ensures
        ({
            let left = data.update(
                0,
                crate::entry::io_with_len(data[0], (crate::entry::io_len(data[0]) - n) as u64),
            );
            let rest = if data[0] is Data {
                stored.skip(n as int)
            } else {
                stored
            };
            contents(left, rest) == contents(data, stored).skip(n as int)
        }),
{
    let left = data.update(
        0,
        crate::entry::io_with_len(data[0], (crate::entry::io_len(data[0]) - n) as u64),
    );
    assert(left.skip(1) =~= data.skip(1));
    match data[0] {
        EntryIo::Pad(m) => {
            assert(zeros(m as nat).skip(n as int) =~= zeros((m - n) as nat));
            assert(contents(left, stored) =~= contents(data, stored).skip(n as int));
        },
        EntryIo::Data(m) => {
            let rest = stored.skip(n as int);
            assert(rest.skip(m - n) =~= stored.skip(m as int));
            assert(rest.take(m - n) =~= stored.take(m as int).skip(n as int));
            assert(contents(left, rest) =~= contents(data, stored).skip(n as int));
        },
    }
}

/// The data of a member fills whole blocks, with zero bytes behind it, and an
/// archive ends in two blocks of zeros.
pub proof fn law_data_fills_blocks(data: Seq<u8>)
    ensures
        padded_data(data).len() % 512 == 0,
        data.len() <= padded_data(data).len() < data.len() + 512,
        forall|i: int| 0 <= i < data.len() ==> #[trigger] padded_data(data)[i] == data[i],
        forall|i: int|
            data.len() <= i < padded_data(data).len() ==> #[trigger] padded_data(data)[i] == 0,
        termination() == Seq::new(1024, |i: int| 0u8),
{
    lemma_padding(data.len());
    assert(termination() =~= Seq::new(1024, |i: int| 0u8));
}

/// A block of zeros ends a stream of physical entries too, unless such blocks are
/// passed over; then the next header is looked for in the next block.
pub proof fn law_physical_zero_block(o: ArchiveOptions, u: UsageView, s: ScanView)
    requires
        s.open,
        s.block.len() == 0,
        s.next + 512 <= u64::MAX,
    ensures
        ({
            let (counted, after, output) = raw_chunk_taken(o, u, s, zeros(512));
            &&& counted == u
            &&& !o.ignore_zeros ==> output == Some(None::<Result<EntryView, ErrorView>>)
            &&& o.ignore_zeros ==> output is None && after.next == s.next + 512 && after.open
                && after.block.len() == 0
        }),
{
    assert(s.block + zeros(512) =~= zeros(512));
    assert(wrap_add(s.next, 512) == s.next + 512);
}

/// Where the input ends within the map of a sparse file, the stream fails for good.
pub proof fn law_cut_map_is_a_failure(a: ArchiveView, e: EntriesView, part: Seq<u8>)
    requires
        crate::entries::entries_wf(e),
        !e.failed,
        e.sparse is Some,
        e.sparse->0.needs_continuation,
        e.scan.block.len() == 0,
        part.len() < 512,
    ensures
        said(a, e, part).3 matches Some(Err(_)),
        said(a, e, part).1.failed,
{
    reveal(said);
    reveal(settled);
    reveal(chunk_taken);
    let none = Seq::<u8>::empty();
    let o = a.options;
    let s = e.sparse->0;
    assert(none.take(0) =~= none);
    if let Ok(state) = crate::sparse::continuation_reserve(o, s) {
        let ready = EntriesView { sparse: Some(state), ..e };
        assert(settled(o, a.pos, e).0 =~= ready);
        if part.len() > 0 {
            assert(portion(a.pos, ready, part) == part.len());
            assert(part.take(part.len() as int) =~= part);
            assert(part.skip(part.len() as int) =~= none);
            let e1 = EntriesView {
                scan: ScanView { block: e.scan.block + part, ..e.scan },
                ..ready
            };
            let a1 = read_on(a, part.len());
            assert(crate::entries::entries_wf(e1));
            assert(said(a, e, part) == said(a1, e1, none));
            assert(crate::sparse::continuation_reserve(o, state) == Ok::<
                crate::sparse::SparseView,
                ErrorView,
            >(state));
            assert(settled(o, a1.pos, e1).0 =~= e1);
        } else {
            assert(part =~= none);
        }
    }
}

} // verus!
