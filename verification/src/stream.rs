//! What a stream makes of an archive, however it is read, and archives that
//! are in memory.

use crate::archive::{Archive, ArchiveView};
use crate::bytes::{append_range, append_zeros, copy_range, zeros};
use crate::entries::{
    chunk_taken, continuation_taken, described, entries_wf, header_read, is_waiting, output_view, room, settled,
    stepped, Entries, EntriesView, Output, Step, StepView,
};
use crate::entry::{contents, io_len, unread, Entry, EntryIo, EntryView};
use crate::error::{Error, ErrorView};
use crate::header::header_size;
use crate::member::is_extension_block;
use crate::options::{law_limits_are_kept, within_limits, ArchiveOptions, UsageView};
use crate::scan::{
    ask, block_taken, distance, raw_block, scan_taken, wrap_add, RawTurnView, ScanTurnView,
};
use crate::sparse::{
    advanced, lemma_map_entries_consistent, sparse_blank, SparseView,
};
use vstd::prelude::*;

verus! {

/// How many bytes a stream can be handed at once.
pub open spec fn portion(pos: u64, e: EntriesView, rest: Seq<u8>) -> int {
    if room(pos, e) <= rest.len() {
        room(pos, e) as int
    } else {
        rest.len() as int
    }
}

/// Whether a stream waits for a part of an extension entry.
pub open spec fn wants_extension(e: EntriesView) -> bool {
    e.sparse is None && (e.pending matches Some((_, left)) && left > 0)
}

/// What a stream says next, where `rest` is what was not read yet of the
/// archive: the archive and the stream after that, what is then left to read,
/// and what the stream says. The stream is handed as much as it can take.
#[verifier::opaque]
pub open spec fn said(a: ArchiveView, e: EntriesView, rest: Seq<u8>) -> (
    ArchiveView,
    EntriesView,
    Seq<u8>,
    Output,
)
    decreases
            rest.len(),
            if wants_extension(e) {
                1nat
            } else {
                0nat
            },
    when entries_wf(e)
{
    proof {
        reveal(settled);
        reveal(chunk_taken);
    }
    let (ready, step) = settled(a.options, a.pos, e);
    let k = portion(a.pos, ready, rest);
    let (usage, taken, output) = chunk_taken(a.options, a.usage, ready, rest.take(k));
    let read = ArchiveView { usage, pos: wrap_add(a.pos, k as nat), ..a };
    match (step, output) {
        (StepView::Ready(out), _) => (a, ready, rest, out),
        (StepView::Read(_), Some(out)) => (read, taken, rest.skip(k), out),
        (StepView::Read(_), None) => said(read, taken, rest.skip(k)),
    }
}

/// A stream that does what it can stays well formed; where it then asks for
/// bytes, it can take some, and there is nothing more that it can do.
pub proof fn lemma_settled(o: ArchiveOptions, pos: u64, e: EntriesView)
    requires
        entries_wf(e),
    ensures
        entries_wf(settled(o, pos, e).0),
        settled(o, pos, e).1 is Read ==> room(pos, settled(o, pos, e).0) > 0 && settled(
            o,
            pos,
            settled(o, pos, e).0,
        ) == settled(o, pos, e),
{
    reveal(settled);
    let (ready, step) = settled(o, pos, e);
    if step is Read {
        assert(settled(o, pos, ready).0 =~= ready);
    }
}

/// A stream that is handed bytes stays well formed.
pub proof fn lemma_chunk_taken(o: ArchiveOptions, u: UsageView, pos: u64, e: EntriesView, chunk: Seq<u8>)
    requires
        entries_wf(e),
        chunk.len() <= room(pos, e),
    ensures
        entries_wf(chunk_taken(o, u, e, chunk).1),
{
    reveal(chunk_taken);
    if let Some(s) = e.sparse {
        let (scan, turn) = block_taken(e.scan, chunk);
        if let ScanTurnView::Block(b) = turn {
            if let Ok((after, file_pos)) = advanced(e.scan.next, s.entry.file_pos) {
                let moved = SparseView {
                    entry: EntryView { file_pos, ..s.entry },
                    continuation_reserved: false,
                    ..s
                };
                lemma_map_entries_consistent(o, moved, b, 0, 21);
            }
        }
    } else if e.pending is None {
        let (scan, turn) = scan_taken(e.scan, chunk);
        if let ScanTurnView::Block(b) = turn {
            let moved = EntriesView { scan, ..e };
            lemma_header_read(o, u, moved, b);
        }
    }
}

/// A stream that takes a header stays well formed.
pub proof fn lemma_header_read(o: ArchiveOptions, u: UsageView, e: EntriesView, b: Seq<u8>)
    requires
        entries_wf(e),
    ensures
        entries_wf(header_read(o, u, e, b).1),
{
    reveal(header_read);
    let (counted, scan, turn) = raw_block(o, u, e.scan, b, e.pax_data, true, is_waiting(e));
    if let RawTurnView::Member(entry) = turn {
        let m = described(EntriesView { scan, ..e }, entry);
        lemma_map_entries_consistent(o, sparse_blank(m), m.header, 386, 4);
    }
}

/// Whether it is the same to a stream to be handed bytes at once or in two
/// parts.
pub open spec fn is_same_in_two(
    o: ArchiveOptions,
    u: UsageView,
    pos: u64,
    e: EntriesView,
    first: Seq<u8>,
    second: Seq<u8>,
) -> bool {
    let (u1, e1, out1) = chunk_taken(o, u, e, first);
    let pos1 = wrap_add(pos, first.len());
    &&& out1 is None
    &&& u1 == u
    &&& entries_wf(e1)
    &&& settled(o, pos1, e1).0 == e1
    &&& settled(o, pos1, e1).1 is Read
    &&& room(pos1, e1) == room(pos, e) - first.len()
    &&& chunk_taken(o, u, e1, second) == chunk_taken(o, u, e, first + second)
}

/// Whether a stream asks for at least so many bytes as `first` and `second`.
pub open spec fn takes_two(
    o: ArchiveOptions,
    pos: u64,
    e: EntriesView,
    first: Seq<u8>,
    second: Seq<u8>,
) -> bool {
    &&& entries_wf(e)
    &&& settled(o, pos, e).0 == e
    &&& settled(o, pos, e).1 is Read
    &&& first.len() > 0
    &&& second.len() > 0
    &&& first.len() + second.len() <= room(pos, e)
}

proof fn lemma_continuation_in_two(
    o: ArchiveOptions,
    u: UsageView,
    pos: u64,
    e: EntriesView,
    first: Seq<u8>,
    second: Seq<u8>,
)
    requires
        takes_two(o, pos, e, first, second),
        e.sparse is Some,
    ensures
        is_same_in_two(o, u, pos, e, first, second),
{
    reveal(settled);
    reveal(chunk_taken);
    let (u1, e1, out1) = chunk_taken(o, u, e, first);
    let pos1 = wrap_add(pos, first.len());
    let both = first + second;
    assert(e.scan.block + first + second =~= e.scan.block + both);
    let s = e.sparse->0;
    assert(block_taken(e1.scan, second) == block_taken(e.scan, both));
    assert(e1 =~= EntriesView { scan: e1.scan, ..e });
    assert(continuation_taken(o, e1, s, second).0 =~= continuation_taken(o, e, s, both).0);
}

proof fn lemma_extension_in_two(
    o: ArchiveOptions,
    u: UsageView,
    pos: u64,
    e: EntriesView,
    first: Seq<u8>,
    second: Seq<u8>,
)
    requires
        takes_two(o, pos, e, first, second),
        e.sparse is None,
        e.pending is Some,
    ensures
        is_same_in_two(o, u, pos, e, first, second),
{
    reveal(settled);
    reveal(chunk_taken);
    let (u1, e1, out1) = chunk_taken(o, u, e, first);
    let pos1 = wrap_add(pos, first.len());
    let both = first + second;
    assert(e.longname.data + first + second =~= e.longname.data + both);
    assert(e.longlink.data + first + second =~= e.longlink.data + both);
    assert(e.pax.data + first + second =~= e.pax.data + both);
    assert(chunk_taken(o, u, e1, second).1 =~= chunk_taken(o, u, e, both).1);
}

proof fn lemma_block_in_two(
    o: ArchiveOptions,
    u: UsageView,
    pos: u64,
    e: EntriesView,
    first: Seq<u8>,
    second: Seq<u8>,
)
    requires
        takes_two(o, pos, e, first, second),
        e.sparse is None,
        e.pending is None,
        e.scan.open,
    ensures
        is_same_in_two(o, u, pos, e, first, second),
{
    reveal(settled);
    reveal(chunk_taken);
    let (u1, e1, out1) = chunk_taken(o, u, e, first);
    let pos1 = wrap_add(pos, first.len());
    let both = first + second;
    assert(e.scan.block + first + second =~= e.scan.block + both);
    assert(scan_taken(e1.scan, second) == scan_taken(e.scan, both));
    let scan = scan_taken(e.scan, both).0;
    assert(EntriesView { scan, ..e1 } =~= EntriesView { scan, ..e });
}

proof fn lemma_skip_in_two(
    o: ArchiveOptions,
    u: UsageView,
    pos: u64,
    e: EntriesView,
    first: Seq<u8>,
    second: Seq<u8>,
)
    requires
        takes_two(o, pos, e, first, second),
        e.sparse is None,
        e.pending is None,
        !e.scan.open,
    ensures
        is_same_in_two(o, u, pos, e, first, second),
{
    reveal(settled);
    reveal(chunk_taken);
    let (u1, e1, out1) = chunk_taken(o, u, e, first);
    let pos1 = wrap_add(pos, first.len());
    let both = first + second;
    assert(e1 =~= e);
    assert(distance(pos1, e.scan.next) == distance(pos, e.scan.next) - first.len());
}

/// It is the same to a stream to be handed bytes at once or in two parts.
pub proof fn lemma_taken_in_two(
    o: ArchiveOptions,
    u: UsageView,
    pos: u64,
    e: EntriesView,
    first: Seq<u8>,
    second: Seq<u8>,
)
    requires
        takes_two(o, pos, e, first, second),
    ensures
        is_same_in_two(o, u, pos, e, first, second),
{
    if e.sparse is Some {
        lemma_continuation_in_two(o, u, pos, e, first, second);
    } else if e.pending is Some {
        lemma_extension_in_two(o, u, pos, e, first, second);
    } else if e.scan.open {
        lemma_block_in_two(o, u, pos, e, first, second);
    } else {
        lemma_skip_in_two(o, u, pos, e, first, second);
    }
}

/// What a stream says does not depend on how much it is handed at once: it says
/// the same where it is handed the first `k` bytes of what it can take, and the
/// others later.
pub proof fn law_chunks_do_not_matter(a: ArchiveView, e: EntriesView, rest: Seq<u8>, k: int)
    requires
        entries_wf(e),
        settled(a.options, a.pos, e).0 == e,
        settled(a.options, a.pos, e).1 is Read,
        0 <= k <= portion(a.pos, e, rest),
        k == 0 ==> rest.len() == 0,
    ensures
        said(a, e, rest) == (match stepped(a, e, Some(rest.take(k))) {
            (read, after, StepView::Ready(out)) => (read, after, rest.skip(k), out),
            (read, after, StepView::Read(_)) => said(read, after, rest.skip(k)),
        }),
{
    reveal(said);
    reveal(stepped);
    let o = a.options;
    let u = a.usage;
    let all = portion(a.pos, e, rest);
    let first = rest.take(k);
    let (u1, e1, out1) = chunk_taken(o, u, e, first);
    let a1 = ArchiveView { usage: u1, pos: wrap_add(a.pos, k as nat), ..a };
    lemma_settled(o, a.pos, e);
    lemma_chunk_taken(o, u, a.pos, e, first);
    lemma_settled(o, a1.pos, e1);
    if k == all {
        if out1 is None {
            lemma_said_settled(a1, e1, rest.skip(k));
        }
    } else {
        let second = rest.subrange(k, all);
        lemma_taken_in_two(o, u, a.pos, e, first, second);
        assert(first + second =~= rest.take(all));
        let left = rest.skip(k);
        assert(portion(a1.pos, e1, left) == all - k);
        assert(left.take(all - k) =~= second);
        assert(left.skip(all - k) =~= rest.skip(all));
        let (u2, e2, out2) = chunk_taken(o, u, e, rest.take(all));
        let at_once = ArchiveView { usage: u2, pos: wrap_add(a.pos, all as nat), ..a };
        let in_two = ArchiveView { usage: u2, pos: wrap_add(a1.pos, (all - k) as nat), ..a1 };
        assert(at_once =~= in_two);
        lemma_said_settled(a1, e1, left);
    }
}

/// A stream says the same once it has done what it can.
pub proof fn lemma_said_settled(a: ArchiveView, e: EntriesView, rest: Seq<u8>)
    requires
        entries_wf(e),
    ensures
        settled(a.options, a.pos, e).1 is Read ==> said(a, e, rest) == said(
            a,
            settled(a.options, a.pos, e).0,
            rest,
        ),
        settled(a.options, a.pos, e).1 matches StepView::Ready(out) ==> said(a, e, rest) == (
            a,
            settled(a.options, a.pos, e).0,
            rest,
            out,
        ),
{
    reveal(said);
    lemma_settled(a.options, a.pos, e);
}

/// A stream that has failed for good says nothing more, and reads nothing more.
pub proof fn law_failed_stream_is_over(a: ArchiveView, e: EntriesView, rest: Seq<u8>)
    requires
        entries_wf(e),
        e.failed,
    ensures
        said(a, e, rest) == (a, e, rest, None::<Result<EntryView, ErrorView>>),
{
    reveal(said);
    reveal(settled);
}

/// Positions are added up one by one or at once.
proof fn lemma_wrap_twice(a: u64, k: nat, m: nat)
    ensures
        wrap_add(wrap_add(a, k), m) == wrap_add(a, k + m),
        wrap_add(a, 0) == a,
{
}

/// A stream reads an archive from front to back, and counts every byte of it
/// once; it stays well formed.
#[verifier::spinoff_prover]
pub proof fn law_reads_from_front_to_back(a: ArchiveView, e: EntriesView, rest: Seq<u8>)
    requires
        entries_wf(e),
    ensures
        ({
            let (read, after, left, _) = said(a, e, rest);
            let n = rest.len() - left.len();
            &&& n >= 0
            &&& left == rest.skip(n)
            &&& read.pos == wrap_add(a.pos, n as nat)
            &&& read.options == a.options
            &&& entries_wf(after)
        }),
    decreases
            rest.len(),
            if wants_extension(e) {
                1nat
            } else {
                0nat
            },
{
    reveal(said);
    let o = a.options;
    let (ready, step) = settled(o, a.pos, e);
    lemma_settled(o, a.pos, e);
    assert(rest.skip(0) =~= rest);
    if step is Read {
        let k = portion(a.pos, ready, rest);
        let (usage, taken, output) = chunk_taken(o, a.usage, ready, rest.take(k));
        lemma_chunk_taken(o, a.usage, a.pos, ready, rest.take(k));
        if output is None {
            let read = ArchiveView { usage, pos: wrap_add(a.pos, k as nat), ..a };
            if k == 0 {
                lemma_at_the_end(o, a.usage, a.pos, e, rest.take(k));
                lemma_taken_at_the_end(o, a.usage, a.pos, e, rest.take(k));
            }
            law_reads_from_front_to_back(read, taken, rest.skip(k));
            let left = said(read, taken, rest.skip(k)).2;
            let m = rest.len() - k - left.len();
            assert(rest.skip(k).skip(m) =~= rest.skip(k + m));
            lemma_wrap_twice(a.pos, k as nat, m as nat);
            assert(said(a, e, rest) == said(read, taken, rest.skip(k)));
        } else {
            assert(said(a, e, rest).2 == rest.skip(k));
        }
    } else {
        lemma_wrap_twice(a.pos, 0, 0);
    }
}

/// What a stream reads stays within the limits of its archive.
#[verifier::spinoff_prover]
pub proof fn law_reading_keeps_limits(a: ArchiveView, e: EntriesView, rest: Seq<u8>)
    requires
        entries_wf(e),
        within_limits(a.options, a.usage),
    ensures
        within_limits(a.options, said(a, e, rest).0.usage),
    decreases
            rest.len(),
            if wants_extension(e) {
                1nat
            } else {
                0nat
            },
{
    reveal(said);
    let o = a.options;
    let (ready, step) = settled(o, a.pos, e);
    lemma_settled(o, a.pos, e);
    if step is Read {
        let k = portion(a.pos, ready, rest);
        let (usage, taken, output) = chunk_taken(o, a.usage, ready, rest.take(k));
        lemma_chunk_taken(o, a.usage, a.pos, ready, rest.take(k));
        lemma_chunk_keeps_limits(o, a.usage, ready, rest.take(k));
        if output is None {
            let read = ArchiveView { usage, pos: wrap_add(a.pos, k as nat), ..a };
            if k == 0 {
                lemma_at_the_end(o, a.usage, a.pos, e, rest.take(k));
                lemma_taken_at_the_end(o, a.usage, a.pos, e, rest.take(k));
            }
            law_reading_keeps_limits(read, taken, rest.skip(k));
        }
    }
}

proof fn lemma_chunk_keeps_limits(o: ArchiveOptions, u: UsageView, e: EntriesView, chunk: Seq<u8>)
    requires
        within_limits(o, u),
    ensures
        within_limits(o, chunk_taken(o, u, e, chunk).0),
{
    reveal(chunk_taken);
    reveal(header_read);
    if e.sparse is None && e.pending is None {
        if let ScanTurnView::Block(b) = scan_taken(e.scan, chunk).1 {
            if let Ok(size) = header_size(b) {
                law_limits_are_kept(o, u, size, is_extension_block(b));
            }
        }
    }
}

/// At the end of the archive nothing more of an extension entry is asked for.
proof fn lemma_taken_at_the_end(
    o: ArchiveOptions,
    u: UsageView,
    pos: u64,
    e: EntriesView,
    chunk: Seq<u8>,
)
    requires
        entries_wf(e),
        settled(o, pos, e).1 is Read,
        chunk.len() == 0,
        chunk_taken(o, u, settled(o, pos, e).0, chunk).2 is None,
    ensures
        !wants_extension(chunk_taken(o, u, settled(o, pos, e).0, chunk).1),
{
    reveal(settled);
    reveal(chunk_taken);
}

/// How many of the bytes of the archive the contents of a member take.
pub open spec fn contents_read(data: Seq<EntryIo>, left: nat) -> nat
    decreases data.len(),
{
    if data.len() == 0 {
        0
    } else {
        match data[0] {
            EntryIo::Pad(_) => contents_read(data.skip(1), left),
            EntryIo::Data(n) => if n <= left {
                n as nat + contents_read(data.skip(1), (left - n) as nat)
            } else {
                left + contents_read(data.skip(1), 0)
            },
        }
    }
}

/// Parts and the bytes in them.
spec fn work(data: Seq<EntryIo>) -> nat
    decreases data.len(),
{
    if data.len() == 0 {
        0
    } else {
        1 + io_len(data[0]) as nat + work(data.skip(1))
    }
}

proof fn lemma_unread(data: Seq<EntryIo>, stored: Seq<u8>)
    ensures
        contents(unread(data), stored) == contents(data, stored),
        contents_read(unread(data), stored.len()) == contents_read(data, stored.len()),
        work(unread(data)) <= work(data),
        unread(data).len() > 0 ==> io_len(unread(data)[0]) > 0,
    decreases data.len(),
{
    if data.len() > 0 && io_len(data[0]) == 0 {
        lemma_unread(data.skip(1), stored);
        assert(stored.take(0) + contents(data.skip(1), stored) =~= contents(data.skip(1), stored));
        assert(zeros(0) + contents(data.skip(1), stored) =~= contents(data.skip(1), stored));
        assert(stored.skip(0) =~= stored);
    }
}

proof fn lemma_pad_read(data: Seq<EntryIo>, stored: Seq<u8>)
    requires
        data.len() > 0,
        data[0] is Pad,
        io_len(data[0]) > 0,
    ensures
        ({
            let left = data.update(0, EntryIo::Pad(0));
            &&& contents(data, stored) == zeros(io_len(data[0]) as nat) + contents(left, stored)
            &&& contents_read(data, stored.len()) == contents_read(left, stored.len())
            &&& work(left) < work(data)
        }),
{
    let left = data.update(0, EntryIo::Pad(0));
    assert(left.skip(1) =~= data.skip(1));
    assert(zeros(0) + contents(data.skip(1), stored) =~= contents(data.skip(1), stored));
}

proof fn lemma_data_read(data: Seq<EntryIo>, stored: Seq<u8>, n: u64, k: int)
    requires
        data.len() > 0,
        data[0] == EntryIo::Data(n),
        n > 0,
        k == (if n < stored.len() {
            n as int
        } else {
            stored.len() as int
        }),
    ensures
        ({
            let left = if k == 0 {
                data.skip(1)
            } else {
                data.update(0, EntryIo::Data((n - k) as u64))
            };
            &&& contents(data, stored) == stored.take(k) + contents(left, stored.skip(k))
            &&& contents_read(data, stored.len()) == k + contents_read(
                left,
                (stored.len() - k) as nat,
            )
            &&& work(left) < work(data)
        }),
{
    let tail = data.skip(1);
    let after = stored.skip(k);
    let none = Seq::<u8>::empty();
    if k == 0 {
        assert(stored =~= none);
        assert(stored.take(k) =~= stored);
        assert(after =~= none);
    } else {
        let left = data.update(0, EntryIo::Data((n - k) as u64));
        assert(left.skip(1) =~= tail);
        if k == n {
            assert(after.take(0) + contents(tail, after) =~= contents(tail, after));
            assert(after.skip(0) =~= after);
        } else {
            assert(after =~= none);
            assert(stored.take(k) =~= stored);
            assert(after + contents(tail, none) =~= contents(tail, none));
        }
    }
}

/// A stream that asks: what it says, and how much it asks for.
proof fn lemma_asked(a: ArchiveView, e: EntriesView, rest: Seq<u8>)
    requires
        entries_wf(e),
    ensures
        ({
            let (ready, step) = settled(a.options, a.pos, e);
            &&& stepped(a, e, None) == (a, ready, step)
            &&& match step {
                StepView::Ready(out) => said(a, e, rest) == (a, ready, rest, out),
                StepView::Read(n) => n == ask(room(a.pos, ready)) && n > 0,
            }
        }),
{
    reveal(stepped);
    lemma_settled(a.options, a.pos, e);
    lemma_said_settled(a, e, rest);
    reveal(settled);
}

/// One round of reading: the stream asks, and is handed the first `k` bytes of
/// what it can take.
proof fn lemma_round(a: ArchiveView, e: EntriesView, rest: Seq<u8>, k: int)
    requires
        entries_wf(e),
        settled(a.options, a.pos, e).1 is Read,
        0 <= k <= portion(a.pos, settled(a.options, a.pos, e).0, rest),
        k == 0 ==> rest.len() == 0,
    ensures
        ({
            let ready = settled(a.options, a.pos, e).0;
            let (read, after, step) = stepped(a, ready, Some(rest.take(k)));
            &&& entries_wf(after)
            &&& read.pos == wrap_add(a.pos, k as nat)
            &&& match step {
                StepView::Ready(out) => said(a, e, rest) == (read, after, rest.skip(k), out),
                StepView::Read(_) => {
                    &&& said(a, e, rest) == said(read, after, rest.skip(k))
                    &&& k == 0 ==> wants_extension(e) && !wants_extension(after)
                },
            }
        }),
{
    reveal(stepped);
    let o = a.options;
    let ready = settled(o, a.pos, e).0;
    let chunk = rest.take(k);
    lemma_settled(o, a.pos, e);
    lemma_said_settled(a, e, rest);
    law_chunks_do_not_matter(a, ready, rest, k);
    lemma_chunk_taken(o, a.usage, a.pos, ready, chunk);
    let taken = chunk_taken(o, a.usage, ready, chunk).1;
    lemma_settled(o, wrap_add(a.pos, k as nat), taken);
    if k == 0 && chunk_taken(o, a.usage, ready, chunk).2 is None {
        lemma_at_the_end(o, a.usage, a.pos, e, chunk);
    }
}

/// At the end of the archive only an extension entry lets a stream go on, and
/// it does not ask for more of it.
proof fn lemma_at_the_end(o: ArchiveOptions, u: UsageView, pos: u64, e: EntriesView, chunk: Seq<u8>)
    requires
        entries_wf(e),
        settled(o, pos, e).1 is Read,
        chunk.len() == 0,
        chunk_taken(o, u, settled(o, pos, e).0, chunk).2 is None,
    ensures
        wants_extension(e),
        ({
            let taken = chunk_taken(o, u, settled(o, pos, e).0, chunk).1;
            !wants_extension(settled(o, wrap_add(pos, 0), taken).0)
        }),
{
    reveal(settled);
    reveal(chunk_taken);
}

impl Archive<Vec<u8>> {
    /// One round of reading: the stream asks, and is handed at most `most`
    /// bytes.
    #[verifier::rlimit(30)]
    fn read_round(&mut self, entries: &mut Entries, most: usize) -> (output: Option<
        Option<Result<Entry, Error>>,
    >)
        requires
            entries_wf(old(entries)@),
            most > 0,
            old(self)@.pos <= old(self).source()@.len(),
        ensures
            final(self).source() == old(self).source(),
            old(self)@.pos <= final(self)@.pos <= final(self).source()@.len(),
            entries_wf(final(entries)@),
            ({
                let rest = old(self).source()@.skip(old(self)@.pos as int);
                let left = old(self).source()@.skip(final(self)@.pos as int);
                match output_view(output) {
                    Some(out) => said(old(self)@, old(entries)@, rest) == (
                        final(self)@,
                        final(entries)@,
                        left,
                        out,
                    ),
                    None => {
                        &&& said(old(self)@, old(entries)@, rest) == said(
                            final(self)@,
                            final(entries)@,
                            left,
                        )
                        &&& final(self)@.pos == old(self)@.pos ==> wants_extension(
                            old(entries)@,
                        ) && !wants_extension(final(entries)@)
                    },
                }
            }),
    {
        let ghost src = self.source()@;
        let ghost a = self@;
        let ghost e = entries@;
        let ghost rest = src.skip(a.pos as int);
        let len: usize = self.get_ref().len();
        proof {
            lemma_asked(a, e, rest);
        }
        let n: u64 = match entries.step(self, None) {
            Step::Ready(out) => {
                return Some(out);
            },
            Step::Read(n) => n,
        };
        let at: usize = self.position() as usize;
        let left: usize = len - at;
        let mut k: usize = if most < left {
            most
        } else {
            left
        };
        if n < k as u64 {
            k = n as usize;
        }
        let chunk: Vec<u8> = copy_range(self.get_ref().as_slice(), at, at + k);
        proof {
            assert(chunk@ =~= rest.take(k as int));
            lemma_round(a, e, rest, k as int);
            assert(rest.skip(k as int) =~= src.skip(at + k));
        }
        match entries.step(self, Some(chunk.as_slice())) {
            Step::Ready(out) => Some(out),
            Step::Read(_) => None,
        }
    }

    /// What a stream says next. It is handed at most `most` bytes at once,
    /// which makes no difference to what it says.
    pub fn next_entry(&mut self, entries: &mut Entries, most: usize) -> (output: Option<
        Result<Entry, Error>,
    >)
        requires
            entries_wf(old(entries)@),
            most > 0,
            old(self)@.pos <= old(self).source()@.len(),
        ensures
            (
                final(self)@,
                final(entries)@,
                final(self).source()@.skip(final(self)@.pos as int),
                output_view(Some(output)),
            ) == ({
                let (a, e, rest, out) = said(
                    old(self)@,
                    old(entries)@,
                    old(self).source()@.skip(old(self)@.pos as int),
                );
                (a, e, rest, Some(out))
            }),
            final(self).source() == old(self).source(),
            old(self)@.pos <= final(self)@.pos <= final(self).source()@.len(),
            entries_wf(final(entries)@),
    {
        let ghost src = self.source()@;
        loop
            invariant
                self.source()@ == src,
                self.source() == old(self).source(),
                most > 0,
                old(self)@.pos <= self@.pos <= src.len(),
                entries_wf(entries@),
                said(self@, entries@, src.skip(self@.pos as int)) == said(
                    old(self)@,
                    old(entries)@,
                    src.skip(old(self)@.pos as int),
                ),
            decreases
                    src.len() - self@.pos,
                    if wants_extension(entries@) {
                        1nat
                    } else {
                        0nat
                    },
        {
            match self.read_round(entries, most) {
                Some(out) => {
                    return out;
                },
                None => {},
            }
        }
    }

    /// Reads what there is of the first part of a member's contents.
    #[verifier::spinoff_prover]
    #[verifier::rlimit(30)]
    fn read_part(&mut self, entry: &mut Entry, part: EntryIo, bytes: &mut Vec<u8>)
        requires
            old(self)@.pos <= old(self).source()@.len(),
            old(entry)@.data.len() > 0,
            old(entry)@.data[0] == part,
            io_len(part) > 0,
        ensures
            final(self).source() == old(self).source(),
            old(self)@.pos <= final(self)@.pos <= old(self).source()@.len(),
            final(self)@ == (ArchiveView { pos: final(self)@.pos, ..old(self)@ }),
            final(entry)@ == (EntryView { data: final(entry)@.data, ..old(entry)@ }),
            work(final(entry)@.data) < work(old(entry)@.data),
            ({
                let src = old(self).source()@;
                let stored = src.skip(old(self)@.pos as int);
                let left = src.skip(final(self)@.pos as int);
                &&& old(bytes)@ + contents(old(entry)@.data, stored) == final(bytes)@ + contents(
                    final(entry)@.data,
                    left,
                )
                &&& old(self)@.pos + contents_read(old(entry)@.data, stored.len()) == final(
                    self)@.pos + contents_read(final(entry)@.data, left.len())
            }),
    {
        let ghost src = self.source()@;
        let ghost stored = src.skip(self@.pos as int);
        let ghost data = entry@.data;
        let ghost done = bytes@;
        match part {
            EntryIo::Pad(n) => {
                proof {
                    lemma_pad_read(data, stored);
                }
                append_zeros(bytes, n);
                entry.consume(n);
                proof {
                    let after = contents(entry@.data, stored);
                    assert(done + (zeros(n as nat) + after) =~= bytes@ + after);
                }
            },
            EntryIo::Data(n) => {
                let len: usize = self.get_ref().len();
                let at: usize = self.position() as usize;
                let there: usize = len - at;
                let k: usize = if n < there as u64 {
                    n as usize
                } else {
                    there
                };
                proof {
                    lemma_data_read(data, stored, n, k as int);
                    assert(stored.take(k as int) =~= src.subrange(at as int, at + k));
                    assert(stored.skip(k as int) =~= src.skip(at + k));
                }
                append_range(bytes, self.get_ref().as_slice(), at, at + k);
                self.advance(k as u64);
                entry.consume(k as u64);
                proof {
                    let after = contents(entry@.data, src.skip(at + k));
                    assert(done + (stored.take(k as int) + after) =~= bytes@ + after);
                }
            },
        }
    }

    /// Reads what is left of a member's contents.
    pub fn read_contents(&mut self, entry: &mut Entry) -> (bytes: Vec<u8>)
        requires
            old(self)@.pos <= old(self).source()@.len(),
        ensures
            ({
                let rest = old(self).source()@.skip(old(self)@.pos as int);
                &&& bytes@ == contents(old(entry)@.data, rest)
                &&& final(self)@ == (ArchiveView {
                    pos: (old(self)@.pos + contents_read(old(entry)@.data, rest.len())) as u64,
                    ..old(self)@
                })
                &&& final(entry)@ == (EntryView { data: Seq::empty(), ..old(entry)@ })
            }),
            final(self).source() == old(self).source(),
            final(self)@.pos <= final(self).source()@.len(),
    {
        let ghost src = self.source()@;
        let ghost rest = src.skip(self@.pos as int);
        let ghost whole = entry@.data;
        let mut bytes: Vec<u8> = Vec::new();
        assert(bytes@ + contents(whole, rest) =~= contents(whole, rest));
        loop
            invariant
                self.source()@ == src,
                self.source() == old(self).source(),
                old(self)@.pos <= self@.pos <= src.len(),
                rest == src.skip(old(self)@.pos as int),
                self@ == (ArchiveView { pos: self@.pos, ..old(self)@ }),
                entry@ == (EntryView { data: entry@.data, ..old(entry)@ }),
                bytes@ + contents(entry@.data, src.skip(self@.pos as int)) == contents(whole, rest),
                self@.pos + contents_read(entry@.data, (src.len() - self@.pos) as nat)
                    == old(self)@.pos + contents_read(whole, rest.len()),
                whole == old(entry)@.data,
            decreases work(entry@.data),
        {
            let ghost stored = src.skip(self@.pos as int);
            proof {
                lemma_unread(entry@.data, stored);
            }
            let ghost before = entry@.data;
            let part = match entry.next_part() {
                Some(part) => part,
                None => {
                    assert(bytes@ + Seq::<u8>::empty() =~= bytes@);
                    return bytes;
                },
            };
            self.read_part(entry, part, &mut bytes);
        }
    }
}

} // verus!
