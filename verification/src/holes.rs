//! Sparse files: how the blocks that a map lists make up a file.

use crate::archive::ArchiveView;
use crate::bytes::{field, zeros};
use crate::entries::{chunk_taken, continuation_taken, described, settled, undescribed, EntriesView};
use crate::entry::{contents, entry_link, entry_path, EntryIo, EntryView};
use crate::error::ErrorView;
use crate::header::{header_real_size, header_size};
use crate::layout::{law_form_is_told_by_magic, says_gnu};
use crate::logical::{comes_to_member, lemma_member_header, told_link, told_path};
use crate::member::{member_of, plain_override};
use crate::number::parsed_numeric;
use crate::options::{entry_reserved, ArchiveOptions};
use crate::roundtrip::{before_header, read_on};
use crate::scan::ScanView;
use crate::sparse::{
    block_refusal, continuation_reserve, sparse_blank, sparse_block, sparse_start, with_block,
    with_continuation, with_map_entries, with_map_entry, SparseView,
};
use crate::stream::{lemma_said_settled, portion, said};
use vstd::prelude::*;

verus! {

/// A map entry is empty where its offset or its length starts with a zero byte.
/// Any other gives the two numbers that it holds, also where the length is zero,
/// and is a failure where it does not hold two numbers.
pub proof fn law_map_entry_is_read(e: Seq<u8>)
    requires
        e.len() == 24,
    ensures
        e[0] == 0 || e[12] == 0 ==> sparse_block(e) == Ok::<Option<(u64, u64)>, ErrorView>(None),
        e[0] != 0 && e[12] != 0 ==> (match (
            parsed_numeric(e.subrange(0, 12)),
            parsed_numeric(e.subrange(12, 24)),
        ) {
            (Some(offset), Some(length)) => sparse_block(e) == Ok::<
                Option<(u64, u64)>,
                ErrorView,
            >(Some((offset, length))),
            _ => sparse_block(e) is Err,
        }),
{
}

/// How much of a member's data the first `n` blocks take.
pub open spec fn stored_before(bs: Seq<(u64, u64)>, n: int) -> nat
    decreases n,
{
    if n <= 0 {
        0
    } else {
        stored_before(bs, n - 1) + bs[n - 1].1 as nat
    }
}

/// Where the last block ends in the file.
pub open spec fn file_end(bs: Seq<(u64, u64)>) -> nat {
    if bs.len() == 0 {
        0
    } else {
        bs.last().0 as nat + bs.last().1 as nat
    }
}

/// Whether blocks can make up a sparse file with so much data: they follow each
/// other without overlap, each that has data starts on a block boundary of the
/// data, they end within 64 bits, and they use no more data than there is. There
/// may be a limit on their number.
pub open spec fn fits(bs: Seq<(u64, u64)>, size: u64, limit: Option<u64>) -> bool {
    &&& forall|j: int| 0 <= j < bs.len() ==> (#[trigger] bs[j]).0 + bs[j].1 <= u64::MAX
    &&& forall|j: int| 0 < j < bs.len() ==> (#[trigger] bs[j]).0 >= bs[j - 1].0 + bs[j - 1].1
    &&& forall|j: int|
        0 <= j < bs.len() && (#[trigger] bs[j]).1 != 0 ==> stored_before(bs, j) % 512 == 0
    &&& stored_before(bs, bs.len() as int) <= size
    &&& limit matches Some(most) ==> bs.len() <= most
}

/// The parts of a file that blocks make up: a hole in front of each block that
/// does not start where the one before it ends, and the block's data.
spec fn parts_of(bs: Seq<(u64, u64)>) -> Seq<EntryIo>
    decreases bs.len(),
{
    if bs.len() == 0 {
        Seq::empty()
    } else {
        let front = bs.drop_last();
        let (offset, length) = bs.last();
        let holes = if file_end(front) < offset {
            parts_of(front).push(EntryIo::Pad((offset - file_end(front)) as u64))
        } else {
            parts_of(front)
        };
        holes.push(EntryIo::Data(length))
    }
}

/// Whether a sparse file has taken the given blocks.
spec fn has_taken(o: ArchiveOptions, s: SparseView, bs: Seq<(u64, u64)>) -> bool {
    &&& fits(bs, s.entry.size, o.max_sparse_entries)
    &&& s.cur == file_end(bs)
    &&& s.remaining + stored_before(bs, bs.len() as int) == s.entry.size
    &&& o.max_sparse_entries is Some ==> s.sparse_entries == bs.len()
    &&& s.entry.data == parts_of(bs)
}

proof fn lemma_stored_before_push(bs: Seq<(u64, u64)>, b: (u64, u64), n: int)
    requires
        0 <= n <= bs.len(),
    ensures
        stored_before(bs.push(b), n) == stored_before(bs, n),
    decreases n,
{
    if n > 0 {
        lemma_stored_before_push(bs, b, n - 1);
    }
}

/// One more block is taken if and only if the blocks then still fit.
proof fn lemma_one_more_block(
    o: ArchiveOptions,
    s: SparseView,
    bs: Seq<(u64, u64)>,
    offset: u64,
    length: u64,
)
    requires
        has_taken(o, s, bs),
    ensures
        block_refusal(o, s, offset, length) is None <==> fits(
            bs.push((offset, length)),
            s.entry.size,
            o.max_sparse_entries,
        ),
        block_refusal(o, s, offset, length) is None ==> has_taken(
            o,
            with_block(o, s, offset, length),
            bs.push((offset, length)),
        ),
{
    let b = (offset, length);
    let all = bs.push(b);
    let n = bs.len() as int;
    let size = s.entry.size;
    assert forall|j: int| 0 <= j <= n implies #[trigger] stored_before(all, j) == stored_before(
        bs,
        j,
    ) by {
        lemma_stored_before_push(bs, b, j);
    }
    assert(all[n] == b);
    assert(stored_before(all, n) == stored_before(bs, n));
    assert(stored_before(all, n + 1) == stored_before(all, n) + all[n].1);
    assert(all.drop_last() =~= bs);
    if block_refusal(o, s, offset, length) is None {
        assert forall|j: int| 0 < j < all.len() implies (#[trigger] all[j]).0 >= all[j - 1].0 + all[j
            - 1].1 by {
            if j < n {
                assert(bs[j].0 >= bs[j - 1].0 + bs[j - 1].1);
                assert(all[j] == bs[j] && all[j - 1] == bs[j - 1]);
            } else {
                assert(all[j - 1] == bs.last());
            }
        }
        assert forall|j: int| 0 <= j < all.len() implies (#[trigger] all[j]).0 + all[j].1
            <= u64::MAX by {
            if j < n {
                assert(all[j] == bs[j]);
            }
        }
        assert forall|j: int| 0 <= j < all.len() && (#[trigger] all[j]).1 != 0 implies stored_before(
            all,
            j,
        ) % 512 == 0 by {
            if j < n {
                assert(all[j] == bs[j]);
            }
        }
        assert(fits(all, size, o.max_sparse_entries));
        assert(with_block(o, s, offset, length).entry.data =~= parts_of(all));
    }
    if fits(all, size, o.max_sparse_entries) {
        assert(all[n].0 + all[n].1 <= u64::MAX);
        if n > 0 {
            assert(all[n].0 >= all[n - 1].0 + all[n - 1].1);
            assert(all[n - 1] == bs.last());
        }
        assert(all[n].1 != 0 ==> stored_before(all, n) % 512 == 0);
    }
}

/// Whether a map entry is empty or holds two numbers.
pub open spec fn is_map_entry(e: Seq<u8>) -> bool {
    e[0] == 0 || e[12] == 0 || parsed_numeric(e.subrange(0, 12)) is Some && parsed_numeric(
        e.subrange(12, 24),
    ) is Some
}

/// The block that a map entry lists: none where it is empty.
pub open spec fn one_listed(e: Seq<u8>) -> Seq<(u64, u64)> {
    if e[0] == 0 || e[12] == 0 {
        Seq::empty()
    } else {
        seq![(parsed_numeric(e.subrange(0, 12))->0, parsed_numeric(e.subrange(12, 24))->0)]
    }
}

/// Whether a table of `n` map entries, which starts at `at` in a block, can be
/// read.
pub open spec fn is_map(b: Seq<u8>, at: int, n: nat) -> bool
    decreases n,
{
    n == 0 || is_map(b, at, (n - 1) as nat) && is_map_entry(
        b.subrange(at + 24 * (n - 1), at + 24 * n),
    )
}

/// The blocks that a table of `n` map entries lists, in order.
pub open spec fn listed(b: Seq<u8>, at: int, n: nat) -> Seq<(u64, u64)>
    decreases n,
{
    if n == 0 {
        Seq::empty()
    } else {
        listed(b, at, (n - 1) as nat) + one_listed(b.subrange(at + 24 * (n - 1), at + 24 * n))
    }
}

proof fn lemma_fits_front(bs: Seq<(u64, u64)>, b: (u64, u64), size: u64, limit: Option<u64>)
    requires
        fits(bs.push(b), size, limit),
    ensures
        fits(bs, size, limit),
{
    let all = bs.push(b);
    let n = bs.len() as int;
    assert forall|j: int| 0 <= j <= n implies #[trigger] stored_before(all, j) == stored_before(
        bs,
        j,
    ) by {
        lemma_stored_before_push(bs, b, j);
    }
    assert(stored_before(all, n) == stored_before(bs, n));
    assert(stored_before(all, n + 1) == stored_before(all, n) + all[n].1);
    assert forall|j: int| 0 <= j < n implies (#[trigger] bs[j]).0 + bs[j].1 <= u64::MAX by {
        assert(all[j] == bs[j]);
    }
    assert forall|j: int| 0 < j < n implies (#[trigger] bs[j]).0 >= bs[j - 1].0 + bs[j - 1].1 by {
        assert(all[j] == bs[j] && all[j - 1] == bs[j - 1]);
    }
    assert forall|j: int| 0 <= j < n && (#[trigger] bs[j]).1 != 0 implies stored_before(bs, j) % 512
        == 0 by {
        assert(all[j] == bs[j]);
    }
}

/// The block of a map entry is taken if and only if it fits behind those that
/// were taken before.
proof fn lemma_entry(o: ArchiveOptions, s: SparseView, bs: Seq<(u64, u64)>, e: Seq<u8>)
    requires
        has_taken(o, s, bs),
        e.len() == 24,
        is_map_entry(e),
    ensures
        fits(bs + one_listed(e), s.entry.size, o.max_sparse_entries) <==> with_map_entry(
            o,
            s,
            e,
        ) is Ok,
        with_map_entry(o, s, e) matches Ok(t) ==> has_taken(o, t, bs + one_listed(e)) && is_same_file(
            s,
            t,
        ),
{
    law_map_entry_is_read(e);
    if e[0] == 0 || e[12] == 0 {
        assert(bs + one_listed(e) =~= bs);
    } else {
        let offset = parsed_numeric(e.subrange(0, 12))->0;
        let length = parsed_numeric(e.subrange(12, 24))->0;
        assert(bs + one_listed(e) =~= bs.push((offset, length)));
        lemma_one_more_block(o, s, bs, offset, length);
    }
}

/// Whether only the blocks of a sparse file differ.
spec fn is_same_file(s: SparseView, t: SparseView) -> bool {
    &&& t.entry == (EntryView { data: t.entry.data, ..s.entry })
    &&& t.needs_continuation == s.needs_continuation
    &&& t.continuation_reserved == s.continuation_reserved
    &&& t.continuation_blocks == s.continuation_blocks
}

proof fn lemma_fits_fewer(bs: Seq<(u64, u64)>, e: Seq<u8>, size: u64, limit: Option<u64>)
    requires
        fits(bs + one_listed(e), size, limit),
    ensures
        fits(bs, size, limit),
{
    if e[0] == 0 || e[12] == 0 {
        assert(bs + one_listed(e) =~= bs);
    } else {
        let b = one_listed(e)[0];
        assert(bs + one_listed(e) =~= bs.push(b));
        lemma_fits_front(bs, b, size, limit);
    }
}

/// The blocks of a table are taken if and only if they fit behind those that were
/// taken before.
proof fn lemma_table(
    o: ArchiveOptions,
    s: SparseView,
    bs: Seq<(u64, u64)>,
    b: Seq<u8>,
    at: int,
    n: nat,
)
    requires
        has_taken(o, s, bs),
        0 <= at,
        at + 24 * n <= b.len(),
        is_map(b, at, n),
    ensures
        fits(bs + listed(b, at, n), s.entry.size, o.max_sparse_entries) <==> with_map_entries(
            o,
            s,
            b,
            at,
            n,
        ) is Ok,
        with_map_entries(o, s, b, at, n) matches Ok(t) ==> has_taken(o, t, bs + listed(b, at, n))
            && is_same_file(s, t),
    decreases n,
{
    if n == 0 {
        assert(bs + listed(b, at, n) =~= bs);
    } else {
        let m = (n - 1) as nat;
        let e = field(b, at + 24 * m, 24);
        assert(e == b.subrange(at + 24 * (n - 1), at + 24 * n));
        lemma_table(o, s, bs, b, at, m);
        let front = bs + listed(b, at, m);
        assert(bs + listed(b, at, n) =~= front + one_listed(e));
        if let Ok(t) = with_map_entries(o, s, b, at, m) {
            lemma_entry(o, t, front, e);
        } else if fits(front + one_listed(e), s.entry.size, o.max_sparse_entries) {
            lemma_fits_fewer(front, e, s.entry.size, o.max_sparse_entries);
        }
    }
}

proof fn lemma_contents_push(parts: Seq<EntryIo>, last: EntryIo, stored: Seq<u8>)
    requires
        crate::entry::stored_len(parts.push(last)) <= stored.len(),
    ensures
        contents(parts.push(last), stored) == contents(parts, stored) + (match last {
            EntryIo::Pad(n) => zeros(n as nat),
            EntryIo::Data(n) => stored.subrange(
                crate::entry::stored_len(parts) as int,
                crate::entry::stored_len(parts) as int + n,
            ),
        }),
    decreases parts.len(),
{
    let all = parts.push(last);
    let none = Seq::<EntryIo>::empty();
    assert(all.drop_last() =~= parts);
    if parts.len() == 0 {
        assert(all[0] == last);
        assert(all.skip(1) =~= none);
        match last {
            EntryIo::Pad(n) => {
                assert(contents(all.skip(1), stored) =~= Seq::<u8>::empty());
                assert(contents(all, stored) =~= contents(parts, stored) + zeros(n as nat));
            },
            EntryIo::Data(n) => {
                assert(contents(all.skip(1), stored.skip(n as int)) =~= Seq::<u8>::empty());
                assert(contents(all, stored) =~= contents(parts, stored) + stored.subrange(
                    0,
                    n as int,
                ));
            },
        }
    } else {
        let tail = parts.skip(1);
        assert(all.skip(1) =~= tail.push(last));
        assert(all[0] == parts[0]);
        lemma_stored_front(parts);
        lemma_stored_front(all);
        match parts[0] {
            EntryIo::Pad(n) => {
                lemma_contents_push(tail, last, stored);
                assert(contents(all, stored) =~= contents(parts, stored) + (match last {
                    EntryIo::Pad(n) => zeros(n as nat),
                    EntryIo::Data(n) => stored.subrange(
                        crate::entry::stored_len(parts) as int,
                        crate::entry::stored_len(parts) as int + n,
                    ),
                }));
            },
            EntryIo::Data(n) => {
                let left = stored.skip(n as int);
                lemma_contents_push(tail, last, left);
                if let EntryIo::Data(m) = last {
                    assert(left.subrange(
                        crate::entry::stored_len(tail) as int,
                        crate::entry::stored_len(tail) as int + m,
                    ) =~= stored.subrange(
                        crate::entry::stored_len(parts) as int,
                        crate::entry::stored_len(parts) as int + m,
                    ));
                }
                assert(contents(all, stored) =~= contents(parts, stored) + (match last {
                    EntryIo::Pad(n) => zeros(n as nat),
                    EntryIo::Data(n) => stored.subrange(
                        crate::entry::stored_len(parts) as int,
                        crate::entry::stored_len(parts) as int + n,
                    ),
                }));
            },
        }
    }
}

/// What the parts of a member store is what the first of them stores, and the others.
pub proof fn lemma_stored_front(parts: Seq<EntryIo>)
    requires
        parts.len() > 0,
    ensures
        crate::entry::stored_len(parts) == crate::entry::stored_len(parts.skip(1)) + (match parts[0] {
            EntryIo::Pad(_) => 0,
            EntryIo::Data(n) => n as nat,
        }),
    decreases parts.len(),
{
    let tail = parts.skip(1);
    if parts.len() == 1 {
        assert(parts.drop_last() =~= Seq::<EntryIo>::empty());
        assert(tail =~= Seq::<EntryIo>::empty());
    } else {
        lemma_stored_front(parts.drop_last());
        assert(parts.drop_last().skip(1) =~= tail.drop_last());
        assert(tail.last() == parts.last());
    }
}

/// Whether `whole` is the file that blocks make up of stored data: each block
/// holds its part of the data, in order, and all else is zero bytes.
pub open spec fn is_file_of(bs: Seq<(u64, u64)>, stored: Seq<u8>, whole: Seq<u8>) -> bool {
    &&& whole.len() == file_end(bs)
    &&& forall|j: int, i: int|
        0 <= j < bs.len() && bs[j].0 <= i < bs[j].0 + bs[j].1 ==> #[trigger] whole[i]
            == stored[stored_before(bs, j) + i - (#[trigger] bs[j]).0]
    &&& forall|i: int|
        0 <= i < whole.len() && (forall|j: int|
            0 <= j < bs.len() ==> !((#[trigger] bs[j]).0 <= i < bs[j].0 + bs[j].1)) ==> #[trigger] whole[i] == 0
}

#[verifier::spinoff_prover]
#[verifier::rlimit(40)]
proof fn lemma_file_of_parts(bs: Seq<(u64, u64)>, size: u64, limit: Option<u64>, stored: Seq<u8>)
    requires
        fits(bs, size, limit),
        stored_before(bs, bs.len() as int) <= stored.len(),
    ensures
        is_file_of(bs, stored, contents(parts_of(bs), stored)),
        crate::entry::stored_len(parts_of(bs)) == stored_before(bs, bs.len() as int),
    decreases bs.len(),
{
    let whole = contents(parts_of(bs), stored);
    if bs.len() == 0 {
        assert(whole =~= Seq::<u8>::empty());
    } else {
        let front = bs.drop_last();
        let b = bs.last();
        let n = front.len() as int;
        assert(front.push(b) =~= bs);
        lemma_fits_front(front, b, size, limit);
        assert forall|j: int| 0 <= j <= n implies #[trigger] stored_before(bs, j) == stored_before(
            front,
            j,
        ) by {
            lemma_stored_before_push(front, b, j);
        }
        assert(stored_before(bs, n + 1) == stored_before(bs, n) + b.1);
        lemma_file_of_parts(front, size, limit, stored);
        let before = contents(parts_of(front), stored);
        let end = file_end(front);
        if n > 0 {
            assert(bs[n].0 >= bs[n - 1].0 + bs[n - 1].1);
            assert(front.last() == bs[n - 1]);
        }
        assert(end <= b.0);
        assert(bs[n].0 + bs[n].1 <= u64::MAX);
        let gap = (b.0 - end) as u64;
        let holes = if end < b.0 {
            parts_of(front).push(EntryIo::Pad(gap))
        } else {
            parts_of(front)
        };
        if end < b.0 {
            assert(holes.drop_last() =~= parts_of(front));
            lemma_contents_push(parts_of(front), EntryIo::Pad(gap), stored);
        }
        let filled = contents(holes, stored);
        assert(filled =~= before + zeros(gap as nat));
        let all = holes.push(EntryIo::Data(b.1));
        assert(all.drop_last() =~= holes);
        lemma_contents_push(holes, EntryIo::Data(b.1), stored);
        let s0 = stored_before(bs, n) as int;
        let data = stored.subrange(s0, s0 + b.1);
        assert(whole == filled + data);
        assert(whole =~= before + zeros(gap as nat) + data);
        assert forall|j: int, i: int|
            0 <= j < bs.len() && bs[j].0 <= i < bs[j].0 + bs[j].1 implies #[trigger] whole[i]
            == stored[stored_before(bs, j) + i - (#[trigger] bs[j]).0] by {
            if j < n {
                assert(front[j] == bs[j]);
                lemma_block_ends_before(front, size, limit, j);
                assert(before[i] == stored[stored_before(front, j) + i - front[j].0]);
            } else {
                assert(data[i - b.0] == stored[s0 + (i - b.0)]);
            }
        }
        assert forall|i: int|
            0 <= i < whole.len() && (forall|j: int|
                0 <= j < bs.len() ==> !((#[trigger] bs[j]).0 <= i < bs[j].0 + bs[j].1)) implies #[trigger] whole[i]
            == 0 by {
            assert(!(bs[n].0 <= i < bs[n].0 + bs[n].1));
            if i < end {
                assert forall|j: int| 0 <= j < front.len() implies !((#[trigger] front[j]).0 <= i
                    < front[j].0 + front[j].1) by {
                    assert(bs[j] == front[j]);
                }
                assert(before[i] == 0);
            }
        }
    }
}

proof fn lemma_block_ends_before(bs: Seq<(u64, u64)>, size: u64, limit: Option<u64>, j: int)
    requires
        fits(bs, size, limit),
        0 <= j < bs.len(),
    ensures
        bs[j].0 + bs[j].1 <= file_end(bs),
    decreases bs.len(),
{
    if j < bs.len() - 1 {
        let front = bs.drop_last();
        assert(front.push(bs.last()) =~= bs);
        lemma_fits_front(front, bs.last(), size, limit);
        lemma_block_ends_before(front, size, limit, j);
        let n = bs.len() - 1;
        assert(bs[n].0 >= bs[n - 1].0 + bs[n - 1].1);
        assert(front[j] == bs[j]);
    }
}

/// Whether blocks hold the rest of a map: none where the map does not go on, else
/// one, and the rest behind it where its byte 504 is 1.
pub open spec fn is_chain(goes_on: bool, xs: Seq<Seq<u8>>) -> bool
    decreases xs.len(),
{
    if xs.len() == 0 {
        !goes_on
    } else {
        &&& goes_on
        &&& xs[0].len() == 512
        &&& is_map(xs[0], 0, 21)
        &&& is_chain(xs[0][504] == 1, xs.skip(1))
    }
}

/// The blocks of a file that the rest of a map lists.
pub open spec fn listed_in_chain(xs: Seq<Seq<u8>>) -> Seq<(u64, u64)>
    decreases xs.len(),
{
    if xs.len() == 0 {
        Seq::empty()
    } else {
        listed(xs[0], 0, 21) + listed_in_chain(xs.skip(1))
    }
}

/// The bytes of the rest of a map.
pub open spec fn chain_bytes(xs: Seq<Seq<u8>>) -> Seq<u8>
    decreases xs.len(),
{
    if xs.len() == 0 {
        Seq::empty()
    } else {
        xs[0] + chain_bytes(xs.skip(1))
    }
}

/// Whether blocks make up the whole of a sparse file: they fit, use all of its
/// data, and end where the file ends.
pub open spec fn makes_up(
    bs: Seq<(u64, u64)>,
    size: u64,
    real_size: Result<u64, ErrorView>,
    limit: Option<u64>,
) -> bool {
    &&& fits(bs, size, limit)
    &&& stored_before(bs, bs.len() as int) == size
    &&& real_size matches Ok(n) && n == file_end(bs)
}

proof fn lemma_fits_prefix(
    bs: Seq<(u64, u64)>,
    more: Seq<(u64, u64)>,
    size: u64,
    limit: Option<u64>,
)
    requires
        fits(bs + more, size, limit),
    ensures
        fits(bs, size, limit),
    decreases more.len(),
{
    if more.len() == 0 {
        assert(bs + more =~= bs);
    } else {
        let less = bs + more.drop_last();
        assert(less.push(more.last()) =~= bs + more);
        lemma_fits_front(less, more.last(), size, limit);
        lemma_fits_prefix(bs, more.drop_last(), size, limit);
    }
}

/// A stream that reads the map of a sparse file takes its next block.
proof fn lemma_continuation(a: ArchiveView, e: EntriesView, s: SparseView, x: Seq<u8>, rest: Seq<u8>)
    requires
        crate::entries::entries_wf(e),
        !e.failed,
        e.sparse == Some(s),
        s.needs_continuation,
        !s.continuation_reserved,
        e.scan.block.len() == 0,
        x.len() == 512,
        continuation_reserve(a.options, s) is Ok,
    ensures
        ({
            let reserved = continuation_reserve(a.options, s)->Ok_0;
            let (next, result) = with_continuation(a.options, reserved, e.scan.next, x);
            match result {
                Ok(t) => said(a, e, x + rest) == said(
                    read_on(a, 512),
                    EntriesView { sparse: Some(t), scan: ScanView { next, ..e.scan }, ..e },
                    rest,
                ),
                Err(err) => said(a, e, x + rest).3 == Some(Err::<EntryView, ErrorView>(err)),
            }
        }),
{
    reveal(said);
    reveal(settled);
    reveal(chunk_taken);
    let o = a.options;
    let all = x + rest;
    let reserved = continuation_reserve(o, s)->Ok_0;
    let ready = EntriesView { sparse: Some(reserved), ..e };
    assert(settled(o, a.pos, e).0 =~= ready);
    assert(portion(a.pos, ready, all) == 512);
    assert(all.take(512) =~= x);
    assert(all.skip(512) =~= rest);
    assert(e.scan.block + x =~= x);
    assert(chunk_taken(o, a.usage, ready, x) == ({
        let (after, output) = continuation_taken(o, ready, reserved, x);
        (a.usage, after, output)
    }));
    let (next, result) = with_continuation(o, reserved, e.scan.next, x);
    let (after, output) = continuation_taken(o, ready, reserved, x);
    let read = ArchiveView { usage: a.usage, ..read_on(a, 512) };
    if e.scan.next + 512 <= u64::MAX && s.entry.file_pos + 512 <= u64::MAX {
        let moved = SparseView {
            entry: EntryView { file_pos: (s.entry.file_pos + 512) as u64, ..s.entry },
            continuation_reserved: false,
            ..reserved
        };
        crate::sparse::lemma_map_entries_consistent(o, moved, x, 0, 21);
    }
    assert(crate::entries::entries_wf(after));
    assert(said(a, e, all) == (match output {
        Some(out) => (read, after, rest, out),
        None => said(read, after, rest),
    }));
    if let Ok(t) = result {
        assert(continuation_taken(o, ready, reserved, x).0 =~= EntriesView {
            sparse: Some(t),
            scan: ScanView { next, ..e.scan },
            ..e
        });
        assert(ArchiveView { usage: a.usage, ..read_on(a, 512) } =~= read_on(a, 512));
    }
}

proof fn lemma_consistent(o: ArchiveOptions, s: SparseView, bs: Seq<(u64, u64)>)
    requires
        has_taken(o, s, bs),
    ensures
        crate::sparse::is_consistent(s),
{
    lemma_totals(bs, s.entry.size, o.max_sparse_entries);
}

proof fn lemma_totals(bs: Seq<(u64, u64)>, size: u64, limit: Option<u64>)
    requires
        fits(bs, size, limit),
    ensures
        crate::entry::total_len(parts_of(bs)) == file_end(bs),
        crate::entry::stored_len(parts_of(bs)) == stored_before(bs, bs.len() as int),
    decreases bs.len(),
{
    if bs.len() > 0 {
        let front = bs.drop_last();
        let b = bs.last();
        let n = front.len() as int;
        assert(front.push(b) =~= bs);
        lemma_fits_front(front, b, size, limit);
        lemma_stored_before_push(front, b, n);
        assert(stored_before(bs, n + 1) == stored_before(bs, n) + b.1);
        lemma_totals(front, size, limit);
        if n > 0 {
            assert(bs[n].0 >= bs[n - 1].0 + bs[n - 1].1);
            assert(front.last() == bs[n - 1]);
        }
        let end = file_end(front);
        assert(end <= b.0);
        let gap = (b.0 - end) as u64;
        crate::entry::lemma_one_more_part(parts_of(front), EntryIo::Pad(gap));
        let holes = if end < b.0 {
            parts_of(front).push(EntryIo::Pad(gap))
        } else {
            parts_of(front)
        };
        crate::entry::lemma_one_more_part(holes, EntryIo::Data(b.1));
    }
}

/// Whether this is the member that blocks make up of a sparse entry.
spec fn is_sparse_member(m: EntryView, from: EntryView, bs: Seq<(u64, u64)>, moved: int) -> bool {
    m == (EntryView {
        size: file_end(bs) as u64,
        data: parts_of(bs),
        file_pos: (from.file_pos + moved) as u64,
        ..from
    })
}

/// The rest of a map is read to its end; the member is yielded if and only if all
/// the blocks make up the file, and else the stream fails.
#[verifier::spinoff_prover]
#[verifier::rlimit(40)]
proof fn lemma_chain(
    a: ArchiveView,
    e: EntriesView,
    s: SparseView,
    bs: Seq<(u64, u64)>,
    xs: Seq<Seq<u8>>,
    rest: Seq<u8>,
)
    requires
        !e.failed,
        e.sparse == Some(s),
        !s.continuation_reserved,
        e.scan.block.len() == 0,
        has_taken(a.options, s, bs),
        is_chain(s.needs_continuation, xs),
        a.pos + 512 * xs.len() <= u64::MAX,
        e.scan.next + 512 * xs.len() <= u64::MAX,
        s.entry.file_pos + 512 * xs.len() <= u64::MAX,
        a.options.max_sparse_continuation_blocks matches Some(most) ==> s.continuation_blocks
            + xs.len() <= most,
    ensures
        ({
            let all = bs + listed_in_chain(xs);
            let real_size = header_real_size(s.entry.header);
            let (read, after, left, out) = said(a, e, chain_bytes(xs) + rest);
            if makes_up(all, s.entry.size, real_size, a.options.max_sparse_entries) {
                &&& out matches Some(Ok(m)) && is_sparse_member(
                    m,
                    s.entry,
                    all,
                    512 * xs.len() as int,
                )
                &&& left == rest
                &&& read == read_on(a, 512 * xs.len())
                &&& after == (EntriesView {
                    sparse: None,
                    scan: ScanView { next: (e.scan.next + 512 * xs.len()) as u64, ..e.scan },
                    ..e
                })
            } else {
                out matches Some(Err(_))
            }
        }),
    decreases xs.len(),
{
    let o = a.options;
    let size = s.entry.size;
    let real_size = header_real_size(s.entry.header);
    lemma_consistent(o, s, bs);
    if xs.len() == 0 {
        assert(bs + listed_in_chain(xs) =~= bs);
        assert(chain_bytes(xs) + rest =~= rest);
        reveal(settled);
        lemma_said_settled(a, e, rest);
        assert(read_on(a, 0) =~= a);
        if makes_up(bs, size, real_size, o.max_sparse_entries) {
            assert(settled(o, a.pos, e).0 =~= EntriesView {
                sparse: None,
                scan: ScanView { next: (e.scan.next + 512 * xs.len()) as u64, ..e.scan },
                ..e
            });
        }
    } else {
        let x = xs[0];
        let others = xs.skip(1);
        let more = listed(x, 0, 21);
        let all = bs + listed_in_chain(xs);
        assert(all =~= (bs + more) + listed_in_chain(others));
        assert(chain_bytes(xs) + rest =~= x + (chain_bytes(others) + rest));
        let reserved = continuation_reserve(o, s)->Ok_0;
        lemma_continuation(a, e, s, x, chain_bytes(others) + rest);
        let moved = SparseView {
            entry: EntryView { file_pos: (s.entry.file_pos + 512) as u64, ..s.entry },
            continuation_reserved: false,
            ..reserved
        };
        assert(has_taken(o, moved, bs));
        lemma_table(o, moved, bs, x, 0, 21);
        let (next, result) = with_continuation(o, reserved, e.scan.next, x);
        if let Ok(t) = result {
            let e1 = EntriesView { sparse: Some(t), scan: ScanView { next, ..e.scan }, ..e };
            assert(has_taken(o, t, bs + more));
            lemma_chain(read_on(a, 512), e1, t, bs + more, others, rest);
            assert(read_on(read_on(a, 512), 512 * others.len()) =~= read_on(a, 512 * xs.len()));
        } else {
            if fits(all, size, o.max_sparse_entries) {
                lemma_fits_prefix(bs + more, listed_in_chain(others), size, o.max_sparse_entries);
            }
        }
    }
}

/// A GNU sparse file is read from its header, the rest of its map and its data.
/// Where the blocks that the map lists make up the file, it is yielded as a member
/// as long as the header says: each block with its part of the data, and zero
/// bytes everywhere else, also behind the last block that has data. Where they do
/// not, the stream fails. The name and the link target may be told by long name
/// entries, and the next header stands behind the data.
#[verifier::spinoff_prover]
#[verifier::rlimit(60)]
pub proof fn law_sparse_file_is_read(
    a: ArchiveView,
    e: EntriesView,
    between: Seq<u8>,
    h: Seq<u8>,
    xs: Seq<Seq<u8>>,
    data: Seq<u8>,
    rest: Seq<u8>,
)
    requires
        comes_to_member(a, e, between, h),
        h[156] == 'S' as u8,
        says_gnu(h),
        e.pax_data is None,
        !e.pax.ready,
        header_size(h) == Ok::<u64, ErrorView>(data.len() as u64),
        is_map(h, 386, 4),
        is_chain(h[482] == 1, xs),
        a.pos + between.len() + 512 + 512 * xs.len() + data.len() + 511 <= u64::MAX,
        a.options.max_sparse_continuation_blocks matches Some(most) ==> xs.len() <= most,
    ensures
        ({
            let bs = listed(h, 386, 4) + listed_in_chain(xs);
            let (read, after, left, out) = said(
                a,
                e,
                between + h + chain_bytes(xs) + data + rest,
            );
            if makes_up(
                bs,
                data.len() as u64,
                header_real_size(h),
                a.options.max_sparse_entries,
            ) {
                &&& out matches Some(Ok(m)) && {
                    &&& m.size == file_end(bs)
                    &&& is_file_of(bs, data, contents(m.data, left))
                    &&& entry_path(m) == Ok::<Seq<u8>, ErrorView>(told_path(e, h))
                    &&& entry_link(m) == Ok::<Option<Seq<u8>>, ErrorView>(told_link(e, h))
                    &&& m.header == h
                    &&& m.header_pos == a.pos + between.len()
                    &&& m.file_pos == a.pos + between.len() + 512 + 512 * xs.len()
                }
                &&& left == data + rest
                &&& read.pos == a.pos + between.len() + 512 + 512 * xs.len()
                &&& before_header(after)
                &&& !after.longname.ready && !after.longlink.ready && !after.pax.ready
                &&& after.scan.next == read.pos + (data.len() + 511) / 512 * 512
            } else {
                out matches Some(Err(_))
            }
        }),
{
    let o = a.options;
    let size = data.len() as u64;
    let v = plain_override(h, size);
    let bs = listed(h, 386, 4);
    let tail = chain_bytes(xs) + (data + rest);
    law_form_is_told_by_magic(h);
    crate::logical::lemma_keys();
    assert(between + h + chain_bytes(xs) + data + rest =~= between + h + tail);
    lemma_member_header(a, e, between, h, v, tail);
    let next = e.scan.next;
    let after_next = (next + 512 + (size + 511) / 512 * 512) as u64;
    let moved = EntriesView {
        scan: ScanView { next: after_next, open: false, block: Seq::empty() },
        ..e
    };
    let entry = member_of(o, v, h, next, (next + 512) as u64, true);
    let d = described(moved, entry);
    let read = ArchiveView {
        usage: entry_reserved(a.options, a.usage, 0, false).0,
        ..read_on(a, between.len() + 512)
    };
    let blank = sparse_blank(d);
    let none = Seq::<(u64, u64)>::empty();
    assert(parts_of(none) =~= blank.entry.data);
    assert(has_taken(o, blank, none));
    lemma_table(o, blank, none, h, 386, 4);
    assert(none + bs =~= bs);
    let all = bs + listed_in_chain(xs);
    match with_map_entries(o, blank, h, 386, 4) {
        Ok(s) => {
            let e1 = EntriesView { sparse: Some(s), ..undescribed(moved) };
            assert(sparse_start(o, d) == Ok::<SparseView, ErrorView>(s));
            lemma_chain(read, e1, s, bs, xs, data + rest);
            if makes_up(all, size, header_real_size(h), o.max_sparse_entries) {
                let stored = data + rest;
                lemma_file_of_parts(all, size, o.max_sparse_entries, stored);
                lemma_file_of_data(all, size, o.max_sparse_entries, data, rest, contents(
                    parts_of(all),
                    stored,
                ));
                let dn = e.longname.data;
                if dn.len() > 0 {
                    assert(dn.drop_last() =~= dn.take(dn.len() - 1));
                }
                let dl = e.longlink.data;
                if dl.len() > 0 {
                    assert(dl.drop_last() =~= dl.take(dl.len() - 1));
                }
            }
        },
        Err(_) => {
            if fits(all, size, o.max_sparse_entries) {
                lemma_fits_prefix(bs, listed_in_chain(xs), size, o.max_sparse_entries);
            }
        },
    }
}

/// A file that is made of no more than the stored data is made of that alone.
proof fn lemma_file_of_data(
    bs: Seq<(u64, u64)>,
    size: u64,
    limit: Option<u64>,
    data: Seq<u8>,
    rest: Seq<u8>,
    whole: Seq<u8>,
)
    requires
        fits(bs, size, limit),
        data.len() == size,
        is_file_of(bs, data + rest, whole),
    ensures
        is_file_of(bs, data, whole),
{
    let stored = data + rest;
    assert forall|j: int, i: int|
        0 <= j < bs.len() && bs[j].0 <= i < bs[j].0 + bs[j].1 implies #[trigger] whole[i]
        == data[stored_before(bs, j) + i - (#[trigger] bs[j]).0] by {
        lemma_stored_grows(bs, j + 1, bs.len() as int);
        assert(stored_before(bs, j + 1) == stored_before(bs, j) + bs[j].1);
        assert(stored[stored_before(bs, j) + i - bs[j].0] == data[stored_before(bs, j) + i
            - bs[j].0]);
    }
}

proof fn lemma_stored_grows(bs: Seq<(u64, u64)>, m: int, n: int)
    requires
        0 <= m <= n <= bs.len(),
    ensures
        stored_before(bs, m) <= stored_before(bs, n),
    decreases n - m,
{
    if m < n {
        lemma_stored_grows(bs, m, n - 1);
    }
}

/// A sparse file whose map ends in an entry of no length, where the file ends,
/// ends in a hole.
pub proof fn law_last_hole_is_kept(
    bs: Seq<(u64, u64)>,
    size: u64,
    limit: Option<u64>,
    n: u64,
    whole: Seq<u8>,
    data: Seq<u8>,
)
    requires
        fits(bs, size, limit),
        stored_before(bs, bs.len() as int) == size,
        n >= file_end(bs),
        limit matches Some(most) ==> bs.len() < most,
        is_file_of(bs.push((n, 0)), data, whole),
    ensures
        makes_up(bs.push((n, 0)), size, Ok(n), limit),
        whole.len() == n,
        forall|i: int| file_end(bs) <= i < n ==> #[trigger] whole[i] == 0,
{
    let all = bs.push((n, 0u64));
    let k = bs.len() as int;
    assert(all[k] == (n, 0u64));
    assert forall|j: int| 0 <= j <= k implies #[trigger] stored_before(all, j) == stored_before(
        bs,
        j,
    ) by {
        lemma_stored_before_push(bs, (n, 0), j);
    }
    assert(stored_before(all, k) == stored_before(bs, k));
    assert(stored_before(all, k + 1) == stored_before(all, k) + all[k].1);
    assert forall|j: int| 0 < j < all.len() implies (#[trigger] all[j]).0 >= all[j - 1].0 + all[j
        - 1].1 by {
        if j < k {
            assert(bs[j].0 >= bs[j - 1].0 + bs[j - 1].1);
            assert(all[j] == bs[j] && all[j - 1] == bs[j - 1]);
        } else {
            assert(all[j - 1] == bs.last());
        }
    }
    assert forall|j: int| 0 <= j < all.len() implies (#[trigger] all[j]).0 + all[j].1
        <= u64::MAX by {
        if j < k {
            assert(all[j] == bs[j]);
        }
    }
    assert forall|j: int| 0 <= j < all.len() && (#[trigger] all[j]).1 != 0 implies stored_before(
        all,
        j,
    ) % 512 == 0 by {
        if j < k {
            assert(all[j] == bs[j]);
        }
    }
    assert forall|i: int| file_end(bs) <= i < n implies #[trigger] whole[i] == 0 by {
        assert forall|j: int| 0 <= j < all.len() implies !((#[trigger] all[j]).0 <= i < all[j].0
            + all[j].1) by {
            if j < k {
                assert(all[j] == bs[j]);
                lemma_block_ends_before(bs, size, limit, j);
            }
        }
    }
}

} // verus!
