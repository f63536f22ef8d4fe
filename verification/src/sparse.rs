//! GNU sparse files: files with holes, of which the archive holds only the
//! blocks of data.

use crate::bytes::field;
use crate::entry::{lemma_one_more_part, stored_len, total_len, Entry, EntryIo, EntryView};
use crate::error::{excess, failure, invalid_data, other, outcome, Error, ErrorView};
use crate::form::{
    ext_is_extended, gnu_is_extended, sparse_is_empty, sparse_number, GnuExtSparseHeader,
    GnuSparseHeader,
};
use crate::header::{header_real_size, is_gnu, Header, BLOCK_SIZE};
use crate::options::ArchiveOptions;
use vstd::prelude::*;

verus! {

/// A sparse file whose map is being read.
#[derive(Debug)]
pub struct SparseState {
    /// The member.
    pub entry: Entry,
    /// The end of the last block in the file.
    pub cur: u64,
    /// How much of the member's data is left for further blocks.
    pub remaining: u64,
    /// How many map entries there were, where they are counted.
    pub sparse_entries: u64,
    /// How many continuation blocks there were, where they are counted.
    pub continuation_blocks: u64,
    /// Whether a continuation block follows.
    pub needs_continuation: bool,
    /// Whether that block was counted already.
    pub continuation_reserved: bool,
}

/// What a [`SparseState`] is.
#[verifier::ext_equal]
pub struct SparseView {
    pub entry: EntryView,
    pub cur: u64,
    pub remaining: u64,
    pub sparse_entries: u64,
    pub continuation_blocks: u64,
    pub needs_continuation: bool,
    pub continuation_reserved: bool,
}

impl View for SparseState {
    type V = SparseView;

    open spec fn view(&self) -> SparseView {
        SparseView {
            entry: self.entry@,
            cur: self.cur,
            remaining: self.remaining,
            sparse_entries: self.sparse_entries,
            continuation_blocks: self.continuation_blocks,
            needs_continuation: self.needs_continuation,
            continuation_reserved: self.continuation_reserved,
        }
    }
}

/// A result, with what its sparse file is in place of it.
pub open spec fn outcome_sparse(r: Result<SparseState, Error>) -> Result<SparseView, ErrorView> {
    match r {
        Ok(s) => Ok(s@),
        Err(e) => Err(e@),
    }
}

/// The blocks of a sparse file cover it up to `cur` and have used all data but
/// `remaining`.
pub open spec fn is_consistent(s: SparseView) -> bool {
    &&& s.remaining <= s.entry.size
    &&& total_len(s.entry.data) == s.cur
    &&& stored_len(s.entry.data) + s.remaining == s.entry.size
}

/// The map entry `e`: none where it is empty.
pub open spec fn sparse_block(e: Seq<u8>) -> Result<Option<(u64, u64)>, ErrorView> {
    if sparse_is_empty(e) {
        Ok(None)
    } else {
        match sparse_number(field(e, 0, 12), "offset"@) {
            Ok(offset) => match sparse_number(field(e, 12, 12), "length"@) {
                Ok(length) => Ok(Some((offset, length))),
                Err(err) => Err(err),
            },
            Err(err) => Err(err),
        }
    }
}

/// Why a block cannot be added to a sparse file.
pub open spec fn block_refusal(o: ArchiveOptions, s: SparseView, offset: u64, length: u64) -> Option<
    ErrorView,
> {
    if length != 0 && (s.entry.size - s.remaining) % 512 != 0 {
        Some(failure("previous block in sparse file was not aligned to 512-byte boundary"@))
    } else if offset < s.cur {
        Some(failure("out of order or overlapping sparse blocks"@))
    } else if offset + length > u64::MAX {
        Some(failure("more bytes listed in sparse file than u64 can hold"@))
    } else if length > s.remaining {
        Some(failure("sparse file consumed more data than the header listed"@))
    } else if o.max_sparse_entries matches Some(limit) && s.sparse_entries + 1 > limit {
        Some(excess("archive sparse entry limit exceeded"@))
    } else {
        None
    }
}

/// A sparse file with one more block: a hole up to its start, and its data.
pub open spec fn with_block(o: ArchiveOptions, s: SparseView, offset: u64, length: u64) -> SparseView {
    let holes = if s.cur < offset {
        s.entry.data.push(EntryIo::Pad((offset - s.cur) as u64))
    } else {
        s.entry.data
    };
    SparseView {
        entry: EntryView { data: holes.push(EntryIo::Data(length)), ..s.entry },
        cur: (offset + length) as u64,
        remaining: (s.remaining - length) as u64,
        sparse_entries: if o.max_sparse_entries is Some {
            (s.sparse_entries + 1) as u64
        } else {
            s.sparse_entries
        },
        ..s
    }
}

/// A sparse file with the block of the map entry `e`, if it has one.
pub open spec fn with_map_entry(o: ArchiveOptions, s: SparseView, e: Seq<u8>) -> Result<
    SparseView,
    ErrorView,
> {
    match sparse_block(e) {
        Ok(Some((offset, length))) => match block_refusal(o, s, offset, length) {
            Some(err) => Err(err),
            None => Ok(with_block(o, s, offset, length)),
        },
        Ok(None) => Ok(s),
        Err(err) => Err(err),
    }
}

/// A sparse file with the blocks of the first `n` map entries of a table that
/// starts at `at` in the block `b`.
pub open spec fn with_map_entries(
    o: ArchiveOptions,
    s: SparseView,
    b: Seq<u8>,
    at: int,
    n: nat,
) -> Result<SparseView, ErrorView>
    decreases n,
{
    if n == 0 {
        Ok(s)
    } else {
        match with_map_entries(o, s, b, at, (n - 1) as nat) {
            Ok(before) => with_map_entry(o, before, field(b, at + 24 * (n - 1), 24)),
            Err(err) => Err(err),
        }
    }
}

/// What a sparse file is after the map entries of a table up to the first that
/// cannot be added, or after all of them.
pub open spec fn kept_map_entries(
    o: ArchiveOptions,
    s: SparseView,
    b: Seq<u8>,
    at: int,
    n: nat,
) -> SparseView
    decreases n,
{
    match with_map_entries(o, s, b, at, n) {
        Ok(done) => done,
        Err(_) => if n == 0 {
            s
        } else {
            kept_map_entries(o, s, b, at, (n - 1) as nat)
        },
    }
}

/// A sparse file before its map is read.
pub open spec fn sparse_blank(e: EntryView) -> SparseView {
    SparseView {
        entry: EntryView { data: Seq::empty(), ..e },
        cur: 0,
        remaining: e.size,
        sparse_entries: 0,
        continuation_blocks: 0,
        needs_continuation: gnu_is_extended(e.header),
        continuation_reserved: false,
    }
}

/// A sparse file with the blocks that its header lists.
pub open spec fn sparse_start(o: ArchiveOptions, e: EntryView) -> Result<SparseView, ErrorView> {
    if is_gnu(e.header) {
        with_map_entries(o, sparse_blank(e), e.header, 386, 4)
    } else {
        Err(failure("sparse entry type listed but not GNU header"@))
    }
}

/// A sparse file with its next continuation block counted, within the limit.
pub open spec fn continuation_reserve(o: ArchiveOptions, s: SparseView) -> Result<
    SparseView,
    ErrorView,
> {
    if s.continuation_reserved {
        Ok(s)
    } else {
        match o.max_sparse_continuation_blocks {
            Some(limit) => if s.continuation_blocks + 1 > limit {
                Err(excess("archive sparse continuation block limit exceeded"@))
            } else {
                Ok(
                    SparseView {
                        continuation_blocks: (s.continuation_blocks + 1) as u64,
                        continuation_reserved: true,
                        ..s
                    },
                )
            },
            None => Ok(SparseView { continuation_reserved: true, ..s }),
        }
    }
}

/// The positions of the next header and of the data behind one more block.
pub open spec fn advanced(next: u64, file_pos: u64) -> Result<(u64, u64), ErrorView> {
    if next + 512 > u64::MAX || file_pos + 512 > u64::MAX {
        Err(failure("position overflow"@))
    } else {
        Ok(((next + 512) as u64, (file_pos + 512) as u64))
    }
}

/// A sparse file, and the position of the next header, after the continuation
/// block `b`.
pub open spec fn with_continuation(
    o: ArchiveOptions,
    s: SparseView,
    next: u64,
    b: Seq<u8>,
) -> (u64, Result<SparseView, ErrorView>) {
    match advanced(next, s.entry.file_pos) {
        Ok((after, file_pos)) => {
            let moved = SparseView {
                entry: EntryView { file_pos, ..s.entry },
                continuation_reserved: false,
                ..s
            };
            match with_map_entries(o, moved, b, 0, 21) {
                Ok(done) => (
                    after,
                    Ok(SparseView { needs_continuation: ext_is_extended(b), ..done }),
                ),
                Err(err) => (after, Err(err)),
            }
        },
        Err(err) => (next, Err(err)),
    }
}

/// What a sparse file is after the continuation block `b`, also where that is no
/// good.
pub open spec fn kept_continuation(
    o: ArchiveOptions,
    s: SparseView,
    next: u64,
    b: Seq<u8>,
) -> SparseView {
    let taken = SparseView { continuation_reserved: false, ..s };
    match (advanced(next, s.entry.file_pos), with_continuation(o, s, next, b).1) {
        (_, Ok(done)) => done,
        (Ok((_, file_pos)), Err(_)) => kept_map_entries(
            o,
            SparseView { entry: EntryView { file_pos, ..s.entry }, ..taken },
            b,
            0,
            21,
        ),
        (Err(_), Err(_)) => taken,
    }
}

/// The member that a sparse file is once its map is read.
pub open spec fn sparse_finish(s: SparseView) -> Result<EntryView, ErrorView> {
    match header_real_size(s.entry.header) {
        Ok(real_size) => if s.cur != real_size {
            Err(failure("mismatch in sparse file chunks and size in header"@))
        } else if s.remaining > 0 {
            Err(failure("mismatch in sparse file chunks and entry size in header"@))
        } else {
            Ok(EntryView { size: s.cur, ..s.entry })
        },
        Err(err) => Err(err),
    }
}

/// Reads a map entry.
pub fn parse_sparse_block(block: &GnuSparseHeader) -> (parsed: Result<Option<(u64, u64)>, Error>)
    ensures
        outcome(parsed) == sparse_block(block@),
{
    if block.is_empty() {
        return Ok(None);
    }
    match block.offset() {
        Ok(offset) => match block.length() {
            Ok(length) => Ok(Some((offset, length))),
            Err(e) => Err(e),
        },
        Err(e) => Err(e),
    }
}

/// Moves both positions on by a block, or neither.
pub fn advance_sparse_positions(next: &mut u64, file_pos: &mut u64) -> (done: Result<(), Error>)
    ensures
        match advanced(*old(next), *old(file_pos)) {
            Ok((n, f)) => done is Ok && *final(next) == n && *final(file_pos) == f,
            Err(err) => done matches Err(e) && e@ == err && *final(next) == *old(next)
                && *final(file_pos) == *old(file_pos),
        },
{
    let advanced_next: u64 = match next.checked_add(BLOCK_SIZE) {
        Some(n) => n,
        None => {
            return Err(other("position overflow"));
        },
    };
    let advanced_file_pos: u64 = match file_pos.checked_add(BLOCK_SIZE) {
        Some(n) => n,
        None => {
            return Err(other("position overflow"));
        },
    };
    *next = advanced_next;
    *file_pos = advanced_file_pos;
    Ok(())
}

impl SparseState {
    /// A sparse file with the blocks that its header lists.
    pub fn new(options: &ArchiveOptions, entry: Entry) -> (state: Result<SparseState, Error>)
        ensures
            outcome_sparse(state) == sparse_start(*options, entry@),
            state matches Ok(s) ==> is_consistent(s@),
    {
        let mut entry = entry;
        let gnu = match entry.header.as_gnu() {
            Some(gnu) => gnu,
            None => {
                return Err(other("sparse entry type listed but not GNU header"));
            },
        };
        let ghost whole = entry@;
        let header: Header = entry.header;
        let remaining: u64 = entry.size;
        entry.data.clear();
        let mut state = SparseState {
            entry,
            cur: 0,
            remaining,
            sparse_entries: 0,
            continuation_blocks: 0,
            needs_continuation: gnu.is_extended(),
            continuation_reserved: false,
        };
        assert(state@ =~= sparse_blank(whole));
        match state.add_map_entries(options, header.as_bytes().as_slice(), 386, 4) {
            Ok(()) => Ok(state),
            Err(e) => Err(e),
        }
    }

    /// Adds the blocks of `n` map entries that start at `at` in a block.
    fn add_map_entries(&mut self, options: &ArchiveOptions, b: &[u8], at: usize, n: usize) -> (done:
        Result<(), Error>)
        requires
            old(self).remaining <= old(self).entry.size,
            b@.len() == 512,
            at + 24 * n <= 512,
        ensures
            match with_map_entries(*options, old(self)@, b@, at as int, n as nat) {
                Ok(_) => done is Ok,
                Err(err) => done matches Err(e) && e@ == err,
            },
            final(self)@ == kept_map_entries(*options, old(self)@, b@, at as int, n as nat),
            is_consistent(old(self)@) ==> is_consistent(final(self)@),
    {
        let mut i: usize = 0;
        while i < n
            invariant
                i <= n,
                b@.len() == 512,
                at + 24 * n <= 512,
                self.remaining <= self.entry.size,
                is_consistent(old(self)@) ==> is_consistent(self@),
                with_map_entries(*options, old(self)@, b@, at as int, i as nat) == Ok::<
                    SparseView,
                    ErrorView,
                >(self@),
            decreases n - i,
        {
            let block = GnuSparseHeader::of_block(b, at + 24 * i);
            let parsed = parse_sparse_block(&block);
            match parsed {
                Ok(Some((offset, length))) => match self.add_block(options, offset, length) {
                    Ok(()) => {},
                    Err(e) => {
                        proof {
                            assert(kept_map_entries(
                                *options,
                                old(self)@,
                                b@,
                                at as int,
                                i as nat,
                            ) == self@);
                            lemma_map_entries_stuck(
                                *options,
                                old(self)@,
                                b@,
                                at as int,
                                i as nat + 1,
                                n as nat,
                            );
                        }
                        return Err(e);
                    },
                },
                Ok(None) => {},
                Err(e) => {
                    proof {
                        assert(kept_map_entries(
                            *options,
                            old(self)@,
                            b@,
                            at as int,
                            i as nat,
                        ) == self@);
                        lemma_map_entries_stuck(
                            *options,
                            old(self)@,
                            b@,
                            at as int,
                            i as nat + 1,
                            n as nat,
                        );
                    }
                    return Err(e);
                },
            }
            i = i + 1;
        }
        Ok(())
    }

    /// Adds a block: a hole up to its start, and its data.
    #[verifier::rlimit(30)]
    pub fn add_block(&mut self, options: &ArchiveOptions, offset: u64, length: u64) -> (done: Result<
        (),
        Error,
    >)
        requires
            length != 0 ==> old(self).remaining <= old(self).entry.size,
        ensures
            match block_refusal(*options, old(self)@, offset, length) {
                Some(err) => done matches Err(e) && e@ == err && final(self)@ == old(self)@,
                None => done is Ok && final(self)@ == with_block(
                    *options,
                    old(self)@,
                    offset,
                    length,
                ),
            },
            is_consistent(old(self)@) ==> is_consistent(final(self)@),
    {
        let ghost before = self@;
        if length != 0 && (self.entry.size - self.remaining) % BLOCK_SIZE != 0 {
            return Err(
                other("previous block in sparse file was not aligned to 512-byte boundary"),
            );
        }
        if offset < self.cur {
            return Err(other("out of order or overlapping sparse blocks"));
        }
        let next_cur: u64 = match offset.checked_add(length) {
            Some(n) => n,
            None => {
                return Err(other("more bytes listed in sparse file than u64 can hold"));
            },
        };
        let next_remaining: u64 = match self.remaining.checked_sub(length) {
            Some(n) => n,
            None => {
                return Err(other("sparse file consumed more data than the header listed"));
            },
        };
        if let Some(limit) = options.max_sparse_entries {
            let next: u64 = match self.sparse_entries.checked_add(1) {
                Some(n) => n,
                None => {
                    return Err(invalid_data("archive sparse entry limit exceeded"));
                },
            };
            if next > limit {
                return Err(invalid_data("archive sparse entry limit exceeded"));
            }
            self.sparse_entries = next;
        }
        if self.cur < offset {
            self.entry.data.push_back(EntryIo::Pad(offset - self.cur));
        }
        self.cur = next_cur;
        self.remaining = next_remaining;
        self.entry.data.push_back(EntryIo::Data(length));
        proof {
            assert(self@ =~= with_block(*options, before, offset, length));
            if is_consistent(before) {
                law_block_keeps_consistency(*options, before, offset, length);
            }
        }
        Ok(())
    }

    /// Counts the continuation block that is to be read next, within the limit.
    pub fn reserve_continuation(&mut self, options: &ArchiveOptions) -> (done: Result<(), Error>)
        ensures
            match continuation_reserve(*options, old(self)@) {
                Ok(s) => done is Ok && final(self)@ == s,
                Err(err) => done matches Err(e) && e@ == err && final(self)@ == old(self)@,
            },
    {
        if self.continuation_reserved {
            return Ok(());
        }
        if let Some(limit) = options.max_sparse_continuation_blocks {
            let next: u64 = match self.continuation_blocks.checked_add(1) {
                Some(n) => n,
                None => {
                    return Err(invalid_data("archive sparse continuation block limit exceeded"));
                },
            };
            if next > limit {
                return Err(invalid_data("archive sparse continuation block limit exceeded"));
            }
            self.continuation_blocks = next;
        }
        self.continuation_reserved = true;
        Ok(())
    }

    /// Adds the blocks of a continuation block.
    pub fn add_continuation(&mut self, options: &ArchiveOptions, next: &mut u64, b: &[u8]) -> (done:
        Result<(), Error>)
        requires
            old(self).remaining <= old(self).entry.size,
            b@.len() == 512,
        ensures
            ({
                let (after, result) = with_continuation(*options, old(self)@, *old(next), b@);
                &&& *final(next) == after
                &&& match result {
                    Ok(_) => done is Ok,
                    Err(err) => done matches Err(e) && e@ == err,
                }
            }),
            final(self)@ == kept_continuation(*options, old(self)@, *old(next), b@),
            is_consistent(old(self)@) ==> is_consistent(final(self)@),
    {
        let ghost before = self@;
        self.continuation_reserved = false;
        match advance_sparse_positions(next, &mut self.entry.file_pos) {
            Ok(()) => {},
            Err(e) => {
                return Err(e);
            },
        }
        let block = GnuExtSparseHeader::from_byte_slice(b);
        match self.add_map_entries(options, b, 0, 21) {
            Ok(()) => {
                self.needs_continuation = block.is_extended();
                Ok(())
            },
            Err(e) => Err(e),
        }
    }

    /// The member that this is once its map is read.
    pub fn finish(self) -> (entry: Result<Entry, Error>)
        ensures
            match sparse_finish(self@) {
                Ok(view) => entry matches Ok(e) && e@ == view,
                Err(err) => entry matches Err(e) && e@ == err,
            },
    {
        let mut entry = self.entry;
        let real_size: u64 = match entry.header.real_size() {
            Ok(n) => n,
            Err(e) => {
                return Err(e);
            },
        };
        if self.cur != real_size {
            return Err(other("mismatch in sparse file chunks and size in header"));
        }
        entry.size = self.cur;
        if self.remaining > 0 {
            return Err(other("mismatch in sparse file chunks and entry size in header"));
        }
        Ok(entry)
    }
}

/// A table with a bad entry is bad.
proof fn lemma_map_entries_stuck(
    o: ArchiveOptions,
    s: SparseView,
    b: Seq<u8>,
    at: int,
    k: nat,
    n: nat,
)
    requires
        k <= n,
        with_map_entries(o, s, b, at, k) is Err,
    ensures
        with_map_entries(o, s, b, at, n) == with_map_entries(o, s, b, at, k),
        kept_map_entries(o, s, b, at, n) == kept_map_entries(o, s, b, at, k),
    decreases n - k,
{
    if k < n {
        lemma_map_entries_stuck(o, s, b, at, k + 1, n);
    }
}

/// Adding a block keeps the file covered up to the end of its last block, and
/// counts its data once.
pub proof fn law_block_keeps_consistency(
    o: ArchiveOptions,
    s: SparseView,
    offset: u64,
    length: u64,
)
    requires
        is_consistent(s),
        block_refusal(o, s, offset, length) is None,
    ensures
        is_consistent(with_block(o, s, offset, length)),
{
    let holes = if s.cur < offset {
        s.entry.data.push(EntryIo::Pad((offset - s.cur) as u64))
    } else {
        s.entry.data
    };
    lemma_one_more_part(s.entry.data, EntryIo::Pad((offset - s.cur) as u64));
    lemma_one_more_part(holes, EntryIo::Data(length));
}

/// Adding the blocks of a table keeps the file covered.
pub proof fn lemma_map_entries_consistent(
    o: ArchiveOptions,
    s: SparseView,
    b: Seq<u8>,
    at: int,
    n: nat,
)
    requires
        is_consistent(s),
    ensures
        with_map_entries(o, s, b, at, n) matches Ok(r) ==> is_consistent(r),
    decreases n,
{
    if n > 0 {
        lemma_map_entries_consistent(o, s, b, at, (n - 1) as nat);
        if let Ok(before) = with_map_entries(o, s, b, at, (n - 1) as nat) {
            let e = field(b, at + 24 * (n - 1), 24);
            if let Ok(Some((offset, length))) = sparse_block(e) {
                if block_refusal(o, before, offset, length) is None {
                    law_block_keeps_consistency(o, before, offset, length);
                }
            }
        }
    }
}

/// The parts of a sparse file that is complete make up its size, and their
/// data makes up the size of the member in the archive.
pub proof fn law_finished_sparse_is_covered(s: SparseView)
    requires
        is_consistent(s),
        sparse_finish(s) is Ok,
    ensures
        total_len(sparse_finish(s)->Ok_0.data) == sparse_finish(s)->Ok_0.size,
        Ok::<u64, ErrorView>(sparse_finish(s)->Ok_0.size) == header_real_size(s.entry.header),
        stored_len(sparse_finish(s)->Ok_0.data) == s.entry.size,
{
}

/// Map entries and continuation blocks stay within their limits.
pub proof fn law_sparse_limits_are_kept(
    o: ArchiveOptions,
    s: SparseView,
    offset: u64,
    length: u64,
)
    ensures
        block_refusal(o, s, offset, length) is None ==> (o.max_sparse_entries matches Some(limit)
            ==> with_block(o, s, offset, length).sparse_entries <= limit),
        !s.continuation_reserved ==> (continuation_reserve(o, s) matches Ok(r) ==> (
        o.max_sparse_continuation_blocks matches Some(limit) ==> r.continuation_blocks <= limit)),
        o.max_sparse_entries == Some(0u64) ==> block_refusal(o, s, offset, length) is Some,
        o.max_sparse_continuation_blocks == Some(0u64) && !s.continuation_reserved
            ==> continuation_reserve(o, s) is Err,
{
}

} // verus!
