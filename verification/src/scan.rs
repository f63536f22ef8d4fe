//! Finding the header blocks in a stream of bytes.

use crate::bytes::{append_bytes, zeros};
use crate::entry::{Entry, EntryView};
use crate::error::{failure, other, Error, ErrorView};
use crate::header::{Header, BLOCK_SIZE};
use crate::member::{check_header, header_refusal, member, read_member};
use crate::options::{ArchiveOptions, Usage, UsageView};
use vstd::prelude::*;

verus! {

/// The most bytes that are asked for at once where their number is open.
pub const MAX_READ: u64 = 32768;

/// Where a stream is between two headers or amid one.
#[derive(Debug)]
pub struct Scan {
    /// The position of the next header.
    pub next: u64,
    /// Whether the stream has come to that header.
    pub open: bool,
    /// What was read so far of a block.
    pub block: Vec<u8>,
}

/// What a [`Scan`] is.
#[verifier::ext_equal]
pub struct ScanView {
    pub next: u64,
    pub open: bool,
    pub block: Seq<u8>,
}

impl View for Scan {
    type V = ScanView;

    open spec fn view(&self) -> ScanView {
        ScanView { next: self.next, open: self.open, block: self.block@ }
    }
}

/// A block that is being read is not complete.
pub open spec fn scan_wf(s: ScanView) -> bool {
    s.block.len() < 512
}

/// A stream at its start.
pub open spec fn scan_start() -> ScanView {
    ScanView { next: 0, open: false, block: Seq::empty() }
}

/// The sum of two positions, which wrap around at 2^64.
pub open spec fn wrap_add(a: u64, b: nat) -> u64 {
    ((a + b) % 0x1_0000_0000_0000_0000) as u64
}

/// How far a position is in front of another one, around 2^64.
pub open spec fn distance(from: u64, to: u64) -> u64 {
    if from <= to {
        (to - from) as u64
    } else {
        (to - from + 0x1_0000_0000_0000_0000) as u64
    }
}

/// How many bytes a stream at `pos` takes next: up to the next header, or up to
/// the end of the block.
pub open spec fn scan_room(s: ScanView, pos: u64) -> nat {
    if s.open {
        (512 - s.block.len()) as nat
    } else {
        distance(pos, s.next) as nat
    }
}

/// How many bytes to ask for, of a number of them.
pub open spec fn ask(n: nat) -> u64 {
    if n <= MAX_READ {
        n as u64
    } else {
        MAX_READ
    }
}

/// A stream that opens the next header where it has come to it.
pub open spec fn scan_opened(s: ScanView, pos: u64) -> ScanView {
    if s.open || distance(pos, s.next) > 0 {
        s
    } else {
        ScanView { open: true, block: Seq::empty(), ..s }
    }
}

/// What comes of bytes that were read.
pub enum ScanTurnView {
    /// More bytes are needed.
    More,
    /// A block is complete.
    Block(Seq<u8>),
    /// The stream has ended where a block would have started.
    End,
    /// The stream has ended where it must not.
    Fail(ErrorView),
}

/// A stream after bytes were read; none were read where the stream ends.
pub open spec fn scan_taken(s: ScanView, chunk: Seq<u8>) -> (ScanView, ScanTurnView) {
    if !s.open {
        (
            s,
            if chunk.len() == 0 {
                ScanTurnView::Fail(failure("unexpected EOF during skip"@))
            } else {
                ScanTurnView::More
            },
        )
    } else {
        block_taken(s, chunk)
    }
}

/// A block after bytes were read; none were read where the stream ends.
pub open spec fn block_taken(s: ScanView, chunk: Seq<u8>) -> (ScanView, ScanTurnView) {
    if chunk.len() == 0 {
        (
            s,
            if s.block.len() == 0 {
                ScanTurnView::End
            } else {
                ScanTurnView::Fail(failure("failed to read entire block"@))
            },
        )
    } else if s.block.len() + chunk.len() < 512 {
        (ScanView { block: s.block + chunk, ..s }, ScanTurnView::More)
    } else {
        (ScanView { block: Seq::empty(), ..s }, ScanTurnView::Block(s.block + chunk))
    }
}

/// What comes of a block where a header is expected.
pub enum RawTurnView {
    /// The block was passed over.
    Again,
    /// The archive has ended.
    End,
    /// The block is no good.
    Fail(ErrorView),
    /// The block is a header.
    Member(EntryView),
}

/// What comes of the block `b` where a header is expected. `pending` tells
/// whether an extension entry waits for its member.
pub open spec fn raw_block(
    o: ArchiveOptions,
    u: UsageView,
    s: ScanView,
    b: Seq<u8>,
    pax: Option<Seq<u8>>,
    apply: bool,
    pending: bool,
) -> (UsageView, ScanView, RawTurnView) {
    let behind = ScanView { next: wrap_add(s.next, 512), ..s };
    if b == zeros(512) {
        if pending {
            (
                u,
                s,
                if o.pax_only {
                    RawTurnView::End
                } else {
                    RawTurnView::Fail(failure("extension entry was not followed by a member"@))
                },
            )
        } else if o.ignore_zeros {
            (u, behind, RawTurnView::Again)
        } else {
            (u, s, RawTurnView::End)
        }
    } else {
        match header_refusal(o, b) {
            Some(err) => (u, behind, RawTurnView::Fail(err)),
            None => {
                let (counted, next, result) = member(o, u, b, s.next, behind.next, pax, apply);
                (
                    counted,
                    ScanView { next, open: false, ..s },
                    match result {
                        Ok(entry) => RawTurnView::Member(entry),
                        Err(err) => RawTurnView::Fail(err),
                    },
                )
            },
        }
    }
}

/// What comes of bytes that were read.
#[derive(Debug)]
pub enum ScanTurn {
    /// More bytes are needed.
    More,
    /// A block is complete.
    Block(Header),
    /// The stream has ended where a block would have started.
    End,
    /// The stream has ended where it must not.
    Fail(Error),
}

impl View for ScanTurn {
    type V = ScanTurnView;

    open spec fn view(&self) -> ScanTurnView {
        match self {
            ScanTurn::More => ScanTurnView::More,
            ScanTurn::Block(b) => ScanTurnView::Block(b@),
            ScanTurn::End => ScanTurnView::End,
            ScanTurn::Fail(e) => ScanTurnView::Fail(e@),
        }
    }
}

/// What comes of a block where a header is expected.
#[derive(Debug)]
pub enum RawTurn {
    /// The block was passed over.
    Again,
    /// The archive has ended.
    End,
    /// The block is no good.
    Fail(Error),
    /// The block is a header.
    Member(Entry),
}

impl View for RawTurn {
    type V = RawTurnView;

    open spec fn view(&self) -> RawTurnView {
        match self {
            RawTurn::Again => RawTurnView::Again,
            RawTurn::End => RawTurnView::End,
            RawTurn::Fail(e) => RawTurnView::Fail(e@),
            RawTurn::Member(e) => RawTurnView::Member(e@),
        }
    }
}

/// How far `to` is in front of `from`, around 2^64.
pub(crate) fn distance_of(from: u64, to: u64) -> (d: u64)
    ensures
        d == distance(from, to),
{
    to.wrapping_sub(from)
}

/// How many bytes to ask for, of a number of them.
pub(crate) fn ask_for(n: u64) -> (asked: u64)
    ensures
        asked == ask(n as nat),
{
    if n <= MAX_READ {
        n
    } else {
        MAX_READ
    }
}

impl Scan {
    /// A stream at its start.
    pub fn new() -> (scan: Scan)
        ensures
            scan@ == scan_start(),
    {
        let scan = Scan { next: 0, open: false, block: Vec::new() };
        assert(scan@ =~= scan_start());
        scan
    }

    /// Opens the next header where the stream has come to it, and tells how
    /// many bytes to read.
    pub fn want(&mut self, pos: u64) -> (n: u64)
        requires
            scan_wf(old(self)@),
        ensures
            final(self)@ == scan_opened(old(self)@, pos),
            n == ask(scan_room(final(self)@, pos)),
            scan_wf(final(self)@),
    {
        if !self.open {
            let left: u64 = distance_of(pos, self.next);
            if left > 0 {
                return ask_for(left);
            }
            self.open = true;
            self.block = Vec::new();
            assert(self@ =~= scan_opened(old(self)@, pos));
        }
        ask_for(512 - self.block.len() as u64)
    }

    /// Takes bytes that were read on the way to a header or of it.
    pub fn take(&mut self, chunk: &[u8]) -> (turn: ScanTurn)
        requires
            scan_wf(old(self)@),
            old(self)@.open ==> old(self)@.block.len() + chunk@.len() <= 512,
        ensures
            (final(self)@, turn@) == scan_taken(old(self)@, chunk@),
            scan_wf(final(self)@),
    {
        if !self.open {
            if chunk.len() == 0 {
                ScanTurn::Fail(other("unexpected EOF during skip"))
            } else {
                ScanTurn::More
            }
        } else {
            self.take_block(chunk)
        }
    }

    /// Takes bytes that were read of a block.
    pub fn take_block(&mut self, chunk: &[u8]) -> (turn: ScanTurn)
        requires
            scan_wf(old(self)@),
            old(self)@.block.len() + chunk@.len() <= 512,
        ensures
            (final(self)@, turn@) == block_taken(old(self)@, chunk@),
            scan_wf(final(self)@),
    {
        if chunk.len() == 0 {
            return if self.block.len() == 0 {
                ScanTurn::End
            } else {
                ScanTurn::Fail(other("failed to read entire block"))
            };
        }
        append_bytes(&mut self.block, chunk);
        if self.block.len() < 512 {
            return ScanTurn::More;
        }
        let header = Header::from_byte_slice(self.block.as_slice());
        self.block = Vec::new();
        assert(self@ =~= block_taken(old(self)@, chunk@).0);
        ScanTurn::Block(header)
    }

    /// Takes a block where a header is expected.
    pub fn take_header(
        &mut self,
        options: &ArchiveOptions,
        usage: &mut Usage,
        header: Header,
        pax: Option<&[u8]>,
        apply: bool,
        pending: bool,
    ) -> (turn: RawTurn)
        ensures
            (final(usage)@, final(self)@, turn@) == raw_block(
                *options,
                old(usage)@,
                old(self)@,
                header@,
                match pax {
                    Some(d) => Some(d@),
                    None => None,
                },
                apply,
                pending,
            ),
            final(self)@.block == old(self)@.block,
    {
        let ghost before = self@;
        if header.is_zero() {
            if pending {
                return if options.pax_only {
                    RawTurn::End
                } else {
                    RawTurn::Fail(other("extension entry was not followed by a member"))
                };
            }
            if !options.ignore_zeros {
                return RawTurn::End;
            }
            self.next = self.next.wrapping_add(BLOCK_SIZE);
            assert(self@ =~= ScanView { next: wrap_add(before.next, 512), ..before });
            return RawTurn::Again;
        }
        let header_pos: u64 = self.next;
        self.next = self.next.wrapping_add(BLOCK_SIZE);
        assert(self@ =~= ScanView { next: wrap_add(before.next, 512), ..before });
        match check_header(options, &header) {
            Ok(()) => {},
            Err(e) => {
                return RawTurn::Fail(e);
            },
        }
        self.open = false;
        match read_member(options, usage, header, header_pos, &mut self.next, pax, apply) {
            Ok(entry) => RawTurn::Member(entry),
            Err(e) => RawTurn::Fail(e),
        }
    }
}

} // verus!
