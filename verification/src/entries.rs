//! The streams of an archive's members.
//!
//! A stream is handed the bytes of the archive as they are read, in chunks of
//! any size, and asks for more until it has a member.

use crate::archive::{Archive, ArchiveView};
use crate::bytes::{append_bytes, opt_bytes, zeros};
use crate::entry::{Entry, EntryView};
use crate::error::{failure, other, Error, ErrorView};
use crate::header::{header_size, header_type, is_gnu, is_ustar, Header};
use crate::member::{header_refusal, is_extension_block};
use crate::options::{entry_reserved, ArchiveOptions, UsageView};
use crate::pax::{
    any_with_key, has_key, malformed_failure, pax_extensions, pax_malformed, pax_records,
    pax_views, PaxExtensions, PaxView,
};
use crate::scan::{
    ask, ask_for, block_taken, raw_block, scan_opened, scan_room, scan_start, scan_taken, scan_wf,
    wrap_add, RawTurn, RawTurnView, Scan, ScanTurn, ScanTurnView, ScanView,
};
use crate::sparse::{
    continuation_reserve, is_consistent, sparse_finish, sparse_start, with_continuation,
    SparseState, SparseView,
};
use vstd::prelude::*;
use vstd::utf8::encode_utf8;

verus! {

/// The kinds of entries that describe the next member.
#[derive(Clone, Copy, Debug, PartialEq, Eq, Structural)]
pub enum ExtensionKind {
    /// A GNU long name.
    LongName,
    /// A GNU long link target.
    LongLink,
    /// Pax records.
    Pax,
}

/// What was read of an entry that describes the next member.
#[derive(Debug)]
pub struct Extension {
    /// Whether all of it was read.
    pub ready: bool,
    /// The bytes of it.
    pub data: Vec<u8>,
}

/// What an [`Extension`] is.
#[verifier::ext_equal]
pub struct ExtensionView {
    pub ready: bool,
    pub data: Seq<u8>,
}

impl View for Extension {
    type V = ExtensionView;

    open spec fn view(&self) -> ExtensionView {
        ExtensionView { ready: self.ready, data: self.data@ }
    }
}

/// Stream of `Entry`s.
#[derive(Debug)]
pub struct Entries {
    scan: Scan,
    /// The extension entry that is being read, and how much of it is left.
    pending: Option<(ExtensionKind, u64)>,
    /// The sparse file whose map is being read.
    sparse: Option<SparseState>,
    /// Whether an error in a sparse file made the stream unsafe to resume.
    failed: bool,
    /// The pax records that apply to the next header.
    pax_data: Option<Vec<u8>>,
    longname: Extension,
    longlink: Extension,
    pax: Extension,
}

/// What an [`Entries`] is.
#[verifier::ext_equal]
pub struct EntriesView {
    pub scan: ScanView,
    pub pending: Option<(ExtensionKind, u64)>,
    pub sparse: Option<SparseView>,
    pub failed: bool,
    pub pax_data: Option<Seq<u8>>,
    pub longname: ExtensionView,
    pub longlink: ExtensionView,
    pub pax: ExtensionView,
}

/// What an optional sparse file is.
pub open spec fn opt_sparse(s: Option<SparseState>) -> Option<SparseView> {
    match s {
        Some(state) => Some(state@),
        None => None,
    }
}

impl View for Entries {
    type V = EntriesView;

    closed spec fn view(&self) -> EntriesView {
        EntriesView {
            scan: self.scan@,
            pending: self.pending,
            sparse: opt_sparse(self.sparse),
            failed: self.failed,
            pax_data: opt_bytes(self.pax_data),
            longname: self.longname@,
            longlink: self.longlink@,
            pax: self.pax@,
        }
    }
}

/// An extension of which nothing was read.
pub open spec fn no_extension() -> ExtensionView {
    ExtensionView { ready: false, data: Seq::empty() }
}

/// A stream at its start.
pub open spec fn entries_start() -> EntriesView {
    EntriesView {
        scan: scan_start(),
        pending: None,
        sparse: None,
        failed: false,
        pax_data: None,
        longname: no_extension(),
        longlink: no_extension(),
        pax: no_extension(),
    }
}

/// A stream has no complete block in hand, and its sparse file is covered as
/// far as its map was read.
pub open spec fn entries_wf(e: EntriesView) -> bool {
    scan_wf(e.scan) && (e.sparse matches Some(s) ==> is_consistent(s))
}

/// What a stream has to say: a member or a failure, or that there is no more.
pub type Output = Option<Result<EntryView, ErrorView>>;

/// What a stream does next.
pub enum StepView {
    /// It asks for up to so many bytes of the archive.
    Read(u64),
    /// It has something to say.
    Ready(Output),
}

/// What a stream does next.
#[derive(Debug)]
pub enum Step {
    /// It asks for up to so many bytes of the archive.
    Read(u64),
    /// It has a member or a failure, or there is no more.
    Ready(Option<Result<Entry, Error>>),
}

impl View for Step {
    type V = StepView;

    open spec fn view(&self) -> StepView {
        match self {
            Step::Read(n) => StepView::Read(*n),
            Step::Ready(None) => StepView::Ready(None),
            Step::Ready(Some(Ok(entry))) => StepView::Ready(Some(Ok(entry@))),
            Step::Ready(Some(Err(e))) => StepView::Ready(Some(Err(e@))),
        }
    }
}

/// Something to say: a failure with the given text.
pub open spec fn say(message: Seq<char>) -> Option<Output> {
    Some(Some(Err(failure(message))))
}

/// Whether an extension entry waits for its member.
pub open spec fn is_waiting(e: EntriesView) -> bool {
    e.longname.ready || e.longlink.ready || e.pax.ready
}

/// A stream at the end of the archive.
pub open spec fn ended(o: ArchiveOptions, e: EntriesView) -> (EntriesView, Option<Output>) {
    if o.pax_only && e.pax.ready {
        (
            EntriesView { pax: ExtensionView { ready: false, ..e.pax }, ..e },
            say("local pax header is not followed by an archive entry"@),
        )
    } else if is_waiting(e) {
        (e, say("extension entry was not followed by a member"@))
    } else {
        (e, Some(None))
    }
}

/// Why pax records and a GNU extension cannot describe the same member.
pub open spec fn ambiguity(pax: ExtensionView, key: Seq<u8>, message: Seq<char>) -> Option<
    ErrorView,
> {
    if !pax.ready {
        None
    } else if has_key(pax_records(pax.data), key) {
        Some(failure(message))
    } else if pax_malformed(pax.data) {
        Some(malformed_failure())
    } else {
        None
    }
}

/// The first pax record that cannot be accepted: one with an empty value, or a
/// path besides a GNU long name.
pub open spec fn record_refusal(rs: Seq<PaxView>, longname: bool) -> Option<ErrorView>
    decreases rs.len(),
{
    if rs.len() == 0 {
        None
    } else if rs[0].value.len() == 0 {
        Some(failure("empty values are not supported in local pax extensions"@))
    } else if longname && rs[0].key == encode_utf8("path"@) {
        Some(failure("ambiguous path: pax path and GNU longname describe the same member"@))
    } else {
        record_refusal(rs.skip(1), longname)
    }
}

/// Why the pax records that were read cannot be accepted.
pub open spec fn pax_refusal(e: EntriesView) -> Option<ErrorView> {
    let rs = pax_records(e.pax.data);
    let refusal = record_refusal(rs, e.longname.ready);
    if refusal is Some {
        refusal
    } else if pax_malformed(e.pax.data) {
        Some(malformed_failure())
    } else if e.longlink.ready && has_key(rs, encode_utf8("linkpath"@)) {
        Some(
            failure(
                "ambiguous link target: pax linkpath and GNU longlink describe the same member"@,
            ),
        )
    } else {
        None
    }
}

/// A stream that has read an extension entry.
pub open spec fn extension_read(e: EntriesView, kind: ExtensionKind) -> (
    EntriesView,
    Option<Output>,
) {
    let done = EntriesView { pending: None, ..e };
    match kind {
        ExtensionKind::LongName => (
            EntriesView { longname: ExtensionView { ready: true, ..e.longname }, ..done },
            None,
        ),
        ExtensionKind::LongLink => (
            EntriesView { longlink: ExtensionView { ready: true, ..e.longlink }, ..done },
            None,
        ),
        ExtensionKind::Pax => match pax_refusal(e) {
            Some(err) => (done, Some(Some(Err(err)))),
            None => (
                EntriesView {
                    pax: ExtensionView { ready: true, ..e.pax },
                    pax_data: Some(e.pax.data),
                    ..done
                },
                None,
            ),
        },
    }
}

/// A member with the extensions that describe it.
pub open spec fn described(e: EntriesView, entry: EntryView) -> EntryView {
    EntryView {
        long_pathname: if e.longname.ready {
            Some(e.longname.data)
        } else {
            entry.long_pathname
        },
        long_linkname: if e.longlink.ready {
            Some(e.longlink.data)
        } else {
            entry.long_linkname
        },
        pax_extensions: if e.pax.ready {
            Some(e.pax.data)
        } else {
            entry.pax_extensions
        },
        ..entry
    }
}

/// A stream whose extensions were given to a member.
pub open spec fn undescribed(e: EntriesView) -> EntriesView {
    EntriesView {
        longname: if e.longname.ready {
            no_extension()
        } else {
            e.longname
        },
        longlink: if e.longlink.ready {
            no_extension()
        } else {
            e.longlink
        },
        pax: if e.pax.ready {
            no_extension()
        } else {
            e.pax
        },
        pax_data: if e.pax.ready {
            None
        } else {
            e.pax_data
        },
        ..e
    }
}

/// A stream that has failed for good.
pub open spec fn broken(e: EntriesView) -> EntriesView {
    EntriesView { sparse: None, failed: true, ..e }
}

/// A stream that has come to a member.
pub open spec fn member_found(o: ArchiveOptions, e: EntriesView, entry: EntryView) -> (
    EntriesView,
    Option<Output>,
) {
    let kind = header_type(entry.header);
    let ustar = is_ustar(entry.header);
    let known = ustar || is_gnu(entry.header);
    if !known && (kind is GNULongName || kind is GNULongLink) || !ustar && kind is XHeader {
        (e, say("extension typeflag is not permitted on an unrecognized header"@))
    } else if kind is GNULongName {
        match ambiguity(
            e.pax,
            encode_utf8("path"@),
            "ambiguous path: pax path and GNU longname describe the same member"@,
        ) {
            Some(err) => (e, Some(Some(Err(err)))),
            None => if e.longname.ready {
                (e, say("two long name entries describing the same member"@))
            } else {
                (
                    EntriesView { pending: Some((ExtensionKind::LongName, entry.size)), ..e },
                    None,
                )
            },
        }
    } else if kind is GNULongLink {
        match ambiguity(
            e.pax,
            encode_utf8("linkpath"@),
            "ambiguous link target: pax linkpath and GNU longlink describe the same member"@,
        ) {
            Some(err) => (e, Some(Some(Err(err)))),
            None => if e.longlink.ready {
                (e, say("two long name entries describing the same member"@))
            } else {
                (
                    EntriesView { pending: Some((ExtensionKind::LongLink, entry.size)), ..e },
                    None,
                )
            },
        }
    } else if kind is XHeader {
        if e.pax.ready {
            (e, say("two pax extensions entries describing the same member"@))
        } else {
            (EntriesView { pending: Some((ExtensionKind::Pax, entry.size)), ..e }, None)
        }
    } else if kind is GNUSparse {
        match sparse_start(o, described(e, entry)) {
            Ok(state) => (EntriesView { sparse: Some(state), ..undescribed(e) }, None),
            Err(err) => (broken(undescribed(e)), Some(Some(Err(err)))),
        }
    } else {
        (undescribed(e), Some(Some(Ok(described(e, entry)))))
    }
}

/// A stream that has read the block `b` where a header is expected.
#[verifier::opaque]
pub open spec fn header_read(o: ArchiveOptions, u: UsageView, e: EntriesView, b: Seq<u8>) -> (
    UsageView,
    EntriesView,
    Option<Output>,
) {
    let (counted, scan, turn) = raw_block(o, u, e.scan, b, e.pax_data, true, is_waiting(e));
    let moved = EntriesView { scan, ..e };
    match turn {
        RawTurnView::Again => (counted, moved, None),
        RawTurnView::End => {
            let (after, output) = ended(o, moved);
            (counted, after, output)
        },
        RawTurnView::Fail(err) => (counted, moved, Some(Some(Err(err)))),
        RawTurnView::Member(entry) => {
            let (after, output) = member_found(o, moved, entry);
            (counted, after, output)
        },
    }
}

/// The bytes of an extension, and more of them.
pub open spec fn extended(x: ExtensionView, chunk: Seq<u8>) -> ExtensionView {
    ExtensionView { data: x.data + chunk, ..x }
}

/// A stream that has read a part of an extension entry; nothing where the
/// archive ends in it.
pub open spec fn extension_taken(e: EntriesView, kind: ExtensionKind, left: u64, chunk: Seq<u8>) -> EntriesView {
    let n = if chunk.len() == 0 {
        0
    } else {
        (left - chunk.len()) as u64
    };
    let e1 = EntriesView { pending: Some((kind, n)), ..e };
    match kind {
        ExtensionKind::LongName => EntriesView { longname: extended(e.longname, chunk), ..e1 },
        ExtensionKind::LongLink => EntriesView { longlink: extended(e.longlink, chunk), ..e1 },
        ExtensionKind::Pax => EntriesView { pax: extended(e.pax, chunk), ..e1 },
    }
}

/// A stream that has read a part of a continuation block of a sparse file.
pub open spec fn continuation_taken(
    o: ArchiveOptions,
    e: EntriesView,
    s: SparseView,
    chunk: Seq<u8>,
) -> (EntriesView, Option<Output>) {
    let (scan, turn) = block_taken(e.scan, chunk);
    let moved = EntriesView { scan, ..e };
    match turn {
        ScanTurnView::More => (moved, None),
        ScanTurnView::End => (broken(moved), say("failed to read extension"@)),
        ScanTurnView::Fail(err) => (broken(moved), Some(Some(Err(err)))),
        ScanTurnView::Block(b) => {
            let (next, result) = with_continuation(o, s, e.scan.next, b);
            let after = EntriesView { scan: ScanView { next, ..scan }, ..e };
            match result {
                Ok(state) => (EntriesView { sparse: Some(state), ..after }, None),
                Err(err) => (broken(after), Some(Some(Err(err)))),
            }
        },
    }
}

/// A stream that is handed bytes; none where the archive ends.
#[verifier::opaque]
pub open spec fn chunk_taken(o: ArchiveOptions, u: UsageView, e: EntriesView, chunk: Seq<u8>) -> (
    UsageView,
    EntriesView,
    Option<Output>,
) {
    if let Some(s) = e.sparse {
        let (after, output) = continuation_taken(o, e, s, chunk);
        (u, after, output)
    } else if let Some((kind, left)) = e.pending {
        (u, extension_taken(e, kind, left, chunk), None)
    } else {
        let (scan, turn) = scan_taken(e.scan, chunk);
        let moved = EntriesView { scan, ..e };
        match turn {
            ScanTurnView::More => (u, moved, None),
            ScanTurnView::End => {
                let (after, output) = ended(o, moved);
                (u, after, output)
            },
            ScanTurnView::Fail(err) => (u, moved, Some(Some(Err(err)))),
            ScanTurnView::Block(b) => header_read(o, u, moved, b),
        }
    }
}

/// A stream between two entries, on the way to the next header.
pub open spec fn seeking(pos: u64, e: EntriesView) -> (EntriesView, StepView) {
    let scan = scan_opened(e.scan, pos);
    (EntriesView { scan, ..e }, StepView::Read(ask(scan_room(scan, pos))))
}

/// A stream that does what it can without further bytes.
#[verifier::opaque]
pub open spec fn settled(o: ArchiveOptions, pos: u64, e: EntriesView) -> (EntriesView, StepView) {
    if e.failed {
        (e, StepView::Ready(None))
    } else if let Some(s) = e.sparse {
        if s.needs_continuation {
            match continuation_reserve(o, s) {
                Ok(state) => (
                    EntriesView { sparse: Some(state), ..e },
                    StepView::Read(ask((512 - e.scan.block.len()) as nat)),
                ),
                Err(err) => (broken(e), StepView::Ready(Some(Err(err)))),
            }
        } else {
            match sparse_finish(s) {
                Ok(entry) => (
                    EntriesView { sparse: None, ..e },
                    StepView::Ready(Some(Ok(entry))),
                ),
                Err(err) => (broken(e), StepView::Ready(Some(Err(err)))),
            }
        }
    } else if let Some((kind, left)) = e.pending {
        if left > 0 {
            (e, StepView::Read(ask(left as nat)))
        } else {
            let (after, output) = extension_read(e, kind);
            match output {
                Some(out) => (after, StepView::Ready(out)),
                None => seeking(pos, after),
            }
        }
    } else {
        seeking(pos, e)
    }
}

/// How many bytes a stream can take.
pub open spec fn room(pos: u64, e: EntriesView) -> nat {
    if e.failed {
        0
    } else if let Some(s) = e.sparse {
        if s.needs_continuation {
            (512 - e.scan.block.len()) as nat
        } else {
            0
        }
    } else if let Some((_, left)) = e.pending {
        left as nat
    } else {
        scan_room(e.scan, pos)
    }
}

/// What comes of a stream, and of its archive, that is handed what was read of
/// the archive since it asked, if it asked.
#[verifier::opaque]
pub open spec fn stepped(a: ArchiveView, e: EntriesView, input: Option<Seq<u8>>) -> (
    ArchiveView,
    EntriesView,
    StepView,
) {
    match input {
        None => {
            let (after, step) = settled(a.options, a.pos, e);
            (a, after, step)
        },
        Some(chunk) => {
            let (usage, taken, output) = chunk_taken(a.options, a.usage, e, chunk);
            let read = ArchiveView { usage, pos: wrap_add(a.pos, chunk.len()), ..a };
            match output {
                Some(out) => (read, taken, StepView::Ready(out)),
                None => {
                    let (after, step) = settled(a.options, read.pos, taken);
                    (read, after, step)
                },
            }
        },
    }
}

/// What an optional slice is.
pub open spec fn opt_slice(s: Option<&[u8]>) -> Option<Seq<u8>> {
    match s {
        Some(bytes) => Some(bytes@),
        None => None,
    }
}

/// What optional output is.
pub open spec fn output_view(out: Option<Option<Result<Entry, Error>>>) -> Option<Output> {
    match out {
        None => None,
        Some(None) => Some(None),
        Some(Some(Ok(entry))) => Some(Some(Ok(entry@))),
        Some(Some(Err(e))) => Some(Some(Err(e@))),
    }
}

fn first_refused(pax: &PaxExtensions, longname: bool) -> (refusal: Option<Error>)
    ensures
        match record_refusal(pax_views(pax.records@), longname) {
            Some(err) => refusal matches Some(e) && e@ == err,
            None => refusal is None,
        },
{
    let ghost rs = pax_views(pax.records@);
    let mut i: usize = 0;
    assert(rs.skip(0) =~= rs);
    while i < pax.records.len()
        invariant
            i <= pax.records@.len(),
            rs == pax_views(pax.records@),
            record_refusal(rs.skip(i as int), longname) == record_refusal(rs, longname),
        decreases pax.records@.len() - i,
    {
        let record = pax.records[i];
        assert(rs.skip(i as int)[0] == record@);
        assert(rs.skip(i as int).skip(1) =~= rs.skip(i + 1));
        if record.value_bytes().len() == 0 {
            return Some(other("empty values are not supported in local pax extensions"));
        }
        if longname && record.has_key("path") {
            return Some(
                other("ambiguous path: pax path and GNU longname describe the same member"),
            );
        }
        i = i + 1;
    }
    None
}

fn ambiguity_of(pax: &Extension, key: &str, message: &str) -> (refusal: Option<Error>)
    ensures
        match ambiguity(pax@, encode_utf8(key@), message@) {
            Some(err) => refusal matches Some(e) && e@ == err,
            None => refusal is None,
        },
{
    if !pax.ready {
        return None;
    }
    let records = pax_extensions(pax.data.as_slice());
    if any_with_key(&records, key) {
        return Some(other(message));
    }
    if records.malformed {
        return Some(other("malformed pax extension"));
    }
    None
}

impl Extension {
    fn none() -> (x: Extension)
        ensures
            x@ == no_extension(),
    {
        let x = Extension { ready: false, data: Vec::new() };
        assert(x@ =~= no_extension());
        x
    }

    fn give(&mut self) -> (data: Option<Vec<u8>>)
        ensures
            opt_bytes(data) == (if old(self)@.ready {
                Some(old(self)@.data)
            } else {
                None
            }),
            final(self)@ == (if old(self)@.ready {
                no_extension()
            } else {
                old(self)@
            }),
    {
        if self.ready {
            let mut data: Vec<u8> = Vec::new();
            std::mem::swap(&mut data, &mut self.data);
            self.ready = false;
            assert(self@ =~= no_extension());
            Some(data)
        } else {
            None
        }
    }
}

impl Entries {
    /// A stream at its start.
    pub fn new() -> (entries: Entries)
        ensures
            entries@ == entries_start(),
            entries_wf(entries@),
    {
        let entries = Entries {
            scan: Scan::new(),
            pending: None,
            sparse: None,
            failed: false,
            pax_data: None,
            longname: Extension::none(),
            longlink: Extension::none(),
            pax: Extension::none(),
        };
        assert(entries@ =~= entries_start());
        entries
    }

    fn is_waiting(&self) -> (yes: bool)
        ensures
            yes == is_waiting(self@),
    {
        self.longname.ready || self.longlink.ready || self.pax.ready
    }

    fn end(&mut self, options: &ArchiveOptions) -> (output: Option<Option<Result<Entry, Error>>>)
        ensures
            (final(self)@, output_view(output)) == ended(*options, old(self)@),
    {
        if options.pax_only && self.pax.ready {
            self.pax.ready = false;
            assert(self@ =~= ended(*options, old(self)@).0);
            return Some(
                Some(Err(other("local pax header is not followed by an archive entry"))),
            );
        }
        if self.is_waiting() {
            return Some(Some(Err(other("extension entry was not followed by a member"))));
        }
        Some(None)
    }

    fn refuse_pax(&self) -> (refusal: Option<Error>)
        ensures
            match pax_refusal(self@) {
                Some(err) => refusal matches Some(e) && e@ == err,
                None => refusal is None,
            },
    {
        let records = pax_extensions(self.pax.data.as_slice());
        match first_refused(&records, self.longname.ready) {
            Some(e) => {
                return Some(e);
            },
            None => {},
        }
        if records.malformed {
            return Some(other("malformed pax extension"));
        }
        if self.longlink.ready && any_with_key(&records, "linkpath") {
            return Some(
                other(
                    "ambiguous link target: pax linkpath and GNU longlink describe the same member",
                ),
            );
        }
        None
    }

    fn finish_extension(&mut self, kind: ExtensionKind) -> (output: Option<
        Option<Result<Entry, Error>>,
    >)
        ensures
            (final(self)@, output_view(output)) == extension_read(old(self)@, kind),
    {
        self.pending = None;
        match kind {
            ExtensionKind::LongName => {
                self.longname.ready = true;
                assert(self@ =~= extension_read(old(self)@, kind).0);
                None
            },
            ExtensionKind::LongLink => {
                self.longlink.ready = true;
                assert(self@ =~= extension_read(old(self)@, kind).0);
                None
            },
            ExtensionKind::Pax => {
                assert(pax_refusal(self@) == pax_refusal(old(self)@));
                match self.refuse_pax() {
                    Some(e) => {
                        assert(self@ =~= extension_read(old(self)@, kind).0);
                        Some(Some(Err(e)))
                    },
                    None => {
                        let mut copy: Vec<u8> = Vec::new();
                        append_bytes(&mut copy, self.pax.data.as_slice());
                        assert(copy@ =~= self.pax.data@);
                        self.pax.ready = true;
                        self.pax_data = Some(copy);
                        assert(self@ =~= extension_read(old(self)@, kind).0);
                        None
                    },
                }
            },
        }
    }

    fn describe(&mut self, entry: Entry) -> (member: Entry)
        requires
            entry@.long_pathname is None,
            entry@.long_linkname is None,
            entry@.pax_extensions is None,
        ensures
            member@ == described(old(self)@, entry@),
            final(self)@ == undescribed(old(self)@),
    {
        let ghost given = entry@;
        let mut entry = entry;
        entry.long_pathname = self.longname.give();
        entry.long_linkname = self.longlink.give();
        if self.pax.ready {
            self.pax_data = None;
        }
        entry.pax_extensions = self.pax.give();
        assert(entry@ =~= described(old(self)@, given));
        assert(self@ =~= undescribed(old(self)@));
        entry
    }

    fn find_member(&mut self, options: &ArchiveOptions, entry: Entry) -> (output: Option<
        Option<Result<Entry, Error>>,
    >)
        requires
            entries_wf(old(self)@),
            entry@.long_pathname is None,
            entry@.long_linkname is None,
            entry@.pax_extensions is None,
        ensures
            (final(self)@, output_view(output)) == member_found(*options, old(self)@, entry@),
            entries_wf(final(self)@),
    {
        let kind = entry.entry_type();
        let ustar: bool = entry.header().is_ustar();
        let known: bool = ustar || entry.header().is_gnu();
        if (!known && (kind.is_gnu_longname() || kind.is_gnu_longlink())) || (!ustar
            && kind.is_pax_local_extensions()) {
            return Some(
                Some(
                    Err(other("extension typeflag is not permitted on an unrecognized header")),
                ),
            );
        }
        if kind.is_gnu_longname() {
            match ambiguity_of(
                &self.pax,
                "path",
                "ambiguous path: pax path and GNU longname describe the same member",
            ) {
                Some(e) => {
                    return Some(Some(Err(e)));
                },
                None => {},
            }
            if self.longname.ready {
                return Some(Some(Err(other("two long name entries describing the same member"))));
            }
            self.pending = Some((ExtensionKind::LongName, entry.size));
            assert(self@ =~= member_found(*options, old(self)@, entry@).0);
            return None;
        }
        if kind.is_gnu_longlink() {
            match ambiguity_of(
                &self.pax,
                "linkpath",
                "ambiguous link target: pax linkpath and GNU longlink describe the same member",
            ) {
                Some(e) => {
                    return Some(Some(Err(e)));
                },
                None => {},
            }
            if self.longlink.ready {
                return Some(Some(Err(other("two long name entries describing the same member"))));
            }
            self.pending = Some((ExtensionKind::LongLink, entry.size));
            assert(self@ =~= member_found(*options, old(self)@, entry@).0);
            return None;
        }
        if kind.is_pax_local_extensions() {
            if self.pax.ready {
                return Some(
                    Some(Err(other("two pax extensions entries describing the same member"))),
                );
            }
            self.pending = Some((ExtensionKind::Pax, entry.size));
            assert(self@ =~= member_found(*options, old(self)@, entry@).0);
            return None;
        }
        let member = self.describe(entry);
        if kind.is_gnu_sparse() {
            match SparseState::new(options, member) {
                Ok(state) => {
                    self.sparse = Some(state);
                    assert(self@ =~= member_found(*options, old(self)@, entry@).0);
                    None
                },
                Err(e) => {
                    self.sparse = None;
                    self.failed = true;
                    assert(self@ =~= member_found(*options, old(self)@, entry@).0);
                    Some(Some(Err(e)))
                },
            }
        } else {
            Some(Some(Ok(member)))
        }
    }

    fn read_header<R>(&mut self, archive: &mut Archive<R>, header: Header) -> (output: Option<
        Option<Result<Entry, Error>>,
    >)
        requires
            entries_wf(old(self)@),
        ensures
            (final(archive)@.usage, final(self)@, output_view(output)) == header_read(
                old(archive)@.options,
                old(archive)@.usage,
                old(self)@,
                header@,
            ),
            final(archive)@ == (ArchiveView { usage: final(archive)@.usage, ..old(archive)@ }),
            final(archive).source() == old(archive).source(),
            entries_wf(final(self)@),
    {
        reveal(header_read);
        let pending: bool = self.is_waiting();
        let (options, usage) = archive.limits();
        let options: ArchiveOptions = *options;
        let pax: Option<&[u8]> = match &self.pax_data {
            Some(data) => Some(data.as_slice()),
            None => None,
        };
        let turn = self.scan.take_header(&options, usage, header, pax, true, pending);
        let ghost moved = EntriesView { scan: self.scan@, ..old(self)@ };
        assert(self@ =~= moved);
        match turn {
            RawTurn::Again => None,
            RawTurn::End => self.end(&options),
            RawTurn::Fail(e) => Some(Some(Err(e))),
            RawTurn::Member(entry) => self.find_member(&options, entry),
        }
    }

    fn take_extension(&mut self, kind: ExtensionKind, left: u64, chunk: &[u8])
        requires
            chunk@.len() <= left,
        ensures
            final(self)@ == extension_taken(old(self)@, kind, left, chunk@),
    {
        match kind {
            ExtensionKind::LongName => append_bytes(&mut self.longname.data, chunk),
            ExtensionKind::LongLink => append_bytes(&mut self.longlink.data, chunk),
            ExtensionKind::Pax => append_bytes(&mut self.pax.data, chunk),
        }
        let rest: u64 = if chunk.len() == 0 {
            0
        } else {
            left - chunk.len() as u64
        };
        self.pending = Some((kind, rest));
        assert(self@ =~= extension_taken(old(self)@, kind, left, chunk@));
    }

    fn break_down(&mut self)
        ensures
            final(self)@ == broken(old(self)@),
    {
        self.sparse = None;
        self.failed = true;
        assert(self@ =~= broken(old(self)@));
    }

    fn take_continuation(&mut self, options: &ArchiveOptions, state: SparseState, chunk: &[u8]) -> (output:
        Option<Option<Result<Entry, Error>>>)
        requires
            scan_wf(old(self)@.scan),
            is_consistent(state@),
            old(self)@.scan.block.len() + chunk@.len() <= 512,
        ensures
            (final(self)@, output_view(output)) == continuation_taken(
                *options,
                EntriesView { sparse: Some(state@), ..old(self)@ },
                state@,
                chunk@,
            ),
            entries_wf(final(self)@),
    {
        let ghost given = state@;
        let ghost before = EntriesView { sparse: Some(given), ..old(self)@ };
        let mut state = state;
        let turn = self.scan.take_block(chunk);
        let ghost scan = self.scan@;
        match turn {
            ScanTurn::More => {
                self.sparse = Some(state);
                assert(self@ =~= EntriesView { scan, ..before });
                None
            },
            ScanTurn::End => {
                self.break_down();
                assert(self@ =~= broken(EntriesView { scan, ..before }));
                Some(Some(Err(other("failed to read extension"))))
            },
            ScanTurn::Fail(e) => {
                self.break_down();
                assert(self@ =~= broken(EntriesView { scan, ..before }));
                Some(Some(Err(e)))
            },
            ScanTurn::Block(block) => {
                let done = state.add_continuation(
                    options,
                    &mut self.scan.next,
                    block.as_bytes().as_slice(),
                );
                let ghost after = EntriesView { scan: self.scan@, ..before };
                match done {
                    Ok(()) => {
                        self.sparse = Some(state);
                        assert(self@ =~= EntriesView { sparse: Some(state@), ..after });
                        None
                    },
                    Err(e) => {
                        self.break_down();
                        assert(self@ =~= broken(after));
                        Some(Some(Err(e)))
                    },
                }
            },
        }
    }

    fn take_chunk<R>(&mut self, archive: &mut Archive<R>, chunk: &[u8]) -> (output: Option<
        Option<Result<Entry, Error>>,
    >)
        requires
            entries_wf(old(self)@),
            chunk@.len() <= room(old(archive)@.pos, old(self)@),
        ensures
            (final(archive)@.usage, final(self)@, output_view(output)) == chunk_taken(
                old(archive)@.options,
                old(archive)@.usage,
                old(self)@,
                chunk@,
            ),
            final(archive)@ == (ArchiveView { usage: final(archive)@.usage, ..old(archive)@ }),
            final(archive).source() == old(archive).source(),
            entries_wf(final(self)@),
    {
        reveal(chunk_taken);
        let ghost before = self@;
        let options: ArchiveOptions = *archive.options();
        if let Some(state) = self.sparse.take() {
            assert(EntriesView { sparse: Some(state@), ..self@ } =~= before);
            return self.take_continuation(&options, state, chunk);
        }
        assert(self@ =~= before);
        if let Some((kind, left)) = self.pending {
            self.take_extension(kind, left, chunk);
            return None;
        }
        let turn = self.scan.take(chunk);
        let ghost moved = EntriesView { scan: self.scan@, ..before };
        assert(self@ =~= moved);
        match turn {
            ScanTurn::More => None,
            ScanTurn::End => self.end(&options),
            ScanTurn::Fail(e) => Some(Some(Err(e))),
            ScanTurn::Block(header) => self.read_header(archive, header),
        }
    }

    fn seek(&mut self, pos: u64) -> (step: Step)
        requires
            entries_wf(old(self)@),
        ensures
            (final(self)@, step@) == seeking(pos, old(self)@),
            entries_wf(final(self)@),
    {
        let n: u64 = self.scan.want(pos);
        assert(self@ =~= seeking(pos, old(self)@).0);
        Step::Read(n)
    }

    fn settle(&mut self, options: &ArchiveOptions, pos: u64) -> (step: Step)
        requires
            entries_wf(old(self)@),
        ensures
            (final(self)@, step@) == settled(*options, pos, old(self)@),
            entries_wf(final(self)@),
            step matches Step::Read(n) ==> 0 < n <= room(pos, final(self)@),
    {
        reveal(settled);
        let ghost before = self@;
        if self.failed {
            return Step::Ready(None);
        }
        if let Some(state) = self.sparse.take() {
            let mut state = state;
            if state.needs_continuation {
                match state.reserve_continuation(options) {
                    Ok(()) => {
                        self.sparse = Some(state);
                        assert(self@ =~= EntriesView { sparse: Some(state@), ..before });
                        return Step::Read(ask_for(512 - self.scan.block.len() as u64));
                    },
                    Err(e) => {
                        self.break_down();
                        assert(self@ =~= broken(before));
                        return Step::Ready(Some(Err(e)));
                    },
                }
            }
            match state.finish() {
                Ok(entry) => {
                    assert(self@ =~= EntriesView { sparse: None, ..before });
                    return Step::Ready(Some(Ok(entry)));
                },
                Err(e) => {
                    self.break_down();
                    assert(self@ =~= broken(before));
                    return Step::Ready(Some(Err(e)));
                },
            }
        }
        assert(self@ =~= before);
        if let Some((kind, left)) = self.pending {
            if left > 0 {
                return Step::Read(ask_for(left));
            }
            match self.finish_extension(kind) {
                Some(out) => {
                    return Step::Ready(out);
                },
                None => {},
            }
        }
        self.seek(pos)
    }

    /// Takes what was read of the archive since the stream asked, if it asked,
    /// and tells what it does next. Where it asks for bytes, up to as many are
    /// to be read and handed to the next call; none are where the archive ends.
    pub fn step<R>(&mut self, archive: &mut Archive<R>, input: Option<&[u8]>) -> (step: Step)
        requires
            entries_wf(old(self)@),
            input matches Some(chunk) ==> chunk@.len() <= room(old(archive)@.pos, old(self)@),
        ensures
            (final(archive)@, final(self)@, step@) == stepped(
                old(archive)@,
                old(self)@,
                opt_slice(input),
            ),
            final(archive).source() == old(archive).source(),
            entries_wf(final(self)@),
            step matches Step::Read(n) ==> 0 < n <= room(final(archive)@.pos, final(self)@),
    {
        reveal(stepped);
        let options: ArchiveOptions = *archive.options();
        if let Some(chunk) = input {
            let output = self.take_chunk(archive, chunk);
            archive.advance(chunk.len() as u64);
            if let Some(out) = output {
                return Step::Ready(out);
            }
        }
        let pos: u64 = archive.position();
        self.settle(&options, pos)
    }

    /// Takes note that the archive could not be read: what was read of an
    /// extension entry stays, and a sparse file is given up.
    pub fn read_failed(&mut self)
        requires
            entries_wf(old(self)@),
        ensures
            final(self)@ == read_failed(old(self)@),
            entries_wf(final(self)@),
    {
        if self.sparse.is_some() {
            self.break_down();
        } else {
            self.pending = None;
        }
        assert(self@ =~= read_failed(old(self)@));
    }
}

/// A stream whose archive could not be read.
pub open spec fn read_failed(e: EntriesView) -> EntriesView {
    if e.sparse is Some {
        broken(e)
    } else {
        EntriesView { pending: None, ..e }
    }
}

/// Extension entries describe the next member alone: it gets all of them, and
/// none of them is left. So does a sparse file, before its map is read on.
pub proof fn law_extensions_describe_one_member(
    o: ArchiveOptions,
    e: EntriesView,
    entry: EntryView,
)
    ensures
        member_found(o, e, entry) matches (after, Some(Some(Ok(m)))) ==> {
            &&& m == described(e, entry)
            &&& !is_waiting(after)
            &&& e.pax.ready ==> after.pax_data is None
        },
        header_type(entry.header) is GNUSparse ==> (member_found(o, e, entry) matches (after, None)
            ==> {
            &&& after.sparse is Some
            &&& sparse_start(o, described(e, entry)) == Ok::<SparseView, ErrorView>(
                after.sparse->0,
            )
            &&& !is_waiting(after)
            &&& e.pax.ready ==> after.pax_data is None
        }),
{
}

/// No member is described twice by the same kind of extension entry, nor by a
/// pax record and a GNU extension entry for the same thing.
pub proof fn law_descriptions_are_not_mixed(o: ArchiveOptions, e: EntriesView, entry: EntryView)
    ensures
        header_type(entry.header) is GNULongName && (e.longname.ready || e.pax.ready && has_key(
            pax_records(e.pax.data),
            encode_utf8("path"@),
        )) ==> (member_found(o, e, entry) matches (after, Some(Some(Err(_)))) && after == e),
        header_type(entry.header) is GNULongLink && (e.longlink.ready || e.pax.ready && has_key(
            pax_records(e.pax.data),
            encode_utf8("linkpath"@),
        )) ==> (member_found(o, e, entry) matches (after, Some(Some(Err(_)))) && after == e),
        header_type(entry.header) is XHeader && e.pax.ready ==> (member_found(o, e, entry) matches (
            after,
            Some(Some(Err(_))),
        ) && after == e),
{
}

/// A limit on headers or extension entries is checked before any of the data is
/// read: the entry is refused, and nothing of it is pending.
pub proof fn law_limits_come_before_data(o: ArchiveOptions, u: UsageView, e: EntriesView, b: Seq<u8>)
    requires
        e.pending is None,
        b != zeros(512),
        header_refusal(o, b) is None,
        header_size(b) is Ok,
        entry_reserved(o, u, header_size(b)->Ok_0, is_extension_block(b)).1 is Err,
    ensures
        header_read(o, u, e, b) matches (counted, after, Some(Some(Err(err)))) && {
            &&& (counted, Err::<(), ErrorView>(err)) == entry_reserved(
                o,
                u,
                header_size(b)->Ok_0,
                is_extension_block(b),
            )
            &&& after.pending is None
        },
{
    reveal(header_read);
}

/// The limit on continuation blocks is checked before the next one is asked for,
/// and a stream whose sparse file is refused is over.
pub proof fn law_continuation_limit_comes_first(o: ArchiveOptions, pos: u64, e: EntriesView)
    requires
        !e.failed,
        e.sparse is Some,
        e.sparse->0.needs_continuation,
        continuation_reserve(o, e.sparse->0) is Err,
    ensures
        settled(o, pos, e).1 is Ready,
        settled(o, pos, e).0.failed,
{
    reveal(settled);
}

/// A stream of physical entries that is handed bytes.
pub open spec fn raw_chunk_taken(o: ArchiveOptions, u: UsageView, s: ScanView, chunk: Seq<u8>) -> (
    UsageView,
    ScanView,
    Option<Output>,
) {
    let (scan, turn) = scan_taken(s, chunk);
    match turn {
        ScanTurnView::More => (u, scan, None),
        ScanTurnView::End => (u, scan, Some(None)),
        ScanTurnView::Fail(err) => (u, scan, Some(Some(Err(err)))),
        ScanTurnView::Block(b) => {
            let (counted, after, found) = raw_block(o, u, scan, b, None, false, false);
            (
                counted,
                after,
                match found {
                    RawTurnView::Again => None,
                    RawTurnView::End => Some(None),
                    RawTurnView::Fail(err) => Some(Some(Err(err))),
                    RawTurnView::Member(entry) => Some(Some(Ok(entry))),
                },
            )
        },
    }
}

/// What comes of a stream of physical entries, and of its archive, that is
/// handed what was read of the archive since it asked, if it asked.
pub open spec fn raw_stepped(a: ArchiveView, s: ScanView, input: Option<Seq<u8>>) -> (
    ArchiveView,
    ScanView,
    StepView,
) {
    match input {
        None => {
            let opened = scan_opened(s, a.pos);
            (a, opened, StepView::Read(ask(scan_room(opened, a.pos))))
        },
        Some(chunk) => {
            let (usage, taken, output) = raw_chunk_taken(a.options, a.usage, s, chunk);
            let read = ArchiveView { usage, pos: wrap_add(a.pos, chunk.len()), ..a };
            let opened = scan_opened(taken, read.pos);
            match output {
                Some(out) => (read, taken, StepView::Ready(out)),
                None => (read, opened, StepView::Read(ask(scan_room(opened, read.pos)))),
            }
        },
    }
}

/// The limits on sparse files make no difference to a stream of physical
/// entries.
pub proof fn law_raw_entries_ignore_sparse_limits(
    a: ArchiveView,
    s: ScanView,
    input: Option<Seq<u8>>,
    entries: Option<u64>,
    blocks: Option<u64>,
)
    ensures
        ({
            let options = ArchiveOptions {
                max_sparse_entries: entries,
                max_sparse_continuation_blocks: blocks,
                ..a.options
            };
            let (read, after, step) = raw_stepped(a, s, input);
            raw_stepped(ArchiveView { options, ..a }, s, input) == (
                ArchiveView { options, ..read },
                after,
                step,
            )
        }),
{
}

/// Stream of raw `Entry`s.
#[derive(Debug)]
pub struct RawEntries {
    scan: Scan,
}

impl View for RawEntries {
    type V = ScanView;

    closed spec fn view(&self) -> ScanView {
        self.scan@
    }
}

impl RawEntries {
    /// A stream at its start.
    pub fn new() -> (entries: RawEntries)
        ensures
            entries@ == scan_start(),
    {
        RawEntries { scan: Scan::new() }
    }

    fn take_chunk<R>(&mut self, archive: &mut Archive<R>, chunk: &[u8]) -> (output: Option<
        Option<Result<Entry, Error>>,
    >)
        requires
            scan_wf(old(self)@),
            chunk@.len() <= scan_room(old(self)@, old(archive)@.pos),
        ensures
            (final(archive)@.usage, final(self)@, output_view(output)) == raw_chunk_taken(
                old(archive)@.options,
                old(archive)@.usage,
                old(self)@,
                chunk@,
            ),
            final(archive)@ == (ArchiveView { usage: final(archive)@.usage, ..old(archive)@ }),
            final(archive).source() == old(archive).source(),
            scan_wf(final(self)@),
    {
        match self.scan.take(chunk) {
            ScanTurn::More => None,
            ScanTurn::End => Some(None),
            ScanTurn::Fail(e) => Some(Some(Err(e))),
            ScanTurn::Block(header) => {
                let (options, usage) = archive.limits();
                match self.scan.take_header(options, usage, header, None, false, false) {
                    RawTurn::Again => None,
                    RawTurn::End => Some(None),
                    RawTurn::Fail(e) => Some(Some(Err(e))),
                    RawTurn::Member(entry) => Some(Some(Ok(entry))),
                }
            },
        }
    }

    /// Takes what was read of the archive since the stream asked, if it asked,
    /// and tells what it does next.
    pub fn step<R>(&mut self, archive: &mut Archive<R>, input: Option<&[u8]>) -> (step: Step)
        requires
            scan_wf(old(self)@),
            input matches Some(chunk) ==> chunk@.len() <= scan_room(
                old(self)@,
                old(archive)@.pos,
            ),
        ensures
            (final(archive)@, final(self)@, step@) == raw_stepped(
                old(archive)@,
                old(self)@,
                opt_slice(input),
            ),
            final(archive).source() == old(archive).source(),
            scan_wf(final(self)@),
            step matches Step::Read(n) ==> 0 < n <= scan_room(final(self)@, final(archive)@.pos),
    {
        if let Some(chunk) = input {
            let output = self.take_chunk(archive, chunk);
            archive.advance(chunk.len() as u64);
            if let Some(out) = output {
                return Step::Ready(out);
            }
        }
        let pos: u64 = archive.position();
        Step::Read(self.scan.want(pos))
    }
}

} // verus!
