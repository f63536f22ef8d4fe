//! The forms of a header block, field by field.

use crate::bytes::{append_bytes, field, zeros};
use crate::error::{failure, other, outcome, Error, ErrorView};
use crate::header::{header_real_size, is_gnu, is_ustar, number_failure, number_text, Header};
use crate::number::{parse_numeric, parsed_numeric};
use vstd::prelude::*;

verus! {

/// The `N` bytes of `b` at `at`.
fn array_at<const N: usize>(b: &[u8], at: usize) -> (out: [u8; N])
    requires
        at + N <= 512,
        b@.len() == 512,
    ensures
        out@ == field(b@, at as int, N as int),
{
    let mut out: [u8; N] = [0u8; N];
    let mut i: usize = 0;
    while i < N
        invariant
            i <= N,
            at + N <= 512,
            b@.len() == 512,
            forall|j: int| 0 <= j < i ==> out@[j] == b@[at + j],
        decreases N - i,
    {
        out[i] = b[at + i];
        i = i + 1;
    }
    assert(out@ =~= field(b@, at as int, N as int));
    out
}

proof fn lemma_take_field(b: Seq<u8>, at: int, n: int)
    requires
        0 <= at,
        0 <= n,
        at + n <= b.len(),
    ensures
        b.take(at) + field(b, at, n) == b.take(at + n),
{
    assert(b.take(at) + field(b, at, n) =~= b.take(at + n));
}

/// An entry of the map of a GNU sparse file: where a block of data goes.
#[derive(Clone, Copy, Debug)]
pub struct GnuSparseHeader {
    pub offset: [u8; 12],
    pub numbytes: [u8; 12],
}

impl View for GnuSparseHeader {
    type V = Seq<u8>;

    open spec fn view(&self) -> Seq<u8> {
        self.offset@ + self.numbytes@
    }
}

/// The map entries in a GNU header.
pub open spec fn sparse_table(t: Seq<GnuSparseHeader>) -> Seq<u8> {
    t[0]@ + t[1]@ + t[2]@ + t[3]@
}

/// The number in a field of a map entry.
pub open spec fn sparse_number(f: Seq<u8>, what: Seq<char>) -> Result<u64, ErrorView> {
    match parsed_numeric(f) {
        Some(n) => Ok(n),
        None => Err(
            failure(number_failure(f) + " when getting "@ + what + " from sparse header"@),
        ),
    }
}

/// Whether a map entry is empty.
pub open spec fn sparse_is_empty(e: Seq<u8>) -> bool {
    e[0] == 0 || e[12] == 0
}

fn sparse_number_of(f: &[u8], what: &str) -> (number: Result<u64, Error>)
    requires
        f@.len() == 12,
    ensures
        outcome(number) == sparse_number(f@, what@),
{
    match parse_numeric(f) {
        Some(n) => Ok(n),
        None => {
            let mut message: String = number_text(f);
            message.append(" when getting ");
            message.append(what);
            message.append(" from sparse header");
            Err(other(message.as_str()))
        },
    }
}

impl GnuSparseHeader {
    /// An entry of zero bytes.
    pub fn zeroed() -> (h: GnuSparseHeader)
        ensures
            h@ == zeros(24),
    {
        let h = GnuSparseHeader { offset: [0u8; 12], numbytes: [0u8; 12] };
        assert(h@ =~= zeros(24));
        h
    }

    /// The map entry at `at` in a block.
    pub fn of_block(b: &[u8], at: usize) -> (h: GnuSparseHeader)
        requires
            at + 24 <= 512,
            b@.len() == 512,
        ensures
            h@ == field(b@, at as int, 24),
    {
        let h = GnuSparseHeader { offset: array_at::<12>(b, at), numbytes: array_at::<12>(b, at + 12) };
        assert(h@ =~= field(b@, at as int, 24));
        h
    }

    /// Whether this entry is empty.
    pub fn is_empty(&self) -> (yes: bool)
        ensures
            yes == sparse_is_empty(self@),
    {
        assert(self@[0] == self.offset@[0] && self@[12] == self.numbytes@[0]);
        self.offset[0] == 0 || self.numbytes[0] == 0
    }

    /// Where the block starts in the file.
    pub fn offset(&self) -> (offset: Result<u64, Error>)
        ensures
            outcome(offset) == sparse_number(field(self@, 0, 12), "offset"@),
    {
        assert(field(self@, 0, 12) =~= self.offset@);
        sparse_number_of(self.offset.as_slice(), "offset")
    }

    /// The length of the block.
    pub fn length(&self) -> (length: Result<u64, Error>)
        ensures
            outcome(length) == sparse_number(field(self@, 12, 12), "length"@),
    {
        assert(field(self@, 12, 12) =~= self.numbytes@);
        sparse_number_of(self.numbytes.as_slice(), "length")
    }
}

/// A header of the old form.
#[derive(Clone, Copy, Debug)]
pub struct OldHeader {
    pub name: [u8; 100],
    pub mode: [u8; 8],
    pub uid: [u8; 8],
    pub gid: [u8; 8],
    pub size: [u8; 12],
    pub mtime: [u8; 12],
    pub cksum: [u8; 8],
    pub linkflag: [u8; 1],
    pub linkname: [u8; 100],
    pub pad: [u8; 255],
}

impl View for OldHeader {
    type V = Seq<u8>;

    open spec fn view(&self) -> Seq<u8> {
        self.name@
            + self.mode@
            + self.uid@
            + self.gid@
            + self.size@
            + self.mtime@
            + self.cksum@
            + self.linkflag@
            + self.linkname@
            + self.pad@
    }
}

impl OldHeader {
    /// A header of zero bytes.
    pub fn zeroed() -> (h: OldHeader)
        ensures
            h@ == zeros(512),
    {
        let h = OldHeader {
            name: [0u8; 100],
            mode: [0u8; 8],
            uid: [0u8; 8],
            gid: [0u8; 8],
            size: [0u8; 12],
            mtime: [0u8; 12],
            cksum: [0u8; 8],
            linkflag: [0u8; 1],
            linkname: [0u8; 100],
            pad: [0u8; 255],
        };
        assert(h@ =~= zeros(512));
        h
    }

    /// This header as a block.
    pub fn as_header(&self) -> (h: Header)
        ensures
            h@ == self@,
    {
        let mut bytes: Vec<u8> = Vec::new();
        append_bytes(&mut bytes, self.name.as_slice());
        append_bytes(&mut bytes, self.mode.as_slice());
        append_bytes(&mut bytes, self.uid.as_slice());
        append_bytes(&mut bytes, self.gid.as_slice());
        append_bytes(&mut bytes, self.size.as_slice());
        append_bytes(&mut bytes, self.mtime.as_slice());
        append_bytes(&mut bytes, self.cksum.as_slice());
        append_bytes(&mut bytes, self.linkflag.as_slice());
        append_bytes(&mut bytes, self.linkname.as_slice());
        append_bytes(&mut bytes, self.pad.as_slice());
        assert(bytes@ =~= self@);
        Header::from_byte_slice(bytes.as_slice())
    }

    fn of_block(h: &Header) -> (form: OldHeader)
        ensures
            form@ == h@,
    {
        let b = h.bytes.as_slice();
        let form = OldHeader {
            name: array_at::<100>(b, 0),
            mode: array_at::<8>(b, 100),
            uid: array_at::<8>(b, 108),
            gid: array_at::<8>(b, 116),
            size: array_at::<12>(b, 124),
            mtime: array_at::<12>(b, 136),
            cksum: array_at::<8>(b, 148),
            linkflag: array_at::<1>(b, 156),
            linkname: array_at::<100>(b, 157),
            pad: array_at::<255>(b, 257),
        };
        assert(form@ =~= h@);
        form
    }
}

/// A USTAR header.
#[derive(Clone, Copy, Debug)]
pub struct UstarHeader {
    pub name: [u8; 100],
    pub mode: [u8; 8],
    pub uid: [u8; 8],
    pub gid: [u8; 8],
    pub size: [u8; 12],
    pub mtime: [u8; 12],
    pub cksum: [u8; 8],
    pub typeflag: [u8; 1],
    pub linkname: [u8; 100],
    pub magic: [u8; 6],
    pub version: [u8; 2],
    pub uname: [u8; 32],
    pub gname: [u8; 32],
    pub dev_major: [u8; 8],
    pub dev_minor: [u8; 8],
    pub prefix: [u8; 155],
    pub pad: [u8; 12],
}

impl View for UstarHeader {
    type V = Seq<u8>;

    open spec fn view(&self) -> Seq<u8> {
        self.name@
            + self.mode@
            + self.uid@
            + self.gid@
            + self.size@
            + self.mtime@
            + self.cksum@
            + self.typeflag@
            + self.linkname@
            + self.magic@
            + self.version@
            + self.uname@
            + self.gname@
            + self.dev_major@
            + self.dev_minor@
            + self.prefix@
            + self.pad@
    }
}

impl UstarHeader {
    /// A header of zero bytes.
    pub fn zeroed() -> (h: UstarHeader)
        ensures
            h@ == zeros(512),
    {
        let h = UstarHeader {
            name: [0u8; 100],
            mode: [0u8; 8],
            uid: [0u8; 8],
            gid: [0u8; 8],
            size: [0u8; 12],
            mtime: [0u8; 12],
            cksum: [0u8; 8],
            typeflag: [0u8; 1],
            linkname: [0u8; 100],
            magic: [0u8; 6],
            version: [0u8; 2],
            uname: [0u8; 32],
            gname: [0u8; 32],
            dev_major: [0u8; 8],
            dev_minor: [0u8; 8],
            prefix: [0u8; 155],
            pad: [0u8; 12],
        };
        assert(h@ =~= zeros(512));
        h
    }

    /// This header as a block.
    pub fn as_header(&self) -> (h: Header)
        ensures
            h@ == self@,
    {
        let mut bytes: Vec<u8> = Vec::new();
        append_bytes(&mut bytes, self.name.as_slice());
        append_bytes(&mut bytes, self.mode.as_slice());
        append_bytes(&mut bytes, self.uid.as_slice());
        append_bytes(&mut bytes, self.gid.as_slice());
        append_bytes(&mut bytes, self.size.as_slice());
        append_bytes(&mut bytes, self.mtime.as_slice());
        append_bytes(&mut bytes, self.cksum.as_slice());
        append_bytes(&mut bytes, self.typeflag.as_slice());
        append_bytes(&mut bytes, self.linkname.as_slice());
        append_bytes(&mut bytes, self.magic.as_slice());
        append_bytes(&mut bytes, self.version.as_slice());
        append_bytes(&mut bytes, self.uname.as_slice());
        append_bytes(&mut bytes, self.gname.as_slice());
        append_bytes(&mut bytes, self.dev_major.as_slice());
        append_bytes(&mut bytes, self.dev_minor.as_slice());
        append_bytes(&mut bytes, self.prefix.as_slice());
        append_bytes(&mut bytes, self.pad.as_slice());
        assert(bytes@ =~= self@);
        Header::from_byte_slice(bytes.as_slice())
    }

    fn of_block(h: &Header) -> (form: UstarHeader)
        ensures
            form@ == h@,
    {
        let b = h.bytes.as_slice();
        let form = UstarHeader {
            name: array_at::<100>(b, 0),
            mode: array_at::<8>(b, 100),
            uid: array_at::<8>(b, 108),
            gid: array_at::<8>(b, 116),
            size: array_at::<12>(b, 124),
            mtime: array_at::<12>(b, 136),
            cksum: array_at::<8>(b, 148),
            typeflag: array_at::<1>(b, 156),
            linkname: array_at::<100>(b, 157),
            magic: array_at::<6>(b, 257),
            version: array_at::<2>(b, 263),
            uname: array_at::<32>(b, 265),
            gname: array_at::<32>(b, 297),
            dev_major: array_at::<8>(b, 329),
            dev_minor: array_at::<8>(b, 337),
            prefix: array_at::<155>(b, 345),
            pad: array_at::<12>(b, 500),
        };
        assert(form@ =~= h@);
        form
    }
}

/// A GNU header.
#[derive(Clone, Copy, Debug)]
pub struct GnuHeader {
    pub name: [u8; 100],
    pub mode: [u8; 8],
    pub uid: [u8; 8],
    pub gid: [u8; 8],
    pub size: [u8; 12],
    pub mtime: [u8; 12],
    pub cksum: [u8; 8],
    pub typeflag: [u8; 1],
    pub linkname: [u8; 100],
    pub magic: [u8; 6],
    pub version: [u8; 2],
    pub uname: [u8; 32],
    pub gname: [u8; 32],
    pub dev_major: [u8; 8],
    pub dev_minor: [u8; 8],
    pub atime: [u8; 12],
    pub ctime: [u8; 12],
    pub offset: [u8; 12],
    pub longnames: [u8; 4],
    pub unused: [u8; 1],
    pub sparse: [GnuSparseHeader; 4],
    pub isextended: [u8; 1],
    pub realsize: [u8; 12],
    pub pad: [u8; 17],
}

impl View for GnuHeader {
    type V = Seq<u8>;

    open spec fn view(&self) -> Seq<u8> {
        self.name@
            + self.mode@
            + self.uid@
            + self.gid@
            + self.size@
            + self.mtime@
            + self.cksum@
            + self.typeflag@
            + self.linkname@
            + self.magic@
            + self.version@
            + self.uname@
            + self.gname@
            + self.dev_major@
            + self.dev_minor@
            + self.atime@
            + self.ctime@
            + self.offset@
            + self.longnames@
            + self.unused@
            + sparse_table(self.sparse@)
            + self.isextended@
            + self.realsize@
            + self.pad@
    }
}

impl GnuHeader {
    /// A header of zero bytes.
    pub fn zeroed() -> (h: GnuHeader)
        ensures
            h@ == zeros(512),
    {
        let h = GnuHeader {
            name: [0u8; 100],
            mode: [0u8; 8],
            uid: [0u8; 8],
            gid: [0u8; 8],
            size: [0u8; 12],
            mtime: [0u8; 12],
            cksum: [0u8; 8],
            typeflag: [0u8; 1],
            linkname: [0u8; 100],
            magic: [0u8; 6],
            version: [0u8; 2],
            uname: [0u8; 32],
            gname: [0u8; 32],
            dev_major: [0u8; 8],
            dev_minor: [0u8; 8],
            atime: [0u8; 12],
            ctime: [0u8; 12],
            offset: [0u8; 12],
            longnames: [0u8; 4],
            unused: [0u8; 1],
            sparse: [GnuSparseHeader::zeroed(); 4],
            isextended: [0u8; 1],
            realsize: [0u8; 12],
            pad: [0u8; 17],
        };
        assert(h@ =~= zeros(512));
        h
    }

    /// This header as a block.
    pub fn as_header(&self) -> (h: Header)
        ensures
            h@ == self@,
    {
        let mut bytes: Vec<u8> = Vec::new();
        append_bytes(&mut bytes, self.name.as_slice());
        append_bytes(&mut bytes, self.mode.as_slice());
        append_bytes(&mut bytes, self.uid.as_slice());
        append_bytes(&mut bytes, self.gid.as_slice());
        append_bytes(&mut bytes, self.size.as_slice());
        append_bytes(&mut bytes, self.mtime.as_slice());
        append_bytes(&mut bytes, self.cksum.as_slice());
        append_bytes(&mut bytes, self.typeflag.as_slice());
        append_bytes(&mut bytes, self.linkname.as_slice());
        append_bytes(&mut bytes, self.magic.as_slice());
        append_bytes(&mut bytes, self.version.as_slice());
        append_bytes(&mut bytes, self.uname.as_slice());
        append_bytes(&mut bytes, self.gname.as_slice());
        append_bytes(&mut bytes, self.dev_major.as_slice());
        append_bytes(&mut bytes, self.dev_minor.as_slice());
        append_bytes(&mut bytes, self.atime.as_slice());
        append_bytes(&mut bytes, self.ctime.as_slice());
        append_bytes(&mut bytes, self.offset.as_slice());
        append_bytes(&mut bytes, self.longnames.as_slice());
        append_bytes(&mut bytes, self.unused.as_slice());
        append_bytes(&mut bytes, self.sparse[0].offset.as_slice());
        append_bytes(&mut bytes, self.sparse[0].numbytes.as_slice());
        append_bytes(&mut bytes, self.sparse[1].offset.as_slice());
        append_bytes(&mut bytes, self.sparse[1].numbytes.as_slice());
        append_bytes(&mut bytes, self.sparse[2].offset.as_slice());
        append_bytes(&mut bytes, self.sparse[2].numbytes.as_slice());
        append_bytes(&mut bytes, self.sparse[3].offset.as_slice());
        append_bytes(&mut bytes, self.sparse[3].numbytes.as_slice());
        append_bytes(&mut bytes, self.isextended.as_slice());
        append_bytes(&mut bytes, self.realsize.as_slice());
        append_bytes(&mut bytes, self.pad.as_slice());
        assert(bytes@ =~= self@);
        Header::from_byte_slice(bytes.as_slice())
    }

    fn of_block(h: &Header) -> (form: GnuHeader)
        ensures
            form@ == h@,
    {
        let b = h.bytes.as_slice();
        let form = GnuHeader {
            name: array_at::<100>(b, 0),
            mode: array_at::<8>(b, 100),
            uid: array_at::<8>(b, 108),
            gid: array_at::<8>(b, 116),
            size: array_at::<12>(b, 124),
            mtime: array_at::<12>(b, 136),
            cksum: array_at::<8>(b, 148),
            typeflag: array_at::<1>(b, 156),
            linkname: array_at::<100>(b, 157),
            magic: array_at::<6>(b, 257),
            version: array_at::<2>(b, 263),
            uname: array_at::<32>(b, 265),
            gname: array_at::<32>(b, 297),
            dev_major: array_at::<8>(b, 329),
            dev_minor: array_at::<8>(b, 337),
            atime: array_at::<12>(b, 345),
            ctime: array_at::<12>(b, 357),
            offset: array_at::<12>(b, 369),
            longnames: array_at::<4>(b, 381),
            unused: array_at::<1>(b, 385),
            sparse: [
                GnuSparseHeader::of_block(b, 386),
                GnuSparseHeader::of_block(b, 410),
                GnuSparseHeader::of_block(b, 434),
                GnuSparseHeader::of_block(b, 458),
            ],
            isextended: array_at::<1>(b, 482),
            realsize: array_at::<12>(b, 483),
            pad: array_at::<17>(b, 495),
        };
        proof {
            let all = h@;
            assert(field(all, 0, 100) =~= all.take(100));
            lemma_take_field(all, 100, 8);
            lemma_take_field(all, 108, 8);
            lemma_take_field(all, 116, 8);
            lemma_take_field(all, 124, 12);
            lemma_take_field(all, 136, 12);
            lemma_take_field(all, 148, 8);
            lemma_take_field(all, 156, 1);
            lemma_take_field(all, 157, 100);
            lemma_take_field(all, 257, 6);
            lemma_take_field(all, 263, 2);
            lemma_take_field(all, 265, 32);
            lemma_take_field(all, 297, 32);
            lemma_take_field(all, 329, 8);
            lemma_take_field(all, 337, 8);
            lemma_take_field(all, 345, 12);
            lemma_take_field(all, 357, 12);
            lemma_take_field(all, 369, 12);
            lemma_take_field(all, 381, 4);
            lemma_take_field(all, 385, 1);
            assert(sparse_table(form.sparse@) =~= field(all, 386, 96));
            lemma_take_field(all, 386, 96);
            lemma_take_field(all, 482, 1);
            lemma_take_field(all, 483, 12);
            lemma_take_field(all, 495, 17);
            assert(all.take(512) =~= all);
        }
        form
    }
}

/// Whether a GNU header says that blocks with more map entries follow it.
pub open spec fn gnu_is_extended(b: Seq<u8>) -> bool {
    b[482] == 1
}

impl GnuHeader {
    /// The size of a sparse file, holes and all.
    pub fn real_size(&self) -> (size: Result<u64, Error>)
        ensures
            outcome(size) == header_real_size(self@),
    {
        self.as_header().real_size()
    }

    /// Whether blocks with more map entries follow this header.
    pub fn is_extended(&self) -> (yes: bool)
        ensures
            yes == gnu_is_extended(self@),
    {
        assert(self@[482] == self.isextended@[0]);
        self.isextended[0] == 1
    }
}

/// Whether a block of map entries says that another one follows it.
pub open spec fn ext_is_extended(b: Seq<u8>) -> bool {
    b[504] == 1
}

/// A block of map entries behind a GNU header.
#[derive(Clone, Copy, Debug)]
pub struct GnuExtSparseHeader {
    block: Header,
}

impl View for GnuExtSparseHeader {
    type V = Seq<u8>;

    closed spec fn view(&self) -> Seq<u8> {
        self.block@
    }
}

impl GnuExtSparseHeader {
    /// A block of zero bytes.
    pub fn new() -> (h: GnuExtSparseHeader)
        ensures
            h@ == zeros(512),
    {
        let block = Header { bytes: [0u8; 512] };
        assert(block@ =~= zeros(512));
        GnuExtSparseHeader { block }
    }

    /// The block with the given bytes.
    pub fn from_byte_slice(bytes: &[u8]) -> (h: GnuExtSparseHeader)
        requires
            bytes@.len() == 512,
        ensures
            h@ == bytes@,
    {
        GnuExtSparseHeader { block: Header::from_byte_slice(bytes) }
    }

    /// The bytes of this block.
    pub fn as_bytes(&self) -> (bytes: &[u8; 512])
        ensures
            bytes@ == self@,
    {
        self.block.as_bytes()
    }

    /// One of the 21 map entries.
    pub fn sparse(&self, index: usize) -> (entry: GnuSparseHeader)
        requires
            index < 21,
        ensures
            entry@ == field(self@, 24 * index, 24),
    {
        GnuSparseHeader::of_block(self.block.bytes.as_slice(), 24 * index)
    }

    /// Whether another such block follows.
    pub fn is_extended(&self) -> (yes: bool)
        ensures
            yes == ext_is_extended(self@),
    {
        self.block.bytes[504] == 1
    }
}

impl Header {
    /// This header in the old form.
    pub fn as_old(&self) -> (form: OldHeader)
        ensures
            form@ == self@,
    {
        OldHeader::of_block(self)
    }

    /// This header in the USTAR form, if it is in it.
    pub fn as_ustar(&self) -> (form: Option<UstarHeader>)
        ensures
            form is Some == is_ustar(self@),
            form matches Some(h) ==> h@ == self@,
    {
        if self.is_ustar() {
            Some(UstarHeader::of_block(self))
        } else {
            None
        }
    }

    /// This header in the GNU form, if it is in it.
    pub fn as_gnu(&self) -> (form: Option<GnuHeader>)
        ensures
            form is Some == is_gnu(self@),
            form matches Some(h) ==> h@ == self@,
    {
        if self.is_gnu() {
            Some(GnuHeader::of_block(self))
        } else {
            None
        }
    }
}

} // verus!
