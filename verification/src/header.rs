//! The header block in front of every archive member.

use crate::bytes::{
    append_bytes, append_range, copy_range, field, find_byte, lemma_field_put_other,
    lemma_field_put_same, lemma_first_of, opt_bytes, put, same_bytes, sum, sum_range, until_nul,
    zeros,
};
use crate::entry_type::{entry_type_of, typeflag_of, EntryType};
use crate::error::{failure, other, outcome, Error, ErrorView};
use crate::path::{archive_path, member_path, member_path_refusal};
use crate::number::{
    numeric_bytes, numeric_field, octal_bytes, octal_field, parse_numeric, parse_octal,
    parsed_numeric, parsed_octal,
};
use crate::text::{lossy, lossy_text, utf8_text};
use vstd::prelude::*;
use vstd::utf8::{decode_utf8, valid_utf8};

verus! {

/// The length of a header, and of the blocks that an archive is made of.
pub const BLOCK_SIZE: u64 = 512;

/// How much of a file's metadata goes into its header.
#[derive(Clone, Copy, Debug, PartialEq, Eq, Structural)]
pub enum HeaderMode {
    /// All of it.
    Complete,
    /// Only what does not change from one run to the next.
    Deterministic,
}

/// A header block.
#[derive(Clone, Copy, Debug)]
pub struct Header {
    pub bytes: [u8; 512],
}

impl View for Header {
    type V = Seq<u8>;

    open spec fn view(&self) -> Seq<u8> {
        self.bytes@
    }
}

/// The magic and the version of a USTAR header.
pub open spec fn ustar_magic() -> Seq<u8> {
    seq![117u8, 115u8, 116u8, 97u8, 114u8, 0u8, 48u8, 48u8]
}

/// The magic and the version of a GNU header.
pub open spec fn gnu_magic() -> Seq<u8> {
    seq![117u8, 115u8, 116u8, 97u8, 114u8, 32u8, 32u8, 0u8]
}

/// The magic of a USTAR header with a version of two zero bytes.
pub open spec fn nul_version_magic() -> Seq<u8> {
    seq![117u8, 115u8, 116u8, 97u8, 114u8, 0u8, 0u8, 0u8]
}

/// Whether a header is in USTAR form.
pub open spec fn is_ustar(b: Seq<u8>) -> bool {
    field(b, 257, 8) == ustar_magic()
}

/// Whether a header is in GNU form.
pub open spec fn is_gnu(b: Seq<u8>) -> bool {
    field(b, 257, 8) == gnu_magic()
}

/// The kind of the member that a header is for.
pub open spec fn header_type(b: Seq<u8>) -> EntryType {
    entry_type_of(b[156])
}

/// The path in a header.
pub open spec fn header_path(b: Seq<u8>) -> Seq<u8> {
    let name = until_nul(field(b, 0, 100));
    let prefix = until_nul(field(b, 345, 155));
    if is_ustar(b) && prefix.len() > 0 {
        prefix.push(47) + name
    } else {
        name
    }
}

/// The link target in a header.
pub open spec fn header_link(b: Seq<u8>) -> Option<Seq<u8>> {
    if b[157] == 0 {
        None
    } else {
        Some(until_nul(field(b, 157, 100)))
    }
}

/// The sum of the bytes of a header, with spaces in place of the checksum.
pub open spec fn checksum(b: Seq<u8>) -> nat {
    sum(b.take(148)) + 8 * 32 + sum(b.skip(156))
}

/// What is wrong with a header field that holds no number.
pub open spec fn number_failure(f: Seq<u8>) -> Seq<char> {
    let text = until_nul(f);
    if valid_utf8(text) {
        "numeric field was not a number: "@ + lossy(text)
    } else {
        "numeric field did not have utf-8 text: "@ + lossy(text)
    }
}

/// A failure on a field of a header.
pub open spec fn field_failure(message: Seq<char>, what: Seq<char>, b: Seq<u8>) -> ErrorView {
    failure(message + " when getting "@ + what + " for "@ + lossy(header_path(b)))
}

/// The number in a numeric field of a header.
pub open spec fn numeric_at(b: Seq<u8>, at: int, len: int, what: Seq<char>) -> Result<
    u64,
    ErrorView,
> {
    match parsed_numeric(field(b, at, len)) {
        Some(n) => Ok(n),
        None => Err(field_failure(number_failure(field(b, at, len)), what, b)),
    }
}

/// The number in an octal field of a header.
pub open spec fn octal_at(b: Seq<u8>, at: int, len: int, what: Seq<char>) -> Result<
    u64,
    ErrorView,
> {
    match parsed_octal(field(b, at, len)) {
        Some(n) => Ok(n),
        None => Err(field_failure(number_failure(field(b, at, len)), what, b)),
    }
}

/// The size of a member's data, as its header gives it.
pub open spec fn header_size(b: Seq<u8>) -> Result<u64, ErrorView> {
    numeric_at(b, 124, 12, "size"@)
}

/// The owner's user number in a header.
pub open spec fn header_uid(b: Seq<u8>) -> Result<u64, ErrorView> {
    numeric_at(b, 108, 8, "uid"@)
}

/// The owner's group number in a header.
pub open spec fn header_gid(b: Seq<u8>) -> Result<u64, ErrorView> {
    numeric_at(b, 116, 8, "gid"@)
}

/// The modification time in a header.
pub open spec fn header_mtime(b: Seq<u8>) -> Result<u64, ErrorView> {
    numeric_at(b, 136, 12, "mtime"@)
}

/// The permissions in a header.
pub open spec fn header_mode(b: Seq<u8>) -> Result<u32, ErrorView> {
    match octal_at(b, 100, 8, "mode"@) {
        Ok(n) => Ok(n as u32),
        Err(e) => Err(e),
    }
}

/// The checksum in a header.
pub open spec fn header_cksum(b: Seq<u8>) -> Result<u32, ErrorView> {
    match octal_at(b, 148, 8, "cksum"@) {
        Ok(n) => Ok(n as u32),
        Err(e) => Err(e),
    }
}

/// The size of a GNU sparse file, holes and all.
pub open spec fn header_real_size(b: Seq<u8>) -> Result<u64, ErrorView> {
    numeric_at(b, 483, 12, "real_size"@)
}

/// The owner's user name in a header.
pub open spec fn header_username(b: Seq<u8>) -> Option<Seq<u8>> {
    if is_ustar(b) || is_gnu(b) {
        Some(until_nul(field(b, 265, 32)))
    } else {
        None
    }
}

/// The owner's group name in a header.
pub open spec fn header_groupname(b: Seq<u8>) -> Option<Seq<u8>> {
    if is_ustar(b) || is_gnu(b) {
        Some(until_nul(field(b, 297, 32)))
    } else {
        None
    }
}

/// Why a user name cannot stand in a header.
pub open spec fn username_refusal(b: Seq<u8>, name: Seq<u8>) -> Option<Seq<char>> {
    if is_ustar(b) || is_gnu(b) {
        slot_refusal(name, 32)
    } else {
        Some("not a ustar or gnu archive, cannot set username"@)
    }
}

/// Why a group name cannot stand in a header.
pub open spec fn groupname_refusal(b: Seq<u8>, name: Seq<u8>) -> Option<Seq<char>> {
    if is_ustar(b) || is_gnu(b) {
        slot_refusal(name, 32)
    } else {
        Some("not a ustar or gnu archive, cannot set groupname"@)
    }
}

/// A device number in a header.
pub open spec fn device_at(b: Seq<u8>, at: int, what: Seq<char>) -> Result<
    Option<u32>,
    ErrorView,
> {
    if is_ustar(b) || is_gnu(b) {
        match octal_at(b, at, 8, what) {
            Ok(n) => Ok(Some(n as u32)),
            Err(e) => Err(e),
        }
    } else {
        Ok(None)
    }
}

/// Text in a header field of `len` bytes: a zero byte follows it where there
/// is room for one.
pub open spec fn slot_text(v: Seq<u8>, len: int) -> Seq<u8> {
    if v.len() < len {
        v.push(0)
    } else {
        v
    }
}

/// Why text cannot stand in a header field of `len` bytes.
pub open spec fn slot_refusal(v: Seq<u8>, len: int) -> Option<Seq<char>> {
    if v.len() > len {
        Some("provided value is too long"@)
    } else if v.contains(0) {
        Some("provided value contains a nul byte"@)
    } else {
        None
    }
}

/// The position of the last slash of `t` before `below`, or -1.
pub open spec fn last_slash(t: Seq<u8>, below: int) -> int
    decreases below,
{
    if below <= 0 {
        -1
    } else if t[below - 1] == 47 {
        below - 1
    } else {
        last_slash(t, below - 1)
    }
}

/// Where a path that is too long for the name field is split: at the last
/// slash that leaves at most 155 bytes in front of it and a name behind it.
pub open spec fn split_point(t: Seq<u8>) -> int {
    last_slash(
        t,
        if t.len() <= 156 {
            t.len() - 1
        } else {
            156
        },
    )
}

/// Why a path cannot stand in a header.
pub open spec fn path_refusal(b: Seq<u8>, p: Seq<u8>) -> Option<Seq<char>> {
    let t = member_path(p);
    if member_path_refusal(p) is Some {
        member_path_refusal(p)
    } else if t.contains(0) {
        Some("provided value contains a nul byte"@)
    } else if t.len() <= 100 {
        None
    } else if !is_ustar(b) {
        Some("provided value is too long"@)
    } else if split_point(t) <= 0 {
        Some("path cannot be split to be inserted into archive: "@ + lossy(t))
    } else if t.len() - split_point(t) - 1 > 100 {
        Some("provided value is too long"@)
    } else {
        None
    }
}

/// `v`, filled up with zero bytes to `len` bytes.
pub open spec fn padded(v: Seq<u8>, len: int) -> Seq<u8> {
    v + zeros((len - v.len()) as nat)
}

/// A header with a path written to it.
pub open spec fn with_path(b: Seq<u8>, t: Seq<u8>) -> Seq<u8> {
    if t.len() <= 100 {
        if is_ustar(b) {
            put(put(b, 345, zeros(155)), 0, padded(t, 100))
        } else {
            put(b, 0, padded(t, 100))
        }
    } else {
        let k = split_point(t);
        put(put(b, 345, padded(t.take(k), 155)), 0, padded(t.skip(k + 1), 100))
    }
}

/// A header keeps its form when another field is put in it.
pub broadcast proof fn lemma_form_put(b: Seq<u8>, at: int, v: Seq<u8>)
    requires
        b.len() == 512,
        0 <= at,
        at + v.len() <= 257 || 265 <= at,
    ensures
        #[trigger] is_ustar(put(b, at, v)) == is_ustar(b),
{
    lemma_field_put_other(b, at, v, 257, 8);
}

/// A header stays a GNU header, or none, where its magic bytes stay.
pub broadcast proof fn lemma_gnu_form_put(b: Seq<u8>, at: int, v: Seq<u8>)
    requires
        b.len() == 512,
        0 <= at,
        at + v.len() <= 257 || 265 <= at,
    ensures
        #[trigger] is_gnu(put(b, at, v)) == is_gnu(b),
{
    lemma_field_put_other(b, at, v, 257, 8);
}

pub proof fn lemma_last_slash(t: Seq<u8>, below: int)
    requires
        0 <= below <= t.len(),
    ensures
        -1 <= last_slash(t, below) < below || last_slash(t, below) == -1,
        last_slash(t, below) >= 0 ==> t[last_slash(t, below)] == 47,
    decreases below,
{
    if below > 0 && t[below - 1] != 47 {
        lemma_last_slash(t, below - 1);
    }
}

/// Where a path is split, it leaves no more in front than the prefix holds.
pub proof fn lemma_split_point(t: Seq<u8>)
    requires
        t.len() > 0,
    ensures
        -1 <= split_point(t) <= 155,
        split_point(t) < t.len() - 1 || split_point(t) == -1,
{
    lemma_last_slash(
        t,
        if t.len() <= 156 {
            t.len() - 1
        } else {
            156
        },
    );
}

/// Text that is filled up with zero bytes is found again.
pub proof fn lemma_until_nul_padded(v: Seq<u8>, len: int)
    requires
        v.len() <= len,
        !v.contains(0),
    ensures
        padded(v, len).len() == len,
        until_nul(padded(v, len)) == v,
{
    let f = padded(v, len);
    assert forall|j: int| 0 <= j < v.len() implies f[j] != 0 by {
        assert(v.contains(v[j]));
    }
    crate::bytes::lemma_first_of_is(f, 0, v.len() as int);
    assert(until_nul(f) =~= v);
}

/// A path that was written to a USTAR header is read back from it.
pub proof fn lemma_header_path_with_path(b: Seq<u8>, p: Seq<u8>)
    requires
        b.len() == 512,
        is_ustar(b),
        path_refusal(b, p) is None,
    ensures
        with_path(b, member_path(p)).len() == 512,
        is_ustar(with_path(b, member_path(p))),
        header_path(with_path(b, member_path(p))) == member_path(p),
{
    broadcast use {lemma_field_put_same, lemma_field_put_other};

    let t = member_path(p);
    let w = with_path(b, t);
    if t.len() <= 100 {
        lemma_until_nul_padded(t, 100);
        lemma_until_nul_padded(Seq::empty(), 155);
        assert(padded(Seq::empty(), 155) =~= zeros(155));
        assert(zeros(155).len() == 155);
        assert(field(w, 0, 100) == padded(t, 100));
        assert(field(w, 345, 155) == zeros(155)) by {
            assert(field(put(b, 345, zeros(155)), 345, 155) == zeros(155));
        }
    } else {
        let k = split_point(t);
        lemma_last_slash(
            t,
            if t.len() <= 156 {
                t.len() - 1
            } else {
                156
            },
        );
        let prefix = t.take(k);
        let name = t.skip(k + 1);
        assert(!prefix.contains(0)) by {
            if prefix.contains(0) {
                let j = choose|j: int| 0 <= j < prefix.len() && prefix[j] == 0;
                assert(t[j] == 0);
            }
        }
        assert(!name.contains(0)) by {
            if name.contains(0) {
                let j = choose|j: int| 0 <= j < name.len() && name[j] == 0;
                assert(t[j + k + 1] == 0);
            }
        }
        lemma_until_nul_padded(prefix, 155);
        lemma_until_nul_padded(name, 100);
        assert(field(w, 0, 100) == padded(name, 100));
        assert(field(w, 345, 155) == padded(prefix, 155)) by {
            assert(field(put(b, 345, padded(prefix, 155)), 345, 155) == padded(prefix, 155));
        }
        assert(t =~= prefix.push(47) + name);
    }
}

impl Header {
    /// Puts bytes at a place in the header.
    pub(crate) fn put_bytes(&mut self, at: usize, v: &[u8])
        requires
            at + v@.len() <= 512,
        ensures
            final(self)@ == put(old(self)@, at as int, v@),
    {
        let mut i: usize = 0;
        assert(self@ =~= put(old(self)@, at as int, v@.take(0)));
        while i < v.len()
            invariant
                i <= v@.len(),
                at + v@.len() <= 512,
                old(self)@.len() == 512,
                self@ == put(old(self)@, at as int, v@.take(i as int)),
            decreases v@.len() - i,
        {
            self.bytes[at + i] = v[i];
            i = i + 1;
            assert(self@ =~= put(old(self)@, at as int, v@.take(i as int)));
        }
        assert(v@.take(v@.len() as int) =~= v@);
    }

    /// The `len` bytes at `at`.
    pub(crate) fn part(&self, at: usize, len: usize) -> (out: &[u8])
        requires
            at + len <= 512,
        ensures
            out@ == field(self@, at as int, len as int),
    {
        vstd::slice::slice_subrange(self.bytes.as_slice(), at, at + len)
    }

    fn blank() -> (h: Header)
        ensures
            h@ == zeros(512),
    {
        let h = Header { bytes: [0u8; 512] };
        assert(h@ =~= zeros(512));
        h
    }

    /// Whether this is a USTAR header.
    pub fn is_ustar(&self) -> (yes: bool)
        ensures
            yes == is_ustar(self@),
    {
        let magic: [u8; 8] = [117u8, 115u8, 116u8, 97u8, 114u8, 0u8, 48u8, 48u8];
        assert(magic@ =~= ustar_magic());
        same_bytes(self.part(257, 8), magic.as_slice())
    }

    /// Whether this is a GNU header.
    pub fn is_gnu(&self) -> (yes: bool)
        ensures
            yes == is_gnu(self@),
    {
        let magic: [u8; 8] = [117u8, 115u8, 116u8, 97u8, 114u8, 32u8, 32u8, 0u8];
        assert(magic@ =~= gnu_magic());
        same_bytes(self.part(257, 8), magic.as_slice())
    }

    /// Whether this looks like a USTAR header but has zero bytes for a version.
    pub fn is_ambiguous_nul_version_ustar(&self) -> (yes: bool)
        ensures
            yes == (field(self@, 257, 8) == nul_version_magic()),
    {
        let magic: [u8; 8] = [117u8, 115u8, 116u8, 97u8, 114u8, 0u8, 0u8, 0u8];
        assert(magic@ =~= nul_version_magic());
        same_bytes(self.part(257, 8), magic.as_slice())
    }

    /// A header of the old form, with a modification time of zero.
    pub fn new_old() -> (h: Header)
        ensures
            h@ == put(zeros(512), 136, numeric_field(0, 12)),
    {
        let mut h = Header::blank();
        h.set_mtime(0);
        h
    }

    /// A GNU header with a modification time of zero.
    pub fn new_gnu() -> (h: Header)
        ensures
            h@ == put(put(zeros(512), 257, gnu_magic()), 136, numeric_field(0, 12)),
    {
        let mut h = Header::blank();
        let magic: [u8; 8] = [117u8, 115u8, 116u8, 97u8, 114u8, 32u8, 32u8, 0u8];
        assert(magic@ =~= gnu_magic());
        h.put_bytes(257, magic.as_slice());
        h.set_mtime(0);
        h
    }

    /// A USTAR header with a modification time of zero.
    pub fn new_ustar() -> (h: Header)
        ensures
            h@ == new_ustar_bytes(),
    {
        let mut h = Header::blank();
        let magic: [u8; 8] = [117u8, 115u8, 116u8, 97u8, 114u8, 0u8, 48u8, 48u8];
        assert(magic@ =~= ustar_magic());
        h.put_bytes(257, magic.as_slice());
        h.set_mtime(0);
        h
    }

    /// The header with the given bytes.
    pub fn from_byte_slice(bytes: &[u8]) -> (h: Header)
        requires
            bytes@.len() == 512,
        ensures
            h@ == bytes@,
    {
        let mut h = Header::blank();
        h.put_bytes(0, bytes);
        assert(h@ =~= bytes@);
        h
    }

    /// The bytes of this header.
    pub fn as_bytes(&self) -> (bytes: &[u8; 512])
        ensures
            bytes@ == self@,
    {
        &self.bytes
    }

    /// The kind of the member that this header is for.
    pub fn entry_type(&self) -> (kind: EntryType)
        ensures
            kind == header_type(self@),
    {
        EntryType::new(self.bytes[156])
    }

    /// Sets the kind of the member.
    pub fn set_entry_type(&mut self, kind: EntryType)
        ensures
            final(self)@ == put(old(self)@, 156, seq![typeflag_of(kind)]),
    {
        let flag: [u8; 1] = [kind.as_byte()];
        assert(flag@ =~= seq![typeflag_of(kind)]);
        self.put_bytes(156, flag.as_slice());
    }

    /// Whether this is a USTAR header of pax records for the next member.
    pub fn is_pax_local_extensions(&self) -> (yes: bool)
        ensures
            yes == (is_ustar(self@) && header_type(self@) is XHeader),
    {
        self.is_ustar() && self.entry_type().is_pax_local_extensions()
    }

    fn number_error(&self, at: usize, len: usize, what: &str) -> (err: Error)
        requires
            at + len <= 512,
        ensures
            err@ == field_failure(number_failure(field(self@, at as int, len as int)), what@, self@),
    {
        let mut message: String = number_text(self.part(at, len));
        message.append(" when getting ");
        message.append(what);
        message.append(" for ");
        let path: Vec<u8> = self.path_bytes();
        message.append(lossy_text(path.as_slice()).as_str());
        other(message.as_str())
    }

    fn numeric_at(&self, at: usize, len: usize, what: &str) -> (value: Result<u64, Error>)
        requires
            at + len <= 512,
            8 <= len <= 12,
        ensures
            outcome(value) == numeric_at(self@, at as int, len as int, what@),
    {
        match parse_numeric(self.part(at, len)) {
            Some(n) => Ok(n),
            None => Err(self.number_error(at, len, what)),
        }
    }

    fn octal_at(&self, at: usize, len: usize, what: &str) -> (value: Result<u64, Error>)
        requires
            at + len <= 512,
            8 <= len <= 12,
        ensures
            outcome(value) == octal_at(self@, at as int, len as int, what@),
    {
        match parse_octal(self.part(at, len)) {
            Some(n) => Ok(n),
            None => Err(self.number_error(at, len, what)),
        }
    }

    /// The size of the member's data in the archive.
    pub fn entry_size(&self) -> (size: Result<u64, Error>)
        ensures
            outcome(size) == header_size(self@),
    {
        self.numeric_at(124, 12, "size")
    }

    /// The size of the member's data in the archive, before any pax record is
    /// taken into account.
    pub fn raw_entry_size(&self) -> (size: Result<u64, Error>)
        ensures
            outcome(size) == header_size(self@),
    {
        self.entry_size()
    }

    /// The size of the member: for a sparse file of a GNU header the size with
    /// its holes.
    pub fn size(&self) -> (size: Result<u64, Error>)
        ensures
            outcome(size) == (if header_type(self@) is GNUSparse {
                if is_gnu(self@) {
                    header_real_size(self@)
                } else {
                    Err(failure("sparse header was not a gnu header"@))
                }
            } else {
                header_size(self@)
            }),
    {
        if self.entry_type().is_gnu_sparse() {
            if self.is_gnu() {
                self.real_size()
            } else {
                Err(other("sparse header was not a gnu header"))
            }
        } else {
            self.entry_size()
        }
    }

    /// The size of a GNU sparse file, holes and all.
    pub fn real_size(&self) -> (size: Result<u64, Error>)
        ensures
            outcome(size) == header_real_size(self@),
    {
        self.numeric_at(483, 12, "real_size")
    }

    /// Sets the size of the member's data.
    pub fn set_size(&mut self, size: u64)
        ensures
            final(self)@ == put(old(self)@, 124, numeric_field(size as nat, 12)),
    {
        let f: Vec<u8> = numeric_bytes(size, 12);
        proof {
            crate::number::lemma_numeric_field_form(size as nat, 12);
        }
        self.put_bytes(124, f.as_slice());
    }

    /// The owner's user number.
    pub fn uid(&self) -> (uid: Result<u64, Error>)
        ensures
            outcome(uid) == header_uid(self@),
    {
        self.numeric_at(108, 8, "uid")
    }

    /// Sets the owner's user number.
    pub fn set_uid(&mut self, uid: u64)
        ensures
            final(self)@ == put(old(self)@, 108, numeric_field(uid as nat, 8)),
    {
        let f: Vec<u8> = numeric_bytes(uid, 8);
        proof {
            crate::number::lemma_numeric_field_form(uid as nat, 8);
        }
        self.put_bytes(108, f.as_slice());
    }

    /// The owner's group number.
    pub fn gid(&self) -> (gid: Result<u64, Error>)
        ensures
            outcome(gid) == header_gid(self@),
    {
        self.numeric_at(116, 8, "gid")
    }

    /// Sets the owner's group number.
    pub fn set_gid(&mut self, gid: u64)
        ensures
            final(self)@ == put(old(self)@, 116, numeric_field(gid as nat, 8)),
    {
        let f: Vec<u8> = numeric_bytes(gid, 8);
        proof {
            crate::number::lemma_numeric_field_form(gid as nat, 8);
        }
        self.put_bytes(116, f.as_slice());
    }

    /// The modification time, in seconds since 1970.
    pub fn mtime(&self) -> (mtime: Result<u64, Error>)
        ensures
            outcome(mtime) == header_mtime(self@),
    {
        self.numeric_at(136, 12, "mtime")
    }

    /// Sets the modification time, in seconds since 1970.
    pub fn set_mtime(&mut self, mtime: u64)
        ensures
            final(self)@ == put(old(self)@, 136, numeric_field(mtime as nat, 12)),
    {
        let f: Vec<u8> = numeric_bytes(mtime, 12);
        proof {
            crate::number::lemma_numeric_field_form(mtime as nat, 12);
        }
        self.put_bytes(136, f.as_slice());
    }

    /// The permission bits.
    pub fn mode(&self) -> (mode: Result<u32, Error>)
        ensures
            outcome(mode) == header_mode(self@),
    {
        match self.octal_at(100, 8, "mode") {
            Ok(n) => Ok(n as u32),
            Err(e) => Err(e),
        }
    }

    /// Sets the permission bits, of which the field holds the last 21.
    pub fn set_mode(&mut self, mode: u32)
        ensures
            final(self)@ == put(old(self)@, 100, octal_field(mode as nat, 8)),
    {
        let f: Vec<u8> = octal_bytes(mode as u64, 8);
        proof {
            crate::number::lemma_octal(mode as nat, 7);
        }
        self.put_bytes(100, f.as_slice());
    }

    /// The checksum that the header gives for itself.
    pub fn cksum(&self) -> (cksum: Result<u32, Error>)
        ensures
            outcome(cksum) == header_cksum(self@),
    {
        match self.octal_at(148, 8, "cksum") {
            Ok(n) => Ok(n as u32),
            Err(e) => Err(e),
        }
    }

    /// The checksum that the header should give for itself.
    pub fn calculate_cksum(&self) -> (cksum: u32)
        ensures
            cksum == checksum(self@),
    {
        let b = self.bytes.as_slice();
        assert(b@.subrange(0, 148) =~= b@.take(148));
        assert(b@.subrange(156, 512) =~= b@.skip(156));
        proof {
            crate::bytes::lemma_sum_bound(b@.take(148));
            crate::bytes::lemma_sum_bound(b@.skip(156));
        }
        sum_range(b, 0, 148) + 8 * 32 + sum_range(b, 156, 512)
    }

    /// Sets the checksum to what it should be.
    pub fn set_cksum(&mut self)
        ensures
            final(self)@ == put(old(self)@, 148, octal_field(checksum(old(self)@), 8)),
    {
        let cksum: u32 = self.calculate_cksum();
        let f: Vec<u8> = octal_bytes(cksum as u64, 8);
        proof {
            crate::number::lemma_octal(cksum as nat, 7);
        }
        self.put_bytes(148, f.as_slice());
    }

    /// Whether every byte of the block is zero.
    pub fn is_zero(&self) -> (yes: bool)
        ensures
            yes == (self@ == zeros(512)),
    {
        let mut i: usize = 0;
        while i < 512
            invariant
                i <= 512,
                forall|j: int| 0 <= j < i ==> self@[j] == 0,
            decreases 512 - i,
        {
            if self.bytes[i] != 0 {
                assert(zeros(512)[i as int] == 0);
                return false;
            }
            i = i + 1;
        }
        assert(self@ =~= zeros(512));
        true
    }

    /// The path of the member.
    pub fn path_bytes(&self) -> (path: Vec<u8>)
        ensures
            path@ == header_path(self@),
    {
        let name = self.part(0, 100);
        let name_len: usize = find_byte(name, 0);
        let prefix = self.part(345, 155);
        let prefix_len: usize = find_byte(prefix, 0);
        proof {
            lemma_first_of(name@, 0);
            lemma_first_of(prefix@, 0);
            assert(name@.subrange(0, name_len as int) =~= until_nul(name@));
            assert(prefix@.subrange(0, prefix_len as int) =~= until_nul(prefix@));
        }
        let mut path: Vec<u8> = Vec::new();
        if self.is_ustar() && prefix_len > 0 {
            append_range(&mut path, prefix, 0, prefix_len);
            path.push(47u8);
        }
        append_range(&mut path, name, 0, name_len);
        assert(path@ =~= header_path(self@));
        path
    }

    /// The link target of the member.
    pub fn link_name_bytes(&self) -> (target: Option<Vec<u8>>)
        ensures
            match header_link(self@) {
                Some(t) => target matches Some(v) && v@ == t,
                None => target is None,
            },
    {
        if self.bytes[157] == 0 {
            return None;
        }
        let name = self.part(157, 100);
        let len: usize = find_byte(name, 0);
        proof {
            lemma_first_of(name@, 0);
            assert(name@.subrange(0, len as int) =~= until_nul(name@));
        }
        Some(copy_range(name, 0, len))
    }

    /// Writes text to the field of `len` bytes at `at`.
    fn set_slot(&mut self, at: usize, len: usize, v: &[u8]) -> (done: Result<(), Error>)
        requires
            at + len <= 512,
        ensures
            match slot_refusal(v@, len as int) {
                Some(message) => done matches Err(e) && e@ == failure(message) && final(self)@
                    == old(self)@,
                None => done is Ok && final(self)@ == put(
                    old(self)@,
                    at as int,
                    slot_text(v@, len as int),
                ),
            },
    {
        if v.len() > len {
            return Err(other("provided value is too long"));
        }
        let nul: usize = find_byte(v, 0);
        proof {
            lemma_first_of(v@, 0);
        }
        if nul < v.len() {
            assert(v@.contains(0));
            return Err(other("provided value contains a nul byte"));
        }
        assert(!v@.contains(0));
        let mut text: Vec<u8> = Vec::new();
        append_bytes(&mut text, v);
        assert(text@ =~= v@);
        if v.len() < len {
            text.push(0u8);
        }
        self.put_bytes(at, text.as_slice());
        Ok(())
    }

    /// Sets the link target, byte for byte.
    pub fn set_link_name(&mut self, target: &[u8]) -> (done: Result<(), Error>)
        ensures
            match slot_refusal(target@, 100) {
                Some(message) => done matches Err(e) && e@ == failure(message) && final(self)@
                    == old(self)@,
                None => done is Ok && final(self)@ == put(
                    old(self)@,
                    157,
                    slot_text(target@, 100),
                ),
            },
    {
        self.set_slot(157, 100, target)
    }

    /// Sets the path of the member, as a relative path without `.` and `..`.
    pub fn set_path(&mut self, path: &[u8]) -> (done: Result<(), Error>)
        ensures
            match path_refusal(old(self)@, path@) {
                Some(message) => done matches Err(e) && e@ == failure(message) && final(self)@
                    == old(self)@,
                None => done is Ok && final(self)@ == with_path(
                    old(self)@,
                    member_path(path@),
                ),
            },
    {
        let text: Vec<u8> = match archive_path(path) {
            Ok(text) => text,
            Err(e) => {
                return Err(e);
            },
        };
        let ghost t = member_path(path@);
        let nul: usize = find_byte(text.as_slice(), 0);
        proof {
            lemma_first_of(text@, 0);
        }
        if nul < text.len() {
            assert(t.contains(0));
            return Err(other("provided value contains a nul byte"));
        }
        assert(!t.contains(0));
        let ustar: bool = self.is_ustar();
        if text.len() <= 100 {
            if ustar {
                let empty: Vec<u8> = padded_bytes(text.as_slice(), 0, 0, 155);
                assert(empty@ =~= zeros(155));
                self.put_bytes(345, empty.as_slice());
            }
            let name: Vec<u8> = padded_bytes(text.as_slice(), 0, text.len(), 100);
            assert(t.subrange(0, t.len() as int) =~= t);
            self.put_bytes(0, name.as_slice());
            return Ok(());
        }
        if !ustar {
            return Err(other("provided value is too long"));
        }
        let mut below: usize = if text.len() <= 156 {
            text.len() - 1
        } else {
            156
        };
        while below > 0 && text[below - 1] != 47
            invariant
                below < text@.len(),
                below <= 156,
                text@ == t,
                last_slash(t, below as int) == split_point(t),
            decreases below,
        {
            below = below - 1;
        }
        if below <= 1 {
            let mut message: String = "path cannot be split to be inserted into archive: ".to_owned();
            message.append(lossy_text(text.as_slice()).as_str());
            return Err(other(message.as_str()));
        }
        let k: usize = below - 1;
        if text.len() - k - 1 > 100 {
            return Err(other("provided value is too long"));
        }
        let prefix: Vec<u8> = padded_bytes(text.as_slice(), 0, k, 155);
        let name: Vec<u8> = padded_bytes(text.as_slice(), k + 1, text.len(), 100);
        proof {
            assert(t.subrange(0, k as int) =~= t.take(k as int));
            assert(t.subrange(k + 1, t.len() as int) =~= t.skip(k + 1));
        }
        self.put_bytes(345, prefix.as_slice());
        self.put_bytes(0, name.as_slice());
        Ok(())
    }

    /// The owner's user name, as bytes.
    pub fn username_bytes(&self) -> (name: Option<Vec<u8>>)
        ensures
            opt_bytes(name) == header_username(self@),
    {
        if self.is_ustar() || self.is_gnu() {
            Some(self.slot(265, 32))
        } else {
            None
        }
    }

    /// The owner's group name, as bytes.
    pub fn groupname_bytes(&self) -> (name: Option<Vec<u8>>)
        ensures
            opt_bytes(name) == header_groupname(self@),
    {
        if self.is_ustar() || self.is_gnu() {
            Some(self.slot(297, 32))
        } else {
            None
        }
    }

    /// The owner's user name.
    pub fn username(&self) -> (name: Result<Option<String>, Error>)
        ensures
            name_outcome(name) == owner_text(header_username(self@)),
    {
        owner_name(self.username_bytes())
    }

    /// The owner's group name.
    pub fn groupname(&self) -> (name: Result<Option<String>, Error>)
        ensures
            name_outcome(name) == owner_text(header_groupname(self@)),
    {
        owner_name(self.groupname_bytes())
    }

    /// The text in the field of `len` bytes at `at`.
    fn slot(&self, at: usize, len: usize) -> (text: Vec<u8>)
        requires
            at + len <= 512,
        ensures
            text@ == until_nul(field(self@, at as int, len as int)),
    {
        let f = self.part(at, len);
        let end: usize = find_byte(f, 0);
        proof {
            lemma_first_of(f@, 0);
            assert(f@.subrange(0, end as int) =~= until_nul(f@));
        }
        copy_range(f, 0, end)
    }

    /// Sets the owner's user name.
    pub fn set_username(&mut self, name: &[u8]) -> (done: Result<(), Error>)
        ensures
            match username_refusal(old(self)@, name@) {
                Some(message) => done matches Err(e) && e@ == failure(message) && final(self)@
                    == old(self)@,
                None => done is Ok && final(self)@ == put(
                    old(self)@,
                    265,
                    slot_text(name@, 32),
                ),
            },
    {
        if self.is_ustar() || self.is_gnu() {
            self.set_slot(265, 32, name)
        } else {
            Err(other("not a ustar or gnu archive, cannot set username"))
        }
    }

    /// Sets the owner's group name.
    pub fn set_groupname(&mut self, name: &[u8]) -> (done: Result<(), Error>)
        ensures
            match groupname_refusal(old(self)@, name@) {
                Some(message) => done matches Err(e) && e@ == failure(message) && final(self)@
                    == old(self)@,
                None => done is Ok && final(self)@ == put(
                    old(self)@,
                    297,
                    slot_text(name@, 32),
                ),
            },
    {
        if self.is_ustar() || self.is_gnu() {
            self.set_slot(297, 32, name)
        } else {
            Err(other("not a ustar or gnu archive, cannot set groupname"))
        }
    }

    /// The major device number, where the form of the header has one.
    pub fn device_major(&self) -> (number: Result<Option<u32>, Error>)
        ensures
            outcome(number) == device_at(self@, 329, "device_major"@),
    {
        self.device_at(329, "device_major")
    }

    /// The minor device number, where the form of the header has one.
    pub fn device_minor(&self) -> (number: Result<Option<u32>, Error>)
        ensures
            outcome(number) == device_at(self@, 337, "device_minor"@),
    {
        self.device_at(337, "device_minor")
    }

    fn device_at(&self, at: usize, what: &str) -> (number: Result<Option<u32>, Error>)
        requires
            at + 8 <= 512,
        ensures
            outcome(number) == device_at(self@, at as int, what@),
    {
        if self.is_ustar() || self.is_gnu() {
            match self.octal_at(at, 8, what) {
                Ok(n) => Ok(Some(n as u32)),
                Err(e) => Err(e),
            }
        } else {
            Ok(None)
        }
    }

    /// Sets the major device number, of which the field holds the last 21 bits.
    pub fn set_device_major(&mut self, major: u32) -> (done: Result<(), Error>)
        ensures
            if is_ustar(old(self)@) || is_gnu(old(self)@) {
                done is Ok && final(self)@ == put(old(self)@, 329, octal_field(major as nat, 8))
            } else {
                done matches Err(e) && e@ == failure(
                    "not a ustar or gnu archive, cannot set dev_major"@,
                ) && final(self)@ == old(self)@
            },
    {
        if self.is_ustar() || self.is_gnu() {
            let f: Vec<u8> = octal_bytes(major as u64, 8);
            proof {
                crate::number::lemma_octal(major as nat, 7);
            }
            self.put_bytes(329, f.as_slice());
            Ok(())
        } else {
            Err(other("not a ustar or gnu archive, cannot set dev_major"))
        }
    }

    /// Sets the minor device number, of which the field holds the last 21 bits.
    pub fn set_device_minor(&mut self, minor: u32) -> (done: Result<(), Error>)
        ensures
            if is_ustar(old(self)@) || is_gnu(old(self)@) {
                done is Ok && final(self)@ == put(old(self)@, 337, octal_field(minor as nat, 8))
            } else {
                done matches Err(e) && e@ == failure(
                    "not a ustar or gnu archive, cannot set dev_minor"@,
                ) && final(self)@ == old(self)@
            },
    {
        if self.is_ustar() || self.is_gnu() {
            let f: Vec<u8> = octal_bytes(minor as u64, 8);
            proof {
                crate::number::lemma_octal(minor as nat, 7);
            }
            self.put_bytes(337, f.as_slice());
            Ok(())
        } else {
            Err(other("not a ustar or gnu archive, cannot set dev_minor"))
        }
    }
}

/// What is wrong with a header field that holds no number.
pub(crate) fn number_text(f: &[u8]) -> (message: String)
    ensures
        message@ == number_failure(f@),
{
    let end: usize = find_byte(f, 0);
    proof {
        lemma_first_of(f@, 0);
        assert(f@.subrange(0, end as int) =~= until_nul(f@));
    }
    let text = vstd::slice::slice_subrange(f, 0, end);
    let mut message: String = match utf8_text(text) {
        Some(_) => "numeric field was not a number: ".to_owned(),
        None => "numeric field did not have utf-8 text: ".to_owned(),
    };
    message.append(lossy_text(text).as_str());
    message
}

/// The bytes of `s` from `from` up to `to`, filled up with zero bytes.
fn padded_bytes(s: &[u8], from: usize, to: usize, len: usize) -> (out: Vec<u8>)
    requires
        from <= to <= s@.len(),
        to - from <= len,
    ensures
        out@ == padded(s@.subrange(from as int, to as int), len as int),
        out@.len() == len,
{
    let mut out: Vec<u8> = copy_range(s, from, to);
    crate::bytes::append_zeros(&mut out, (len - (to - from)) as u64);
    out
}

/// The bytes of a fresh USTAR header.
pub open spec fn new_ustar_bytes() -> Seq<u8> {
    put(put(zeros(512), 257, ustar_magic()), 136, numeric_field(0, 12))
}

/// The text of an owner's name, which must be valid UTF-8.
pub open spec fn owner_text(name: Option<Seq<u8>>) -> Result<Option<Seq<char>>, ErrorView> {
    match name {
        Some(bytes) => if valid_utf8(bytes) {
            Ok(Some(decode_utf8(bytes)))
        } else {
            Err(failure("owner names must be valid UTF-8"@))
        },
        None => Ok(None),
    }
}

/// What a result with a text in it is.
pub open spec fn name_outcome(r: Result<Option<String>, Error>) -> Result<
    Option<Seq<char>>,
    ErrorView,
> {
    match r {
        Ok(Some(text)) => Ok(Some(text@)),
        Ok(None) => Ok(None),
        Err(err) => Err(err@),
    }
}

fn owner_name(name: Option<Vec<u8>>) -> (text: Result<Option<String>, Error>)
    ensures
        name_outcome(text) == owner_text(opt_bytes(name)),
{
    match name {
        Some(bytes) => match utf8_text(bytes.as_slice()) {
            Some(text) => Ok(Some(text.to_owned())),
            None => Err(other("owner names must be valid UTF-8")),
        },
        None => Ok(None),
    }
}

/// A number that is put in a numeric field of a header is read back from it.
/// The owner's numbers must be below 2^63. Of the mode seven octal digits are
/// kept.
pub proof fn law_numbers_are_read_back(
    b: Seq<u8>,
    size: u64,
    uid: u64,
    gid: u64,
    mtime: u64,
    mode: u32,
)
    requires
        b.len() == 512,
        uid < 0x8000_0000_0000_0000,
        gid < 0x8000_0000_0000_0000,
    ensures
        header_size(put(b, 124, numeric_field(size as nat, 12))) == Ok::<u64, ErrorView>(size),
        header_uid(put(b, 108, numeric_field(uid as nat, 8))) == Ok::<u64, ErrorView>(uid),
        header_gid(put(b, 116, numeric_field(gid as nat, 8))) == Ok::<u64, ErrorView>(gid),
        header_mtime(put(b, 136, numeric_field(mtime as nat, 12))) == Ok::<u64, ErrorView>(mtime),
        header_mode(put(b, 100, octal_field(mode as nat, 8))) == Ok::<u32, ErrorView>(
            (mode % 0x20_0000) as u32,
        ),
{
    broadcast use lemma_field_put_same;

    crate::number::lemma_numeric_field(size as nat, 12);
    crate::number::lemma_numeric_field(uid as nat, 8);
    crate::number::lemma_numeric_field(gid as nat, 8);
    crate::number::lemma_numeric_field(mtime as nat, 12);
    crate::number::lemma_pow_values();
    crate::number::lemma_octal_truncates(mode as nat, 7);
    crate::number::lemma_octal_field((mode % 0x20_0000) as nat, 8);
}

/// A text that is put in a field of a header is read back from it.
pub proof fn law_texts_are_read_back(b: Seq<u8>, name: Seq<u8>)
    requires
        b.len() == 512,
        is_ustar(b) || is_gnu(b),
        !name.contains(0),
        name.len() <= 32,
    ensures
        header_username(put(b, 265, slot_text(name, 32))) == Some(name),
        header_groupname(put(b, 297, slot_text(name, 32))) == Some(name),
{
    let text = slot_text(name, 32);
    let u = put(b, 265, text);
    let g = put(b, 297, text);
    assert(field(u, 257, 8) =~= field(b, 257, 8));
    assert(field(g, 257, 8) =~= field(b, 257, 8));
    lemma_slot_is_read_back(b, 265, name);
    lemma_slot_is_read_back(b, 297, name);
}

proof fn lemma_slot_is_read_back(b: Seq<u8>, at: int, name: Seq<u8>)
    requires
        b.len() == 512,
        0 <= at,
        at + 32 <= 512,
        !name.contains(0),
        name.len() <= 32,
    ensures
        until_nul(field(put(b, at, slot_text(name, 32)), at, 32)) == name,
{
    let f = field(put(b, at, slot_text(name, 32)), at, 32);
    assert forall|j: int| 0 <= j < name.len() implies f[j] != 0 by {
        assert(f[j] == slot_text(name, 32)[j]);
        assert(name.contains(name[j]));
    }
    crate::bytes::lemma_first_of_is(f, 0, name.len() as int);
    assert(until_nul(f) =~= name);
}

} // verus!
