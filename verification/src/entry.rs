//! Archive members as they are read.

use crate::bytes::{copy_range, opt_bytes, zeros};
use crate::entry_type::EntryType;
use crate::error::{Error, ErrorView, other};
use crate::header::{header_link, header_path, header_type, Header};
use crate::options::ArchiveOptions;
use crate::pax::{
    find_last, last_value, malformed_failure, pax_extensions, pax_malformed, pax_records,
};
use std::collections::VecDeque;
use vstd::prelude::*;
use vstd::utf8::encode_utf8;

verus! {

/// A part of a member's contents.
#[derive(Clone, Copy, Debug, PartialEq, Eq, Structural)]
pub enum EntryIo {
    /// So many zero bytes that are not in the archive.
    Pad(u64),
    /// So many bytes of the archive.
    Data(u64),
}

/// How a member is to be unpacked.
#[derive(Clone, Copy, Debug, PartialEq, Eq, Structural)]
pub struct UnpackOptions {
    /// Whether extended file attributes are unpacked.
    pub unpack_xattrs: bool,
    /// Whether permissions are unpacked.
    pub preserve_permissions: bool,
    /// Whether the modification time is unpacked.
    pub preserve_mtime: bool,
    /// Whether a file that is there already is replaced.
    pub overwrite: bool,
    /// Whether a symbolic link may lead out of the directory to unpack to.
    pub allow_external_symlinks: bool,
}

/// How the members of an archive are to be unpacked.
pub open spec fn unpack_options(o: ArchiveOptions) -> UnpackOptions {
    UnpackOptions {
        unpack_xattrs: o.unpack_xattrs,
        preserve_permissions: o.preserve_permissions,
        preserve_mtime: o.preserve_mtime,
        overwrite: o.overwrite,
        allow_external_symlinks: o.allow_external_symlinks,
    }
}

/// An archive member.
#[derive(Debug)]
pub struct Entry {
    /// The size of the member's contents.
    pub size: u64,
    /// Where the header starts in the archive.
    pub header_pos: u64,
    /// Where the data starts in the archive.
    pub file_pos: u64,
    /// What is left to read of the contents.
    pub data: VecDeque<EntryIo>,
    /// The header, with what pax records put in the place of its fields.
    pub header: Header,
    /// The path in a GNU long name entry.
    pub long_pathname: Option<Vec<u8>>,
    /// The link target in a GNU long link entry.
    pub long_linkname: Option<Vec<u8>>,
    /// The pax records of the member.
    pub pax_extensions: Option<Vec<u8>>,
    /// The owner's user name in a pax record.
    pub pax_username: Option<Vec<u8>>,
    /// The owner's group name in a pax record.
    pub pax_groupname: Option<Vec<u8>>,
    /// How the member is to be unpacked.
    pub unpack: UnpackOptions,
}

/// What an [`Entry`] is.
#[verifier::ext_equal]
pub struct EntryView {
    pub size: u64,
    pub header_pos: u64,
    pub file_pos: u64,
    pub data: Seq<EntryIo>,
    pub header: Seq<u8>,
    pub long_pathname: Option<Seq<u8>>,
    pub long_linkname: Option<Seq<u8>>,
    pub pax_extensions: Option<Seq<u8>>,
    pub pax_username: Option<Seq<u8>>,
    pub pax_groupname: Option<Seq<u8>>,
    pub unpack: UnpackOptions,
}

impl View for Entry {
    type V = EntryView;

    open spec fn view(&self) -> EntryView {
        EntryView {
            size: self.size,
            header_pos: self.header_pos,
            file_pos: self.file_pos,
            data: self.data@,
            header: self.header@,
            long_pathname: opt_bytes(self.long_pathname),
            long_linkname: opt_bytes(self.long_linkname),
            pax_extensions: opt_bytes(self.pax_extensions),
            pax_username: opt_bytes(self.pax_username),
            pax_groupname: opt_bytes(self.pax_groupname),
            unpack: self.unpack,
        }
    }
}

/// Bytes without the zero byte at their end.
pub open spec fn without_nul(s: Seq<u8>) -> Seq<u8> {
    if s.len() > 0 && s.last() == 0 {
        s.drop_last()
    } else {
        s
    }
}

/// What the last pax record with a key gives.
pub open spec fn pax_value(pax: Option<Seq<u8>>, key: Seq<u8>) -> Result<
    Option<Seq<u8>>,
    ErrorView,
> {
    match pax {
        Some(d) => if pax_malformed(d) {
            Err(malformed_failure())
        } else {
            Ok(last_value(pax_records(d), key))
        },
        None => Ok(None),
    }
}

/// The path of a member: from a GNU long name, else from a pax record, else
/// from the header.
pub open spec fn entry_path(e: EntryView) -> Result<Seq<u8>, ErrorView> {
    match e.long_pathname {
        Some(name) => Ok(without_nul(name)),
        None => match pax_value(e.pax_extensions, encode_utf8("path"@)) {
            Ok(Some(path)) => Ok(path),
            Ok(None) => Ok(header_path(e.header)),
            Err(err) => Err(err),
        },
    }
}

/// The link target of a member: from a GNU long link, else from a pax record,
/// else from the header.
pub open spec fn entry_link(e: EntryView) -> Result<Option<Seq<u8>>, ErrorView> {
    match e.long_linkname {
        Some(name) => Ok(Some(without_nul(name))),
        None => match pax_value(e.pax_extensions, encode_utf8("linkpath"@)) {
            Ok(Some(target)) => Ok(Some(target)),
            Ok(None) => Ok(header_link(e.header)),
            Err(err) => Err(err),
        },
    }
}

/// A result, with what its bytes are in place of the bytes.
pub open spec fn outcome_bytes(r: Result<Vec<u8>, Error>) -> Result<Seq<u8>, ErrorView> {
    match r {
        Ok(v) => Ok(v@),
        Err(e) => Err(e@),
    }
}

/// A result, with what its bytes are in place of the bytes.
pub open spec fn outcome_opt_bytes(r: Result<Option<Vec<u8>>, Error>) -> Result<
    Option<Seq<u8>>,
    ErrorView,
> {
    match r {
        Ok(v) => Ok(opt_bytes(v)),
        Err(e) => Err(e@),
    }
}

/// The length of a part of a member's contents.
pub open spec fn io_len(part: EntryIo) -> u64 {
    match part {
        EntryIo::Pad(n) => n,
        EntryIo::Data(n) => n,
    }
}

/// The same kind of part with another length.
pub open spec fn io_with_len(part: EntryIo, n: u64) -> EntryIo {
    match part {
        EntryIo::Pad(_) => EntryIo::Pad(n),
        EntryIo::Data(_) => EntryIo::Data(n),
    }
}

/// Parts from the first one on that is not empty.
pub open spec fn unread(data: Seq<EntryIo>) -> Seq<EntryIo>
    decreases data.len(),
{
    if data.len() > 0 && io_len(data[0]) == 0 {
        unread(data.skip(1))
    } else {
        data
    }
}

/// The contents that parts make of the bytes of the archive.
pub open spec fn contents(data: Seq<EntryIo>, stored: Seq<u8>) -> Seq<u8>
    decreases data.len(),
{
    if data.len() == 0 {
        Seq::empty()
    } else {
        match data[0] {
            EntryIo::Pad(n) => zeros(n as nat) + contents(data.skip(1), stored),
            EntryIo::Data(n) => if n <= stored.len() {
                stored.take(n as int) + contents(data.skip(1), stored.skip(n as int))
            } else {
                stored + contents(data.skip(1), Seq::empty())
            },
        }
    }
}

/// The number of bytes in parts, holes and all.
pub open spec fn total_len(data: Seq<EntryIo>) -> nat
    decreases data.len(),
{
    if data.len() == 0 {
        0
    } else {
        total_len(data.drop_last()) + io_len(data.last()) as nat
    }
}

/// The number of bytes in parts that are in the archive.
pub open spec fn stored_len(data: Seq<EntryIo>) -> nat
    decreases data.len(),
{
    if data.len() == 0 {
        0
    } else {
        stored_len(data.drop_last()) + (match data.last() {
            EntryIo::Pad(_) => 0,
            EntryIo::Data(n) => n as nat,
        })
    }
}

/// The lengths of parts with one more.
pub proof fn lemma_one_more_part(data: Seq<EntryIo>, part: EntryIo)
    ensures
        total_len(data.push(part)) == total_len(data) + io_len(part),
        stored_len(data.push(part)) == stored_len(data) + (match part {
            EntryIo::Pad(_) => 0,
            EntryIo::Data(n) => n as nat,
        }),
{
    assert(data.push(part).drop_last() =~= data);
}

fn pax_value_of(pax: &Option<Vec<u8>>, key: &str) -> (value: Result<Option<Vec<u8>>, Error>)
    ensures
        outcome_opt_bytes(value) == pax_value(opt_bytes(*pax), encode_utf8(key@)),
{
    match pax {
        Some(d) => {
            let records = pax_extensions(d.as_slice());
            if records.malformed {
                return Err(other("malformed pax extension"));
            }
            match find_last(&records, key) {
                Some(v) => {
                    let copy: Vec<u8> = copy_range(v, 0, v.len());
                    assert(copy@ =~= v@);
                    Ok(Some(copy))
                },
                None => Ok(None),
            }
        },
        None => Ok(None),
    }
}

fn strip_nul(s: &Vec<u8>) -> (out: Vec<u8>)
    ensures
        out@ == without_nul(s@),
{
    if s.len() > 0 && s[s.len() - 1] == 0 {
        let out: Vec<u8> = copy_range(s.as_slice(), 0, s.len() - 1);
        assert(out@ =~= without_nul(s@));
        out
    } else {
        let out: Vec<u8> = copy_range(s.as_slice(), 0, s.len());
        assert(out@ =~= s@);
        out
    }
}

impl Entry {
    /// The header of this member.
    pub fn header(&self) -> (header: &Header)
        ensures
            header@ == self@.header,
    {
        &self.header
    }

    /// The kind of this member.
    pub fn entry_type(&self) -> (kind: EntryType)
        ensures
            kind == header_type(self@.header),
    {
        self.header.entry_type()
    }

    /// The path of this member.
    pub fn path_bytes(&self) -> (path: Result<Vec<u8>, Error>)
        ensures
            outcome_bytes(path) == entry_path(self@),
    {
        match &self.long_pathname {
            Some(name) => Ok(strip_nul(name)),
            None => match pax_value_of(&self.pax_extensions, "path") {
                Ok(Some(path)) => Ok(path),
                Ok(None) => Ok(self.header.path_bytes()),
                Err(e) => Err(e),
            },
        }
    }

    /// The link target of this member.
    pub fn link_name_bytes(&self) -> (target: Result<Option<Vec<u8>>, Error>)
        ensures
            outcome_opt_bytes(target) == entry_link(self@),
    {
        match &self.long_linkname {
            Some(name) => Ok(Some(strip_nul(name))),
            None => match pax_value_of(&self.pax_extensions, "linkpath") {
                Ok(Some(target)) => Ok(Some(target)),
                Ok(None) => Ok(self.header.link_name_bytes()),
                Err(e) => Err(e),
            },
        }
    }

    /// What is to be read next of the contents: the first part that is not
    /// empty.
    pub fn next_part(&mut self) -> (part: Option<EntryIo>)
        ensures
            final(self)@ == (EntryView { data: unread(old(self)@.data), ..old(self)@ }),
            part == (if unread(old(self)@.data).len() > 0 {
                Some(unread(old(self)@.data)[0])
            } else {
                None
            }),
    {
        while self.data.len() > 0
            invariant
                unread(self.data@) == unread(old(self).data@),
                self@ == (EntryView { data: self.data@, ..old(self)@ }),
            decreases self.data@.len(),
        {
            let first = self.data[0];
            let empty: bool = match first {
                EntryIo::Pad(n) => n == 0,
                EntryIo::Data(n) => n == 0,
            };
            if !empty {
                return Some(first);
            }
            let ghost before = self.data@;
            let _ = self.data.pop_front();
            assert(self.data@ =~= before.skip(1));
        }
        None
    }

    /// Takes note that `n` bytes of the first part were read; none were where
    /// the archive ends in it.
    pub fn consume(&mut self, n: u64)
        requires
            old(self)@.data.len() > 0,
            n <= io_len(old(self)@.data[0]),
        ensures
            final(self)@ == (EntryView {
                data: if n == 0 {
                    old(self)@.data.skip(1)
                } else {
                    old(self)@.data.update(
                        0,
                        io_with_len(
                            old(self)@.data[0],
                            (io_len(old(self)@.data[0]) - n) as u64,
                        ),
                    )
                },
                ..old(self)@
            }),
    {
        let ghost before = self.data@;
        match self.data.pop_front() {
            Some(first) => {
                if n != 0 {
                    let rest: EntryIo = match first {
                        EntryIo::Pad(len) => EntryIo::Pad(len - n),
                        EntryIo::Data(len) => EntryIo::Data(len - n),
                    };
                    self.data.push_front(rest);
                    assert(self.data@ =~= before.update(0, rest));
                } else {
                    assert(self.data@ =~= before.skip(1));
                }
            },
            None => {},
        }
    }
}

} // verus!
