//! From a file's name and metadata to the bytes in front of its data.

use crate::bytes::{append_bytes, append_zeros, copy_range, field, put, zeros};
use crate::entry_type::{typeflag_of, EntryType};
use crate::error::Error;
use crate::header::{
    checksum, new_ustar_bytes, path_refusal, slot_refusal, slot_text, with_path, Header,
};
use crate::metadata::{with_metadata, EntryMetadata, DEFAULT_FILE_MODE};
use crate::number::{
    decimal, decimal_text, is_binary_field, numeric_field, octal_field, parsed_numeric,
};
use crate::path::{is_name, joined, lemma_joined_names_are_kept, member_path};
use crate::pax::{append_pax_record, pax_data, PaxView};
use vstd::prelude::*;
use vstd::string::is_ascii;
use vstd::utf8::{encode_utf8, is_ascii_chars};

verus! {

/// The path of an extension entry.
pub const PAX_HEADER_PATH: &'static str = "PaxHeaders/pax-entry";

/// The path in a header whose path is in a pax record.
pub const PAX_PAYLOAD_PATH: &'static str = "pax-entry";

/// The target in the header of a hard link whose target is in a pax record.
pub const PAX_HARD_LINK_FALLBACK: &'static str = "pax-hard-link";

/// The target in the header of a symbolic link whose target is in a pax record.
pub const PAX_SYM_LINK_FALLBACK: &'static str = "pax-sym-link";

/// A pax record to be written.
#[derive(Debug)]
pub struct PaxRecord {
    pub key: &'static str,
    pub value: Vec<u8>,
}

impl View for PaxRecord {
    type V = PaxView;

    open spec fn view(&self) -> PaxView {
        PaxView { key: encode_utf8(self.key@), value: self.value@ }
    }
}

/// What pax records to be written are.
pub open spec fn record_views(rs: Seq<PaxRecord>) -> Seq<PaxView> {
    Seq::new(rs.len(), |i: int| rs[i]@)
}

/// A header, without its checksum, and the pax records that go with it.
#[derive(Debug)]
pub struct GeneratedEntry {
    pub header: Header,
    pub extensions: Vec<PaxRecord>,
}

/// What a [`GeneratedEntry`] is.
#[verifier::ext_equal]
pub struct GeneratedView {
    pub header: Seq<u8>,
    pub extensions: Seq<PaxView>,
}

impl View for GeneratedEntry {
    type V = GeneratedView;

    open spec fn view(&self) -> GeneratedView {
        GeneratedView { header: self.header@, extensions: record_views(self.extensions@) }
    }
}

/// An entry with a path: in the header where it is ASCII and fits, else in a
/// pax record.
pub open spec fn generated_path(g: GeneratedView, path: Seq<char>) -> GeneratedView {
    let p = encode_utf8(path);
    if is_ascii_chars(path) && path_refusal(g.header, p) is None {
        GeneratedView { header: with_path(g.header, member_path(p)), ..g }
    } else {
        GeneratedView {
            header: with_path(g.header, member_path(encode_utf8(PAX_PAYLOAD_PATH@))),
            extensions: g.extensions.push(PaxView { key: encode_utf8("path"@), value: p }),
        }
    }
}

/// An entry with a link target: in the header where it is ASCII and fits, else
/// in a pax record.
pub open spec fn generated_link(g: GeneratedView, target: Seq<char>, fallback: Seq<char>) -> GeneratedView {
    let t = encode_utf8(target);
    let cleared = put(g.header, 157, zeros(100));
    if is_ascii_chars(target) && slot_refusal(t, 100) is None {
        GeneratedView { header: put(cleared, 157, slot_text(t, 100)), ..g }
    } else {
        GeneratedView {
            header: put(cleared, 157, encode_utf8(fallback)),
            extensions: g.extensions.push(PaxView { key: encode_utf8("linkpath"@), value: t }),
        }
    }
}

/// An entry with the number in the field of `len` bytes at `at` moved to a pax
/// record, where the field does not hold it as octal digits.
pub open spec fn generated_number(g: GeneratedView, key: Seq<char>, at: int, len: int) -> GeneratedView {
    let f = field(g.header, at, len);
    if is_binary_field(f) {
        GeneratedView {
            header: put(g.header, at, numeric_field(0, len as nat)),
            extensions: g.extensions.push(
                PaxView { key: encode_utf8(key), value: decimal(parsed_numeric(f)->0 as nat) },
            ),
        }
    } else {
        g
    }
}

/// An entry with its numbers in octal fields or in pax records.
pub open spec fn generated_numbers(g: GeneratedView) -> GeneratedView {
    let g1 = generated_number(g, "size"@, 124, 12);
    let g2 = generated_number(g1, "uid"@, 108, 8);
    let g3 = generated_number(g2, "gid"@, 116, 8);
    generated_number(g3, "mtime"@, 136, 12)
}

/// The header of a generated entry before its path is put in it.
pub open spec fn generated_header(
    size: u64,
    kind: EntryType,
    metadata: EntryMetadata,
    default_mode: u32,
) -> Seq<u8> {
    put(
        put(
            with_metadata(new_ustar_bytes(), metadata, default_mode),
            124,
            numeric_field(size as nat, 12),
        ),
        156,
        seq![typeflag_of(kind)],
    )
}

/// A generated entry.
pub open spec fn generated(
    path: Seq<char>,
    size: u64,
    kind: EntryType,
    metadata: EntryMetadata,
    default_mode: u32,
) -> GeneratedView {
    let g = GeneratedView {
        header: generated_header(size, kind, metadata, default_mode),
        extensions: Seq::empty(),
    };
    generated_numbers(generated_path(g, path))
}

/// A header with its checksum.
pub open spec fn with_cksum(b: Seq<u8>) -> Seq<u8> {
    put(b, 148, octal_field(checksum(b), 8))
}

/// How many zero bytes follow `len` bytes of data.
pub open spec fn padding(len: nat) -> nat {
    ((512 - len % 512) % 512) as nat
}

/// Data that fills whole blocks.
pub open spec fn padded_data(data: Seq<u8>) -> Seq<u8> {
    data + zeros(padding(data.len()))
}

/// The header of an extension entry with `size` bytes of pax records.
pub open spec fn pax_header(size: u64) -> Seq<u8> {
    let b = with_metadata(
        with_path(new_ustar_bytes(), member_path(encode_utf8(PAX_HEADER_PATH@))),
        EntryMetadata { mode: None, uid: 0, gid: 0, mtime: 0 },
        DEFAULT_FILE_MODE,
    );
    with_cksum(
        put(
            put(b, 124, numeric_field(size as nat, 12)),
            156,
            seq![typeflag_of(EntryType::XHeader)],
        ),
    )
}

/// The extension entry of pax records.
pub open spec fn pax_entry(rs: Seq<PaxView>) -> Seq<u8> {
    if rs.len() == 0 {
        Seq::empty()
    } else {
        pax_header(pax_data(rs).len() as u64) + padded_data(pax_data(rs))
    }
}

/// What stands in front of the data of an entry.
pub open spec fn entry_head(g: GeneratedView) -> Seq<u8> {
    pax_entry(g.extensions) + with_cksum(g.header)
}

/// An entry and its data.
pub open spec fn entry_bytes(g: GeneratedView, data: Seq<u8>) -> Seq<u8> {
    entry_head(g) + padded_data(data)
}

/// The bytes of the texts that the writer puts in headers.
pub proof fn lemma_fixed_texts()
    ensures
        encode_utf8(PAX_PAYLOAD_PATH@) == seq![
            112u8,
            97u8,
            120u8,
            45u8,
            101u8,
            110u8,
            116u8,
            114u8,
            121u8,
        ],
        encode_utf8(PAX_HEADER_PATH@) == seq![
            80u8,
            97u8,
            120u8,
            72u8,
            101u8,
            97u8,
            100u8,
            101u8,
            114u8,
            115u8,
            47u8,
        ] + encode_utf8(PAX_PAYLOAD_PATH@),
        encode_utf8(PAX_HARD_LINK_FALLBACK@).len() == 13,
        encode_utf8(PAX_SYM_LINK_FALLBACK@).len() == 12,
        !encode_utf8(PAX_HARD_LINK_FALLBACK@).contains(0),
        !encode_utf8(PAX_SYM_LINK_FALLBACK@).contains(0),
{
    reveal_strlit("pax-entry");
    reveal_strlit("PaxHeaders/pax-entry");
    reveal_strlit("pax-hard-link");
    reveal_strlit("pax-sym-link");
    vstd::utf8::is_ascii_chars_encode_utf8("pax-entry"@);
    vstd::utf8::is_ascii_chars_encode_utf8("PaxHeaders/pax-entry"@);
    vstd::utf8::is_ascii_chars_encode_utf8("pax-hard-link"@);
    vstd::utf8::is_ascii_chars_encode_utf8("pax-sym-link"@);
    assert(encode_utf8("pax-entry"@) =~= seq![
        112u8,
        97u8,
        120u8,
        45u8,
        101u8,
        110u8,
        116u8,
        114u8,
        121u8,
    ]);
    assert(encode_utf8("PaxHeaders/pax-entry"@) =~= seq![
        80u8,
        97u8,
        120u8,
        72u8,
        101u8,
        97u8,
        100u8,
        101u8,
        114u8,
        115u8,
        47u8,
    ] + encode_utf8("pax-entry"@));
}

/// The paths that the writer puts in headers are stored as they are.
pub proof fn lemma_fixed_paths()
    ensures
        crate::path::member_path_refusal(encode_utf8(PAX_PAYLOAD_PATH@)) is None,
        member_path(encode_utf8(PAX_PAYLOAD_PATH@)) == encode_utf8(PAX_PAYLOAD_PATH@),
        crate::path::member_path_refusal(encode_utf8(PAX_HEADER_PATH@)) is None,
        member_path(encode_utf8(PAX_HEADER_PATH@)) == encode_utf8(PAX_HEADER_PATH@),
        encode_utf8(PAX_PAYLOAD_PATH@).len() == 9,
        encode_utf8(PAX_HEADER_PATH@).len() == 20,
        !encode_utf8(PAX_PAYLOAD_PATH@).contains(0),
        !encode_utf8(PAX_HEADER_PATH@).contains(0),
{
    lemma_fixed_texts();
    let payload = encode_utf8(PAX_PAYLOAD_PATH@);
    let directory = seq![80u8, 97u8, 120u8, 72u8, 101u8, 97u8, 100u8, 101u8, 114u8, 115u8];
    let one = seq![payload];
    let two = seq![directory, payload];
    assert(payload.len() != seq![46u8].len() && payload.len() != seq![46u8, 46u8].len());
    assert(directory.len() != seq![46u8].len() && directory.len() != seq![46u8, 46u8].len());
    assert(is_name(payload) && is_name(directory));
    assert forall|i: int| 0 <= i < one.len() implies is_name(#[trigger] one[i]) by {}
    assert forall|i: int| 0 <= i < two.len() implies is_name(#[trigger] two[i]) by {}
    lemma_joined_names_are_kept(one);
    lemma_joined_names_are_kept(two);
    assert(two.drop_last() =~= seq![directory]);
    assert(joined(two) == joined(two.drop_last()).push(47) + payload);
    assert(joined(seq![directory]) == directory);
    assert(joined(two) =~= encode_utf8(PAX_HEADER_PATH@));
}

fn copied(bytes: &[u8]) -> (copy: Vec<u8>)
    ensures
        copy@ == bytes@,
{
    let copy: Vec<u8> = copy_range(bytes, 0, bytes.len());
    assert(copy@ =~= bytes@);
    copy
}

fn push_record(records: &mut Vec<PaxRecord>, key: &'static str, value: Vec<u8>)
    ensures
        record_views(final(records)@) == record_views(old(records)@).push(
            PaxView { key: encode_utf8(key@), value: value@ },
        ),
{
    records.push(PaxRecord { key, value });
    assert(record_views(records@) =~= record_views(old(records)@).push(
        PaxView { key: encode_utf8(key@), value: value@ },
    ));
}

/// Puts a path in an entry.
pub fn prepare_header_path(entry: &mut GeneratedEntry, path: &str)
    ensures
        final(entry)@ == generated_path(old(entry)@, path@),
{
    let done: bool = path.is_ascii() && entry.header.set_path(path.as_bytes()).is_ok();
    if !done {
        proof {
            lemma_fixed_paths();
        }
        let _ = entry.header.set_path(PAX_PAYLOAD_PATH.as_bytes());
        push_record(&mut entry.extensions, "path", copied(path.as_bytes()));
    }
    assert(entry@ =~= generated_path(old(entry)@, path@));
}

/// Puts a link target in an entry. `fallback` stands in the header where the
/// target does not.
pub fn prepare_header_link(entry: &mut GeneratedEntry, target: &str, fallback: &str)
    requires
        encode_utf8(fallback@).len() <= 100,
    ensures
        final(entry)@ == generated_link(old(entry)@, target@, fallback@),
{
    let mut none: Vec<u8> = Vec::new();
    append_zeros(&mut none, 100);
    assert(none@ =~= zeros(100));
    entry.header.put_bytes(157, none.as_slice());
    let done: bool = target.is_ascii() && entry.header.set_link_name(target.as_bytes()).is_ok();
    if !done {
        entry.header.put_bytes(157, fallback.as_bytes());
        push_record(&mut entry.extensions, "linkpath", copied(target.as_bytes()));
    }
    assert(entry@ =~= generated_link(old(entry)@, target@, fallback@));
}

/// Whether a numeric field is in binary form.
fn is_base256(f: &[u8]) -> (yes: bool)
    ensures
        yes == is_binary_field(f@),
{
    f.len() > 0 && f[0] >= 128
}

/// Moves the numbers that are not octal in the header to pax records.
pub fn prepare_header_numeric_fields(entry: &mut GeneratedEntry) -> (done: Result<(), Error>)
    ensures
        done is Ok,
        final(entry)@ == generated_numbers(old(entry)@),
{
    let ghost g = entry@;
    if is_base256(entry.header.part(124, 12)) {
        let n: u64 = match entry.header.entry_size() {
            Ok(n) => n,
            Err(e) => {
                return Err(e);
            },
        };
        push_record(&mut entry.extensions, "size", decimal_text(n as u128));
        entry.header.set_size(0);
    }
    let ghost g1 = entry@;
    assert(g1 =~= generated_number(g, "size"@, 124, 12));
    if is_base256(entry.header.part(108, 8)) {
        let n: u64 = match entry.header.uid() {
            Ok(n) => n,
            Err(e) => {
                return Err(e);
            },
        };
        push_record(&mut entry.extensions, "uid", decimal_text(n as u128));
        entry.header.set_uid(0);
    }
    let ghost g2 = entry@;
    assert(g2 =~= generated_number(g1, "uid"@, 108, 8));
    if is_base256(entry.header.part(116, 8)) {
        let n: u64 = match entry.header.gid() {
            Ok(n) => n,
            Err(e) => {
                return Err(e);
            },
        };
        push_record(&mut entry.extensions, "gid", decimal_text(n as u128));
        entry.header.set_gid(0);
    }
    let ghost g3 = entry@;
    assert(g3 =~= generated_number(g2, "gid"@, 116, 8));
    if is_base256(entry.header.part(136, 12)) {
        let n: u64 = match entry.header.mtime() {
            Ok(n) => n,
            Err(e) => {
                return Err(e);
            },
        };
        push_record(&mut entry.extensions, "mtime", decimal_text(n as u128));
        entry.header.set_mtime(0);
    }
    assert(entry@ =~= generated_number(g3, "mtime"@, 136, 12));
    Ok(())
}

/// Generates an entry.
pub fn generated_entry(
    path: &str,
    size: u64,
    entry_type: EntryType,
    metadata: EntryMetadata,
    default_mode: u32,
) -> (entry: Result<GeneratedEntry, Error>)
    ensures
        entry matches Ok(g) && g@ == generated(path@, size, entry_type, metadata, default_mode),
{
    let mut header = Header::new_ustar();
    metadata.apply(&mut header, default_mode);
    header.set_size(size);
    header.set_entry_type(entry_type);
    let mut entry = GeneratedEntry { header, extensions: Vec::new() };
    assert(entry@ =~= GeneratedView {
        header: generated_header(size, entry_type, metadata, default_mode),
        extensions: Seq::empty(),
    });
    prepare_header_path(&mut entry, path);
    match prepare_header_numeric_fields(&mut entry) {
        Ok(()) => Ok(entry),
        Err(e) => Err(e),
    }
}

/// How many zero bytes follow `len` bytes of data.
pub fn padding_of(len: u64) -> (n: u64)
    ensures
        n == padding(len as nat),
{
    (512 - len % 512) % 512
}

/// Appends the extension entry of pax records.
pub fn append_pax_extensions(dst: &mut Vec<u8>, extensions: &Vec<PaxRecord>)
    ensures
        final(dst)@ == old(dst)@ + pax_entry(record_views(extensions@)),
{
    let ghost rs = record_views(extensions@);
    if extensions.len() == 0 {
        assert(dst@ =~= old(dst)@ + pax_entry(rs));
        return ;
    }
    let mut data: Vec<u8> = Vec::new();
    let mut i: usize = 0;
    assert(rs.take(0) =~= Seq::<PaxView>::empty());
    while i < extensions.len()
        invariant
            i <= extensions@.len(),
            rs == record_views(extensions@),
            data@ == pax_data(rs.take(i as int)),
        decreases extensions@.len() - i,
    {
        assert(rs.take(i + 1).drop_last() =~= rs.take(i as int));
        assert(rs.take(i + 1).last() == extensions@[i as int]@);
        append_pax_record(&mut data, extensions[i].key, extensions[i].value.as_slice());
        i = i + 1;
    }
    assert(rs.take(rs.len() as int) =~= rs);
    proof {
        lemma_fixed_paths();
    }
    let mut header = Header::new_ustar();
    let _ = header.set_path(PAX_HEADER_PATH.as_bytes());
    EntryMetadata::new().apply(&mut header, DEFAULT_FILE_MODE);
    header.set_size(data.len() as u64);
    header.set_entry_type(EntryType::XHeader);
    header.set_cksum();
    append_bytes(dst, header.as_bytes().as_slice());
    append_bytes(dst, data.as_slice());
    append_zeros(dst, padding_of(data.len() as u64));
    assert(dst@ =~= old(dst)@ + pax_entry(rs));
}

impl GeneratedEntry {
    /// What stands in front of the data of this entry.
    pub fn head(&self) -> (bytes: Vec<u8>)
        ensures
            bytes@ == entry_head(self@),
    {
        let mut bytes: Vec<u8> = Vec::new();
        append_pax_extensions(&mut bytes, &self.extensions);
        let mut header: Header = self.header;
        header.set_cksum();
        append_bytes(&mut bytes, header.as_bytes().as_slice());
        assert(bytes@ =~= entry_head(self@));
        bytes
    }
}

} // verus!
