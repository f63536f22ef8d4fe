//! What an entry says of its member, in its header and in its pax records.

use crate::bytes::{field, lemma_field_put_other, lemma_field_put_same, lemma_sum_bound, put, zeros};
use crate::entry::{entry_link, entry_path, pax_value, EntryIo, EntryView};
use crate::entry_type::{typeflag_of, EntryType};
use crate::error::ErrorView;
use crate::generate::{lemma_fixed_paths, pax_header, with_cksum, GeneratedView, PAX_HEADER_PATH};
use crate::header::{
    checksum, header_cksum, header_gid, header_link, header_mode, header_mtime, header_path,
    header_size, header_type, header_uid, is_ustar, lemma_form_put, lemma_header_path_with_path,
    lemma_split_point, new_ustar_bytes, nul_version_magic, padded, path_refusal, split_point,
    ustar_magic, with_path,
};
use crate::member::{
    header_refusal, is_orphaned, is_pax_numeric, is_pax_numeric_byte, is_pax_type, plain_override,
    with_pax, with_record, with_records, with_sparse_record, OverrideView,
};
use crate::metadata::{with_metadata, DEFAULT_FILE_MODE, EntryMetadata};
use crate::number::{
    decimal, lemma_decimal, lemma_numeric_field, lemma_numeric_field_form, lemma_octal,
    lemma_octal_field, lemma_pow_values, numeric_field, octal, octal_field, octal_limit,
    parsed_decimal, parsed_numeric, parsed_octal,
};
use crate::options::ArchiveOptions;
use crate::path::member_path;
use crate::pax::{has_key, is_writable, last_value, law_records_are_read_back, pax_data, PaxView};
use vstd::prelude::*;
use vstd::utf8::{encode_utf8, valid_utf8};

verus! {

/// The bytes of the keys of pax records.
pub proof fn lemma_keys()
    ensures
        encode_utf8("path"@) == seq![112u8, 97u8, 116u8, 104u8],
        encode_utf8("size"@) == seq![115u8, 105u8, 122u8, 101u8],
        encode_utf8("uid"@) == seq![117u8, 105u8, 100u8],
        encode_utf8("gid"@) == seq![103u8, 105u8, 100u8],
        encode_utf8("mtime"@) == seq![109u8, 116u8, 105u8, 109u8, 101u8],
        encode_utf8("linkpath"@) == seq![108u8, 105u8, 110u8, 107u8, 112u8, 97u8, 116u8, 104u8],
        encode_utf8("uname"@) == seq![117u8, 110u8, 97u8, 109u8, 101u8],
        encode_utf8("gname"@) == seq![103u8, 110u8, 97u8, 109u8, 101u8],
        encode_utf8("GNU.sparse."@).len() > 0 && encode_utf8("GNU.sparse."@)[0] == 71,
        encode_utf8("GNU.sparse.map"@).len() > 0 && encode_utf8("GNU.sparse.map"@)[0] == 71,
        encode_utf8("GNU.sparse.size"@).len() > 0 && encode_utf8("GNU.sparse.size"@)[0] == 71,
        encode_utf8("GNU.sparse.major"@).len() > 0 && encode_utf8("GNU.sparse.major"@)[0] == 71,
        encode_utf8("GNU.sparse.minor"@).len() > 0 && encode_utf8("GNU.sparse.minor"@)[0] == 71,
{
    reveal_strlit("path");
    vstd::utf8::is_ascii_chars_encode_utf8("path"@);
    reveal_strlit("size");
    vstd::utf8::is_ascii_chars_encode_utf8("size"@);
    reveal_strlit("uid");
    vstd::utf8::is_ascii_chars_encode_utf8("uid"@);
    reveal_strlit("gid");
    vstd::utf8::is_ascii_chars_encode_utf8("gid"@);
    reveal_strlit("mtime");
    vstd::utf8::is_ascii_chars_encode_utf8("mtime"@);
    reveal_strlit("linkpath");
    vstd::utf8::is_ascii_chars_encode_utf8("linkpath"@);
    reveal_strlit("uname");
    vstd::utf8::is_ascii_chars_encode_utf8("uname"@);
    reveal_strlit("gname");
    vstd::utf8::is_ascii_chars_encode_utf8("gname"@);
    reveal_strlit("GNU.sparse.");
    vstd::utf8::is_ascii_chars_encode_utf8("GNU.sparse."@);
    reveal_strlit("GNU.sparse.map");
    vstd::utf8::is_ascii_chars_encode_utf8("GNU.sparse.map"@);
    reveal_strlit("GNU.sparse.size");
    vstd::utf8::is_ascii_chars_encode_utf8("GNU.sparse.size"@);
    reveal_strlit("GNU.sparse.major");
    vstd::utf8::is_ascii_chars_encode_utf8("GNU.sparse.major"@);
    reveal_strlit("GNU.sparse.minor");
    vstd::utf8::is_ascii_chars_encode_utf8("GNU.sparse.minor"@);
    assert(encode_utf8("path"@) =~= seq![112u8, 97u8, 116u8, 104u8]);
    assert(encode_utf8("size"@) =~= seq![115u8, 105u8, 122u8, 101u8]);
    assert(encode_utf8("uid"@) =~= seq![117u8, 105u8, 100u8]);
    assert(encode_utf8("gid"@) =~= seq![103u8, 105u8, 100u8]);
    assert(encode_utf8("mtime"@) =~= seq![109u8, 116u8, 105u8, 109u8, 101u8]);
    assert(encode_utf8("linkpath"@) =~= seq![108u8, 105u8, 110u8, 107u8, 112u8, 97u8, 116u8, 104u8]);
    assert(encode_utf8("uname"@) =~= seq![117u8, 110u8, 97u8, 109u8, 101u8]);
    assert(encode_utf8("gname"@) =~= seq![103u8, 110u8, 97u8, 109u8, 101u8]);
}

/// What an entry says of its member. Each part of it is in the header or in a
/// pax record.
#[verifier::ext_equal]
pub struct EntryFacts {
    pub path: Seq<u8>,
    pub kind: EntryType,
    pub size: u64,
    pub uid: u64,
    pub gid: u64,
    pub mtime: u64,
    pub mode: u32,
    pub link: Option<Seq<u8>>,
}

/// Whether a pax record says what is so of a member.
pub open spec fn is_record_of(f: EntryFacts, r: PaxView) -> bool {
    ||| r.key == encode_utf8("path"@) && r.value == f.path
    ||| r.key == encode_utf8("size"@) && r.value == decimal(f.size as nat)
    ||| r.key == encode_utf8("uid"@) && r.value == decimal(f.uid as nat)
    ||| r.key == encode_utf8("gid"@) && r.value == decimal(f.gid as nat)
    ||| r.key == encode_utf8("mtime"@) && r.value == decimal(f.mtime as nat)
    ||| r.key == encode_utf8("linkpath"@) && f.link == Some(r.value)
}

/// Whether a path or a link target can stand in a pax record.
pub open spec fn is_plain_text(t: Seq<u8>) -> bool {
    t.len() > 0 && valid_utf8(t)
}

/// Whether the parts of what an entry says can be told from each other.
pub open spec fn facts_wf(f: EntryFacts) -> bool {
    &&& is_plain_text(f.path)
    &&& f.link matches Some(t) ==> is_plain_text(t)
    &&& is_pax_type(f.kind) && !(f.kind is XHeader)
}

/// Whether an entry says of its member what is so: its header has every part
/// for which there is no pax record.
pub open spec fn is_entry_of(g: GeneratedView, f: EntryFacts) -> bool {
    let h = g.header;
    let rs = g.extensions;
    &&& h.len() == 512
    &&& is_ustar(h)
    &&& header_type(h) == f.kind
    &&& is_pax_numeric(h, 100, 148)
    &&& is_pax_numeric(h, 329, 345)
    &&& forall|i: int| 0 <= i < rs.len() ==> is_record_of(f, #[trigger] rs[i])
    &&& has_key(rs, encode_utf8("path"@)) || header_path(h) == f.path
    &&& parsed_numeric(field(h, 124, 12)) is Some
    &&& has_key(rs, encode_utf8("size"@)) || parsed_numeric(field(h, 124, 12)) == Some(f.size)
    &&& has_key(rs, encode_utf8("uid"@)) || parsed_numeric(field(h, 108, 8)) == Some(f.uid)
    &&& has_key(rs, encode_utf8("gid"@)) || parsed_numeric(field(h, 116, 8)) == Some(f.gid)
    &&& if f.mtime < octal_limit(12) {
        parsed_numeric(field(h, 136, 12)) == Some(f.mtime)
    } else {
        has_key(rs, encode_utf8("mtime"@))
    }
    &&& parsed_octal(field(h, 100, 8)) == Some(f.mode as u64)
    &&& match f.link {
        Some(t) => has_key(rs, encode_utf8("linkpath"@)) || header_link(h) == Some(t),
        None => header_link(h) is None,
    }
}

/// Whether a member that was read is what an entry says. Its time is in the
/// header below 2^33, which is what octal digits hold there, else in a pax record.
pub open spec fn is_member_of(e: EntryView, f: EntryFacts) -> bool {
    &&& entry_path(e) == Ok::<Seq<u8>, ErrorView>(f.path)
    &&& entry_link(e) == Ok::<Option<Seq<u8>>, ErrorView>(f.link)
    &&& header_type(e.header) == f.kind
    &&& e.size == f.size
    &&& e.data == seq![EntryIo::Data(f.size)]
    &&& header_uid(e.header) == Ok::<u64, ErrorView>(f.uid)
    &&& header_gid(e.header) == Ok::<u64, ErrorView>(f.gid)
    &&& header_mode(e.header) == Ok::<u32, ErrorView>(f.mode)
    &&& if f.mtime < octal_limit(12) {
        header_mtime(e.header) == Ok::<u64, ErrorView>(f.mtime)
    } else {
        pax_value(e.pax_extensions, encode_utf8("mtime"@)) == Ok::<Option<Seq<u8>>, ErrorView>(
            Some(decimal(f.mtime as nat)),
        )
    }
}

proof fn lemma_ascii_valid(s: Seq<u8>)
    requires
        forall|i: int| 0 <= i < s.len() ==> #[trigger] s[i] < 128,
    ensures
        valid_utf8(s),
    decreases s.len(),
{
    if s.len() > 0 {
        let b = s[0];
        assert(b < 128);
        assert(b < 128 ==> b & 0x7f == b) by (bit_vector);
        let rest = vstd::utf8::pop_first_scalar(s);
        assert(rest =~= s.skip(1));
        lemma_ascii_valid(s.skip(1));
    }
}

proof fn lemma_decimal_text(n: nat)
    ensures
        valid_utf8(decimal(n)),
        decimal(n).len() > 0,
        n <= u64::MAX ==> parsed_decimal(decimal(n)) == Some(n as u64),
{
    lemma_decimal(n);
    assert forall|i: int| 0 <= i < decimal(n).len() implies #[trigger] decimal(n)[i] < 128 by {
        assert(48 <= decimal(n)[i] <= 57);
    }
    lemma_ascii_valid(decimal(n));
}

/// A member after a pax record that says what is so of it.
pub open spec fn told(v: OverrideView, f: EntryFacts, r: PaxView) -> OverrideView {
    if r.key == encode_utf8("size"@) {
        OverrideView { size: f.size, ..v }
    } else if r.key == encode_utf8("uid"@) {
        OverrideView { header: put(v.header, 108, numeric_field(f.uid as nat, 8)), ..v }
    } else if r.key == encode_utf8("gid"@) {
        OverrideView { header: put(v.header, 116, numeric_field(f.gid as nat, 8)), ..v }
    } else {
        v
    }
}

#[verifier::spinoff_prover]
#[verifier::rlimit(40)]
pub proof fn lemma_one_record(v: OverrideView, f: EntryFacts, r: PaxView)
    requires
        facts_wf(f),
        is_record_of(f, r),
    ensures
        with_record(v, r, true) == Ok::<OverrideView, ErrorView>(told(v, f, r)),
        r.value.len() > 0,
        !r.key.contains(61),
{
    lemma_keys();
    lemma_decimal_text(f.size as nat);
    lemma_decimal_text(f.uid as nat);
    lemma_decimal_text(f.gid as nat);
    lemma_decimal_text(f.mtime as nat);
    lemma_ascii_valid(r.key);
    assert(!encode_utf8("GNU.sparse."@).is_prefix_of(r.key)) by {
        let g = encode_utf8("GNU.sparse."@);
        if g.is_prefix_of(r.key) {
            assert(g[0] == r.key.subrange(0, g.len() as int)[0]);
        }
    }
    assert(r.key[0] != 71);
    if r.key != encode_utf8("size"@) && r.key != encode_utf8("uid"@) && r.key != encode_utf8(
        "gid"@,
    ) {
        assert(r.key != encode_utf8("uname"@) && r.key != encode_utf8("gname"@));
        assert(with_sparse_record(v, r) =~= v);
    }
}

pub proof fn lemma_has_key(rs: Seq<PaxView>, key: Seq<u8>)
    requires
        rs.len() > 0,
    ensures
        has_key(rs, key) == (has_key(rs.drop_last(), key) || rs.last().key == key),
{
    let init = rs.drop_last();
    if has_key(rs, key) {
        let i = choose|i: int| 0 <= i < rs.len() && (#[trigger] rs[i]).key == key;
        if i < init.len() {
            assert(init[i].key == key);
        }
    }
    if has_key(init, key) {
        let i = choose|i: int| 0 <= i < init.len() && (#[trigger] init[i]).key == key;
        assert(rs[i].key == key);
    }
    if rs.last().key == key {
        assert(rs[rs.len() - 1].key == key);
    }
}

/// Where all records with a key have the same value, that is the last one.
proof fn lemma_last_value(rs: Seq<PaxView>, key: Seq<u8>, value: Seq<u8>)
    requires
        forall|i: int| 0 <= i < rs.len() && (#[trigger] rs[i]).key == key ==> rs[i].value == value,
    ensures
        last_value(rs, key) == (if has_key(rs, key) {
            Some(value)
        } else {
            None
        }),
    decreases rs.len(),
{
    if rs.len() > 0 {
        let init = rs.drop_last();
        assert forall|i: int| 0 <= i < init.len() && (#[trigger] init[i]).key == key implies init[i].value
            == value by {
            assert(rs[i] == init[i]);
        }
        lemma_last_value(init, key, value);
        lemma_has_key(rs, key);
        assert(rs[rs.len() - 1] == rs.last());
    }
}

/// Whether `b` has the bytes of `h` but for the owner's numbers.
pub open spec fn same_but_owner(b: Seq<u8>, h: Seq<u8>) -> bool {
    &&& b.len() == 512
    &&& h.len() == 512
    &&& forall|i: int| 0 <= i < 108 || 124 <= i < 512 ==> #[trigger] b[i] == h[i]
}

proof fn lemma_records(v0: OverrideView, f: EntryFacts, rs: Seq<PaxView>)
    requires
        facts_wf(f),
        v0.header.len() == 512,
        forall|i: int| 0 <= i < rs.len() ==> is_record_of(f, #[trigger] rs[i]),
    ensures
        with_records(v0, rs, true) matches Ok(v) && {
            &&& v == (OverrideView { size: v.size, header: v.header, ..v0 })
            &&& v.size == (if has_key(rs, encode_utf8("size"@)) {
                f.size
            } else {
                v0.size
            })
            &&& same_but_owner(v.header, v0.header)
            &&& field(v.header, 108, 8) == (if has_key(rs, encode_utf8("uid"@)) {
                numeric_field(f.uid as nat, 8)
            } else {
                field(v0.header, 108, 8)
            })
            &&& field(v.header, 116, 8) == (if has_key(rs, encode_utf8("gid"@)) {
                numeric_field(f.gid as nat, 8)
            } else {
                field(v0.header, 116, 8)
            })
        },
    decreases rs.len(),
{
    if rs.len() > 0 {
        let init = rs.drop_last();
        let r = rs.last();
        assert forall|i: int| 0 <= i < init.len() implies is_record_of(f, #[trigger] init[i]) by {
            assert(init[i] == rs[i]);
        }
        lemma_records(v0, f, init);
        assert(is_record_of(f, rs[rs.len() - 1]));
        let v = with_records(v0, init, true)->Ok_0;
        lemma_one_record(v, f, r);
        lemma_has_key(rs, encode_utf8("size"@));
        lemma_has_key(rs, encode_utf8("uid"@));
        lemma_has_key(rs, encode_utf8("gid"@));
        lemma_keys();
        lemma_numeric_field_form(f.uid as nat, 8);
        lemma_numeric_field_form(f.gid as nat, 8);
        broadcast use {lemma_field_put_same, lemma_field_put_other};

        assert(with_records(v0, rs, true) == Ok::<OverrideView, ErrorView>(told(v, f, r)));
    }
}

/// A header with its checksum has the bytes of the header but for that.
pub proof fn lemma_with_cksum(h: Seq<u8>)
    requires
        h.len() == 512,
    ensures
        ({
            let b = with_cksum(h);
            &&& b.len() == 512
            &&& forall|i: int| 0 <= i < 148 || 156 <= i < 512 ==> #[trigger] b[i] == h[i]
            &&& header_cksum(b) == Ok::<u32, ErrorView>(checksum(h) as u32)
            &&& checksum(b) == checksum(h)
            &&& checksum(h) <= u32::MAX
        }),
{
    broadcast use lemma_field_put_same;

    let b = with_cksum(h);
    let c = checksum(h);
    assert(b.take(148) =~= h.take(148)) by {
        lemma_octal(c, 7);
    }
    assert(b.skip(156) =~= h.skip(156)) by {
        lemma_octal(c, 7);
    }
    lemma_sum_bound(h.take(148));
    lemma_sum_bound(h.skip(156));
    lemma_pow_values();
    lemma_octal_field(c, 8);
}

/// A header with its checksum is accepted.
pub proof fn lemma_accepted(o: ArchiveOptions, h: Seq<u8>)
    requires
        h.len() == 512,
        is_ustar(h),
        o.pax_only ==> is_pax_type(header_type(h)) && is_pax_numeric(h, 100, 148)
            && is_pax_numeric(h, 329, 345),
    ensures
        header_refusal(o, with_cksum(h)) is None,
        with_cksum(h) != zeros(512),
        is_ustar(with_cksum(h)),
        header_type(with_cksum(h)) == header_type(h),
{
    let b = with_cksum(h);
    lemma_with_cksum(h);
    assert(field(b, 257, 8) =~= field(h, 257, 8));
    assert(ustar_magic()[6] == 48 && nul_version_magic()[6] == 0);
    assert(field(b, 257, 8)[0] == b[257]);
    assert(ustar_magic()[0] == 117);
    assert(zeros(512)[257] == 0);
}

/// Whether every byte may stand in a numeric field of a strict pax archive.
pub open spec fn all_pax_numeric(s: Seq<u8>) -> bool {
    forall|i: int| 0 <= i < s.len() ==> is_pax_numeric_byte(#[trigger] s[i])
}

pub proof fn lemma_octal_is_pax_numeric(n: nat, len: nat)
    requires
        len > 0,
    ensures
        all_pax_numeric(octal_field(n, len)),
{
    lemma_octal(n, (len - 1) as nat);
    let digits = octal(n, (len - 1) as nat);
    let f = octal_field(n, len);
    assert forall|i: int| 0 <= i < f.len() implies is_pax_numeric_byte(#[trigger] f[i]) by {
        if i < digits.len() {
            assert(f[i] == digits[i]);
            assert(48 <= digits[i] <= 55);
        }
    }
}

/// The numeric fields of a header, one behind the other.
pub proof fn lemma_pax_numeric_fields(h: Seq<u8>)
    requires
        h.len() == 512,
        all_pax_numeric(field(h, 100, 8)),
        all_pax_numeric(field(h, 108, 8)),
        all_pax_numeric(field(h, 116, 8)),
        all_pax_numeric(field(h, 124, 12)),
        all_pax_numeric(field(h, 136, 12)),
    ensures
        is_pax_numeric(h, 100, 148),
{
    assert forall|i: int| 100 <= i < 148 implies is_pax_numeric_byte(#[trigger] h[i]) by {
        if i < 108 {
            assert(field(h, 100, 8)[i - 100] == h[i]);
        } else if i < 116 {
            assert(field(h, 108, 8)[i - 108] == h[i]);
        } else if i < 124 {
            assert(field(h, 116, 8)[i - 116] == h[i]);
        } else if i < 136 {
            assert(field(h, 124, 12)[i - 124] == h[i]);
        } else {
            assert(field(h, 136, 12)[i - 136] == h[i]);
        }
    }
}

/// A header keeps what stands between its name and its prefix when a path is
/// put in it.
pub proof fn lemma_with_path_keeps(b: Seq<u8>, p: Seq<u8>)
    requires
        b.len() == 512,
        is_ustar(b),
        path_refusal(b, p) is None,
    ensures
        with_path(b, member_path(p)).len() == 512,
        forall|i: int| 100 <= i < 345 ==> #[trigger] with_path(b, member_path(p))[i] == b[i],
        is_ustar(with_path(b, member_path(p))),
        header_path(with_path(b, member_path(p))) == member_path(p),
{
    lemma_header_path_with_path(b, p);
    let t = member_path(p);
    if t.len() <= 100 {
        assert(padded(t, 100).len() == 100);
    } else {
        let k = split_point(t);
        lemma_split_point(t);
        assert(padded(t.take(k), 155).len() == 155);
        assert(padded(t.skip(k + 1), 100).len() == 100);
    }
}

/// The header of an extension entry before its checksum.
pub open spec fn pax_header_plain(size: u64) -> Seq<u8> {
    let b = with_metadata(
        with_path(new_ustar_bytes(), member_path(encode_utf8(PAX_HEADER_PATH@))),
        EntryMetadata { mode: None, uid: 0, gid: 0, mtime: 0 },
        DEFAULT_FILE_MODE,
    );
    put(
        put(b, 124, numeric_field(size as nat, 12)),
        156,
        seq![typeflag_of(EntryType::XHeader)],
    )
}

/// A new USTAR header.
pub proof fn lemma_new_ustar()
    ensures
        new_ustar_bytes().len() == 512,
        is_ustar(new_ustar_bytes()),
        forall|i: int| 329 <= i < 345 || 156 <= i < 257 ==> #[trigger] new_ustar_bytes()[i] == 0,
{
    let b = zeros(512);
    lemma_field_put_same(b, 257, ustar_magic());
    lemma_numeric_field_form(0, 12);
    lemma_form_put(put(b, 257, ustar_magic()), 136, numeric_field(0, 12));
}

/// A header with metadata: its fields, and what it keeps.
pub proof fn lemma_with_metadata(b: Seq<u8>, m: EntryMetadata, default_mode: u32)
    requires
        b.len() == 512,
    ensures
        ({
            let w = with_metadata(b, m, default_mode);
            let mode = match m.mode {
                Some(mode) => mode,
                None => default_mode,
            };
            &&& w.len() == 512
            &&& field(w, 100, 8) == octal_field(mode as nat, 8)
            &&& field(w, 108, 8) == numeric_field(m.uid as nat, 8)
            &&& field(w, 116, 8) == numeric_field(m.gid as nat, 8)
            &&& field(w, 136, 12) == numeric_field(m.mtime as nat, 12)
            &&& is_ustar(w) == is_ustar(b)
            &&& forall|i: int| 0 <= i < 100 || 148 <= i < 512 ==> #[trigger] w[i] == b[i]
        }),
{
    broadcast use {lemma_field_put_same, lemma_field_put_other, lemma_form_put};

    let mode = match m.mode {
        Some(mode) => mode,
        None => default_mode,
    };
    lemma_octal(mode as nat, 7);
    lemma_numeric_field_form(m.uid as nat, 8);
    lemma_numeric_field_form(m.gid as nat, 8);
    lemma_numeric_field_form(m.mtime as nat, 12);
    let b1 = put(b, 100, octal_field(mode as nat, 8));
    let b2 = put(b1, 108, numeric_field(m.uid as nat, 8));
    let b3 = put(b2, 116, numeric_field(m.gid as nat, 8));
    assert(field(b1, 100, 8) == octal_field(mode as nat, 8));
    assert(field(b2, 108, 8) == numeric_field(m.uid as nat, 8));
    assert(field(b3, 116, 8) == numeric_field(m.gid as nat, 8));
}

/// What the header of an extension entry says.
pub proof fn lemma_pax_header(o: ArchiveOptions, size: u64)
    requires
        o.pax_only ==> size < 0x2_0000_0000,
    ensures
        pax_header(size).len() == 512,
        header_refusal(o, pax_header(size)) is None,
        pax_header(size) != zeros(512),
        is_ustar(pax_header(size)),
        header_type(pax_header(size)) is XHeader,
        header_size(pax_header(size)) == Ok::<u64, ErrorView>(size),
{
    broadcast use {lemma_field_put_same, lemma_field_put_other, lemma_form_put};

    let h = pax_header_plain(size);
    let p = encode_utf8(PAX_HEADER_PATH@);
    let none = EntryMetadata { mode: None, uid: 0, gid: 0, mtime: 0 };
    let b0 = new_ustar_bytes();
    let b1 = with_path(b0, member_path(p));
    let b2 = with_metadata(b1, none, DEFAULT_FILE_MODE);
    let b3 = put(b2, 124, numeric_field(size as nat, 12));
    lemma_new_ustar();
    lemma_fixed_paths();
    lemma_with_path_keeps(b0, p);
    lemma_with_metadata(b1, none, DEFAULT_FILE_MODE);
    lemma_numeric_field_form(size as nat, 12);
    lemma_numeric_field(size as nat, 12);
    assert(h == put(b3, 156, seq![typeflag_of(EntryType::XHeader)]));
    assert(h.len() == 512);
    assert(is_ustar(b3));
    assert(is_ustar(h));
    assert(field(b3, 124, 12) == numeric_field(size as nat, 12));
    assert(field(h, 124, 12) == numeric_field(size as nat, 12));
    assert(h[156] == 120);
    if o.pax_only {
        lemma_octal_is_pax_numeric(DEFAULT_FILE_MODE as nat, 8);
        lemma_octal_is_pax_numeric(0, 8);
        lemma_octal_is_pax_numeric(0, 12);
        lemma_octal_is_pax_numeric(size as nat, 12);
        assert(field(h, 100, 8) == field(b2, 100, 8));
        assert(field(h, 108, 8) == field(b2, 108, 8));
        assert(field(h, 116, 8) == field(b2, 116, 8));
        assert(field(h, 136, 12) == field(b2, 136, 12));
        lemma_pax_numeric_fields(h);
        assert forall|i: int| 329 <= i < 345 implies is_pax_numeric_byte(#[trigger] h[i]) by {
            assert(h[i] == b1[i] && b1[i] == b0[i]);
        }
    }
    lemma_accepted(o, h);
    lemma_with_cksum(h);
    let b = with_cksum(h);
    assert(field(b, 124, 12) =~= field(h, 124, 12));
}

/// The records of an entry, as they are in an archive: none where there are no
/// records.
pub open spec fn stored_records(rs: Seq<PaxView>) -> Option<Seq<u8>> {
    if rs.len() == 0 {
        None
    } else {
        Some(pax_data(rs))
    }
}

/// What a stream makes of the header and the records of an entry.
pub open spec fn override_of(g: GeneratedView, size: u64) -> OverrideView {
    with_records(plain_override(with_cksum(g.header), size), g.extensions, true)->Ok_0
}

pub proof fn lemma_records_are_taken(g: GeneratedView, f: EntryFacts, size: u64)
    requires
        facts_wf(f),
        is_entry_of(g, f),
        forall|i: int| 0 <= i < g.extensions.len() ==> is_writable(#[trigger] g.extensions[i]),
        parsed_numeric(field(g.header, 124, 12)) == Some(size),
    ensures
        ({
            let b = with_cksum(g.header);
            let v = override_of(g, size);
            &&& stored_records(g.extensions) matches Some(d) ==> with_pax(
                plain_override(b, size),
                d,
                true,
            ) == Ok::<OverrideView, ErrorView>(v)
            &&& stored_records(g.extensions) is None ==> v == plain_override(b, size)
            &&& !is_orphaned(v)
            &&& v.size == f.size
            &&& v.username is None
            &&& v.groupname is None
        }),
{
    let b = with_cksum(g.header);
    lemma_with_cksum(g.header);
    lemma_records(plain_override(b, size), f, g.extensions);
    law_records_are_read_back(g.extensions);
}

/// The header of a member that a stream makes of an entry.
pub proof fn lemma_header_is_told(g: GeneratedView, f: EntryFacts, size: u64)
    requires
        facts_wf(f),
        is_entry_of(g, f),
        f.uid < 0x8000_0000_0000_0000,
        f.gid < 0x8000_0000_0000_0000,
    ensures
        ({
            let w = override_of(g, size).header;
            &&& w.len() == 512
            &&& header_path(w) == header_path(g.header)
            &&& header_link(w) == header_link(g.header)
            &&& header_type(w) == f.kind
            &&& is_ustar(w)
            &&& parsed_numeric(field(w, 108, 8)) == Some(f.uid)
            &&& parsed_numeric(field(w, 116, 8)) == Some(f.gid)
            &&& field(w, 100, 8) == field(g.header, 100, 8)
            &&& field(w, 136, 12) == field(g.header, 136, 12)
        }),
{
    let h = g.header;
    let b = with_cksum(h);
    let rs = g.extensions;
    let w = override_of(g, size).header;
    lemma_with_cksum(h);
    lemma_records(plain_override(b, size), f, rs);
    assert(field(w, 0, 100) =~= field(h, 0, 100));
    assert(field(w, 345, 155) =~= field(h, 345, 155));
    assert(field(w, 257, 8) =~= field(h, 257, 8));
    assert(field(w, 157, 100) =~= field(h, 157, 100));
    assert(field(w, 100, 8) =~= field(h, 100, 8));
    assert(field(w, 136, 12) =~= field(h, 136, 12));
    assert(field(b, 108, 8) =~= field(h, 108, 8));
    assert(field(b, 116, 8) =~= field(h, 116, 8));
    lemma_numeric_field(f.uid as nat, 8);
    lemma_numeric_field(f.gid as nat, 8);
}

/// What the records of an entry say.
proof fn lemma_records_say(f: EntryFacts, rs: Seq<PaxView>)
    requires
        forall|i: int| 0 <= i < rs.len() ==> is_record_of(f, #[trigger] rs[i]),
    ensures
        has_key(rs, encode_utf8("path"@)) ==> last_value(rs, encode_utf8("path"@)) == Some(f.path),
        !has_key(rs, encode_utf8("path"@)) ==> last_value(rs, encode_utf8("path"@)) is None,
        has_key(rs, encode_utf8("mtime"@)) ==> last_value(rs, encode_utf8("mtime"@)) == Some(
            decimal(f.mtime as nat),
        ),
        has_key(rs, encode_utf8("linkpath"@)) ==> last_value(rs, encode_utf8("linkpath"@))
            == f.link && f.link is Some,
        !has_key(rs, encode_utf8("linkpath"@)) ==> last_value(
            rs,
            encode_utf8("linkpath"@),
        ) is None,
{
    lemma_keys();
    let path = encode_utf8("path"@);
    let mtime = encode_utf8("mtime"@);
    let linkpath = encode_utf8("linkpath"@);
    assert forall|i: int| 0 <= i < rs.len() && (#[trigger] rs[i]).key == path implies rs[i].value
        == f.path by {
        assert(is_record_of(f, rs[i]));
    }
    lemma_last_value(rs, path, f.path);
    assert forall|i: int| 0 <= i < rs.len() && (#[trigger] rs[i]).key == mtime implies rs[i].value
        == decimal(f.mtime as nat) by {
        assert(is_record_of(f, rs[i]));
    }
    lemma_last_value(rs, mtime, decimal(f.mtime as nat));
    let target = match f.link {
        Some(t) => t,
        None => Seq::empty(),
    };
    assert forall|i: int| 0 <= i < rs.len() && (#[trigger] rs[i]).key == linkpath implies rs[i].value
        == target && f.link is Some by {
        assert(is_record_of(f, rs[i]));
    }
    lemma_last_value(rs, linkpath, target);
}

/// The member that a stream makes of an entry says what the entry says.
pub proof fn lemma_member_is_told(g: GeneratedView, f: EntryFacts, size: u64, m: EntryView)
    requires
        facts_wf(f),
        is_entry_of(g, f),
        forall|i: int| 0 <= i < g.extensions.len() ==> is_writable(#[trigger] g.extensions[i]),
        f.uid < 0x8000_0000_0000_0000,
        f.gid < 0x8000_0000_0000_0000,
        m.size == f.size,
        m.data == seq![EntryIo::Data(f.size)],
        m.header == override_of(g, size).header,
        m.long_pathname is None,
        m.long_linkname is None,
        m.pax_extensions == stored_records(g.extensions),
    ensures
        is_member_of(m, f),
{
    let rs = g.extensions;
    lemma_header_is_told(g, f, size);
    lemma_records_say(f, rs);
    law_records_are_read_back(rs);
}

} // verus!
