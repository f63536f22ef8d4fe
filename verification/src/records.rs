//! Pax records as bytes, and what they tell of a member.

use crate::bytes::{first_of, lemma_first_of, lemma_first_of_is, put};
use crate::entry::{entry_link, entry_path, EntryView};
use crate::error::{failure, ErrorView};
use crate::header::{header_gid, header_groupname, header_uid, header_username};
use crate::layout::{law_form_is_told_by_magic, number_in_base, says_gnu, says_ustar};
use crate::logical::lemma_ascii_key;
use crate::member::{is_orphaned, plain_override, with_pax, with_record, with_records, OverrideView};
use crate::number::{decimal, decimal_value, is_decimal, lemma_numeric_field, numeric_field, parsed_decimal};
use crate::pax::{
    has_key, key_and_value, last_value, pax_malformed, pax_records, record_body, record_len, PaxView,
};
use vstd::prelude::*;
use vstd::utf8::{encode_utf8, valid_utf8};

verus! {

/// Whether bytes are decimal digits, at least one.
pub open spec fn are_digits(s: Seq<u8>) -> bool {
    s.len() > 0 && forall|i: int| 0 <= i < s.len() ==> '0' as u8 <= #[trigger] s[i] <= '9' as u8
}

proof fn lemma_decimal_is_fold(s: Seq<u8>)
    ensures
        number_in_base(s, 10) == decimal_value(s),
    decreases s.len(),
{
    if s.len() > 0 {
        lemma_decimal_is_fold(s.drop_last());
    }
}

/// Text is read as a number if and only if it is decimal digits alone, at least
/// one of them, for a number of at most 64 bits; the number is the one that they
/// stand for.
pub proof fn law_decimal_is_read(s: Seq<u8>)
    ensures
        parsed_decimal(s) is Some <==> are_digits(s) && number_in_base(s, 10) <= u64::MAX,
        parsed_decimal(s) matches Some(n) ==> n == number_in_base(s, 10),
{
    lemma_decimal_is_fold(s);
    if are_digits(s) {
        assert(is_decimal(s)) by {
            assert forall|i: int| 0 <= i < s.len() implies 48 <= #[trigger] s[i] <= 57 by {
                assert('0' as u8 <= s[i] <= '9' as u8);
            }
        }
    }
}

/// Whether bytes start with a pax record: its length in decimal digits, a space,
/// a key, an equals sign, a value and a line feed. The length is that of all of
/// this, and the key has no equals sign.
pub open spec fn starts_with_record(
    d: Seq<u8>,
    digits: Seq<u8>,
    key: Seq<u8>,
    value: Seq<u8>,
    rest: Seq<u8>,
) -> bool {
    &&& are_digits(digits)
    &&& !key.contains('=' as u8)
    &&& number_in_base(digits, 10) == digits.len() + 1 + key.len() + 1 + value.len() + 1
    &&& number_in_base(digits, 10) <= u64::MAX
    &&& d == digits + seq![' ' as u8] + key + seq!['=' as u8] + value + seq![10u8] + rest
}

/// A record at the front of data is read, and the others behind it, whatever its
/// value holds.
pub proof fn law_record_is_parsed(
    d: Seq<u8>,
    digits: Seq<u8>,
    key: Seq<u8>,
    value: Seq<u8>,
    rest: Seq<u8>,
)
    requires
        starts_with_record(d, digits, key, value, rest),
    ensures
        pax_records(d) == seq![PaxView { key, value }] + pax_records(rest),
        pax_malformed(d) == pax_malformed(rest),
{
    let k = digits.len() as int;
    let n = number_in_base(digits, 10) as int;
    assert forall|j: int| 0 <= j < k implies d[j] != 32 by {
        assert('0' as u8 <= digits[j] <= '9' as u8);
    }
    lemma_first_of_is(d, 32, k);
    assert(d.take(k) =~= digits);
    law_decimal_is_read(digits);
    let body = key + seq!['=' as u8] + value;
    assert(record_body(d, n) =~= body);
    assert forall|j: int| 0 <= j < key.len() implies body[j] != 61 by {
        assert(key.contains(key[j]));
    }
    lemma_first_of_is(body, 61, key.len() as int);
    assert(d[n - 1] == 10);
    assert(record_len(d) == Some(n));
    assert(body.take(key.len() as int) =~= key);
    assert(body.skip(key.len() as int + 1) =~= value);
    assert(key_and_value(body) == PaxView { key, value });
    assert(d.skip(n) =~= rest);
}

/// Data that does not start with a record has none: it is malformed, unless it is
/// empty.
pub proof fn law_other_data_has_no_records(d: Seq<u8>)
    requires
        forall|digits: Seq<u8>, key: Seq<u8>, value: Seq<u8>, rest: Seq<u8>|
            !#[trigger] starts_with_record(d, digits, key, value, rest),
    ensures
        pax_records(d) == Seq::<PaxView>::empty(),
        pax_malformed(d) <==> d.len() > 0,
{
    if let Some(n) = record_len(d) {
        let k = first_of(d, 32);
        lemma_first_of(d, 32);
        let digits = d.take(k);
        law_decimal_is_read(digits);
        let body = record_body(d, n);
        lemma_first_of(body, 61);
        let m = first_of(body, 61);
        let key = body.take(m);
        let value = body.skip(m + 1);
        let rest = d.skip(n);
        if key.contains(61) {
            let j = choose|j: int| 0 <= j < key.len() && key[j] == 61;
            assert(body[j] == 61);
        }
        assert(d =~= digits + seq![' ' as u8] + key + seq!['=' as u8] + value + seq![10u8] + rest);
        assert(starts_with_record(d, digits, key, value, rest));
    }
}

/// The key `size`, letter by letter.
pub open spec fn size_key() -> Seq<u8> {
    seq!['s' as u8, 'i' as u8, 'z' as u8, 'e' as u8]
}

/// The key `uid`, letter by letter.
pub open spec fn uid_key() -> Seq<u8> {
    seq!['u' as u8, 'i' as u8, 'd' as u8]
}

/// The key `gid`, letter by letter.
pub open spec fn gid_key() -> Seq<u8> {
    seq!['g' as u8, 'i' as u8, 'd' as u8]
}

/// The key `uname`, letter by letter.
pub open spec fn uname_key() -> Seq<u8> {
    seq!['u' as u8, 'n' as u8, 'a' as u8, 'm' as u8, 'e' as u8]
}

/// The key `gname`, letter by letter.
pub open spec fn gname_key() -> Seq<u8> {
    seq!['g' as u8, 'n' as u8, 'a' as u8, 'm' as u8, 'e' as u8]
}

proof fn lemma_number_keys()
    ensures
        encode_utf8("size"@) == size_key(),
        encode_utf8("uid"@) == uid_key(),
        encode_utf8("gid"@) == gid_key(),
        encode_utf8("uname"@) == uname_key(),
        encode_utf8("gname"@) == gname_key(),
        valid_utf8(size_key()),
        valid_utf8(uid_key()),
        valid_utf8(gid_key()),
        valid_utf8(uname_key()),
        valid_utf8(gname_key()),
        size_key() != uid_key(),
        size_key() != gid_key(),
        size_key() != uname_key(),
        size_key() != gname_key(),
        uid_key() != gid_key(),
        uid_key() != uname_key(),
        uid_key() != gname_key(),
        gid_key() != uname_key(),
        gid_key() != gname_key(),
        uname_key() != gname_key(),
{
    reveal_strlit("size");
    reveal_strlit("uid");
    reveal_strlit("gid");
    reveal_strlit("uname");
    reveal_strlit("gname");
    lemma_ascii_key("size"@, size_key());
    lemma_ascii_key("uid"@, uid_key());
    lemma_ascii_key("gid"@, gid_key());
    lemma_ascii_key("uname"@, uname_key());
    lemma_ascii_key("gname"@, gname_key());
    vstd::utf8::encode_utf8_valid_utf8("size"@);
    vstd::utf8::encode_utf8_valid_utf8("uid"@);
    vstd::utf8::encode_utf8_valid_utf8("gid"@);
    vstd::utf8::encode_utf8_valid_utf8("uname"@);
    vstd::utf8::encode_utf8_valid_utf8("gname"@);
    assert(size_key().len() == 4 && uid_key().len() == 3 && gid_key().len() == 3
        && uname_key().len() == 5 && gname_key().len() == 5);
    assert(uid_key()[0] != gid_key()[0] && uname_key()[0] != gname_key()[0]);
}

/// Whether a record that must hold a number holds one.
pub open spec fn is_fit_record(r: PaxView, apply: bool) -> bool {
    r.key == size_key() || apply && (r.key == uid_key() || r.key == gid_key()) ==> parsed_decimal(
        r.value,
    ) is Some
}

proof fn lemma_digits_are_text(s: Seq<u8>)
    requires
        is_decimal(s),
    ensures
        valid_utf8(s),
{
    let t = Seq::new(s.len(), |i: int| s[i] as char);
    assert forall|i: int| 0 <= i < t.len() implies '\0' <= #[trigger] t[i] <= '\u{7f}' && t[i] as u8
        == s[i] by {
        assert(48 <= s[i] <= 57);
    }
    lemma_ascii_key(t, s);
    vstd::utf8::encode_utf8_valid_utf8(t);
}

proof fn lemma_fit_record(v: OverrideView, r: PaxView, apply: bool)
    ensures
        with_record(v, r, apply) is Ok <==> is_fit_record(r, apply),
{
    lemma_number_keys();
    if parsed_decimal(r.value) is Some {
        lemma_digits_are_text(r.value);
    }
}

/// Pax records are taken if and only if they are well formed and those for the
/// size, and for the owner's numbers where these are applied, hold numbers.
pub proof fn law_records_are_taken(v: OverrideView, d: Seq<u8>, apply: bool)
    ensures
        with_pax(v, d, apply) is Ok <==> !pax_malformed(d) && forall|i: int|
            0 <= i < pax_records(d).len() ==> is_fit_record(#[trigger] pax_records(d)[i], apply),
{
    lemma_fit_records(v, pax_records(d), apply);
}

proof fn lemma_fit_records(v: OverrideView, rs: Seq<PaxView>, apply: bool)
    ensures
        with_records(v, rs, apply) is Ok <==> forall|i: int|
            0 <= i < rs.len() ==> is_fit_record(#[trigger] rs[i], apply),
    decreases rs.len(),
{
    if rs.len() > 0 {
        let front = rs.drop_last();
        lemma_fit_records(v, front, apply);
        if forall|i: int| 0 <= i < front.len() ==> is_fit_record(#[trigger] front[i], apply) {
            lemma_fit_record(with_records(v, front, apply)->Ok_0, rs.last(), apply);
            if is_fit_record(rs.last(), apply) {
                assert forall|i: int| 0 <= i < rs.len() implies is_fit_record(
                    #[trigger] rs[i],
                    apply,
                ) by {
                    if i < front.len() {
                        assert(front[i] == rs[i]);
                    }
                }
            } else {
                assert(!is_fit_record(rs[rs.len() - 1], apply));
            }
        } else {
            let i = choose|i: int| 0 <= i < front.len() && !is_fit_record(
                #[trigger] front[i],
                apply,
            );
            assert(!is_fit_record(rs[i], apply));
        }
    }
}

/// What a member is after its pax records: its size is that of the last record
/// for it, and so are the owner's numbers and names where the records are applied;
/// where there is no such record, what was said before stands.
pub proof fn law_records_tell_of_member(v: OverrideView, rs: Seq<PaxView>, apply: bool)
    requires
        v.header.len() == 512,
        with_records(v, rs, apply) is Ok,
    ensures
        ({
            let w = with_records(v, rs, apply)->Ok_0;
            &&& w.header.len() == 512
            &&& w.size == (match last_value(rs, size_key()) {
                Some(value) => number_in_base(value, 10),
                None => v.size as nat,
            })
            &&& w.username == (match last_value(rs, uname_key()) {
                Some(value) => Some(value),
                None => v.username,
            })
            &&& w.groupname == (match last_value(rs, gname_key()) {
                Some(value) => Some(value),
                None => v.groupname,
            })
            &&& match last_value(rs, uid_key()) {
                Some(value) => apply && number_in_base(value, 10) < 0x8000_0000_0000_0000
                    ==> header_uid(w.header) == Ok::<u64, ErrorView>(
                    number_in_base(value, 10) as u64,
                ),
                None => w.header.subrange(108, 116) == v.header.subrange(108, 116),
            }
            &&& match last_value(rs, gid_key()) {
                Some(value) => apply && number_in_base(value, 10) < 0x8000_0000_0000_0000
                    ==> header_gid(w.header) == Ok::<u64, ErrorView>(
                    number_in_base(value, 10) as u64,
                ),
                None => w.header.subrange(116, 124) == v.header.subrange(116, 124),
            }
            &&& !apply ==> w.header.subrange(108, 124) == v.header.subrange(108, 124)
            &&& forall|i: int|
                0 <= i < 108 || 124 <= i < 265 || 329 <= i < 512 ==> #[trigger] w.header[i]
                    == v.header[i]
        }),
    decreases rs.len(),
{
    if rs.len() > 0 {
        let front = rs.drop_last();
        let r = rs.last();
        law_records_tell_of_member(v, front, apply);
        let u = with_records(v, front, apply)->Ok_0;
        let w = with_record(u, r, apply)->Ok_0;
        lemma_number_keys();
        lemma_fit_record(u, r, apply);
        law_decimal_is_read(r.value);
        if let Some(n) = parsed_decimal(r.value) {
            crate::number::lemma_numeric_field_form(n as nat, 8);
            if n < 0x8000_0000_0000_0000 {
                lemma_numeric_field(n as nat, 8);
            }
        }
        lemma_record_bytes(u, r, apply);
    }
}

proof fn lemma_record_bytes(u: OverrideView, r: PaxView, apply: bool)
    requires
        u.header.len() == 512,
        with_record(u, r, apply) is Ok,
    ensures
        ({
            let w = with_record(u, r, apply)->Ok_0;
            &&& w.header.len() == 512
            &&& forall|i: int|
                0 <= i < 108 || 124 <= i < 265 || 329 <= i < 512 ==> #[trigger] w.header[i]
                    == u.header[i]
            &&& !(apply && r.key == uid_key()) ==> w.header.subrange(108, 116)
                == u.header.subrange(108, 116)
            &&& !(apply && r.key == gid_key()) ==> w.header.subrange(116, 124)
                == u.header.subrange(116, 124)
            &&& !apply ==> w.header.subrange(108, 124) == u.header.subrange(108, 124)
            &&& apply && r.key == uid_key() ==> w.header.subrange(108, 116) == numeric_field(
                parsed_decimal(r.value)->0 as nat,
                8,
            )
            &&& apply && r.key == gid_key() ==> w.header.subrange(116, 124) == numeric_field(
                parsed_decimal(r.value)->0 as nat,
                8,
            )
        }),
{
    lemma_number_keys();
    lemma_fit_record(u, r, apply);
    let w = with_record(u, r, apply)->Ok_0;
    if let Some(n) = parsed_decimal(r.value) {
        crate::number::lemma_numeric_field_form(n as nat, 8);
    }
    assert forall|i: int| 0 <= i < 108 || 124 <= i < 265 || 329 <= i < 512 implies #[trigger] w.header[i]
        == u.header[i] by {}
    if !(apply && r.key == uid_key()) {
        assert(w.header.subrange(108, 116) =~= u.header.subrange(108, 116));
    } else {
        assert(w.header.subrange(108, 116) =~= numeric_field(
            parsed_decimal(r.value)->0 as nat,
            8,
        ));
    }
    if !(apply && r.key == gid_key()) {
        assert(w.header.subrange(116, 124) =~= u.header.subrange(116, 124));
    } else {
        assert(w.header.subrange(116, 124) =~= numeric_field(
            parsed_decimal(r.value)->0 as nat,
            8,
        ));
    }
    if !apply {
        assert(w.header.subrange(108, 124) =~= u.header.subrange(108, 124));
    }
}

/// A number is written in decimal digits, without zeros in front.
pub proof fn law_decimal_is_written(n: nat)
    ensures
        are_digits(decimal(n)),
        number_in_base(decimal(n), 10) == n,
        decimal(n).len() > 1 ==> decimal(n)[0] != '0' as u8,
    decreases n,
{
    crate::number::lemma_decimal(n);
    lemma_decimal_is_fold(decimal(n));
    assert(are_digits(decimal(n))) by {
        assert forall|i: int| 0 <= i < decimal(n).len() implies '0' as u8 <= #[trigger] decimal(
            n,
        )[i] <= '9' as u8 by {
            assert(48 <= decimal(n)[i] <= 57);
        }
    }
    if n >= 10 {
        law_decimal_is_written(n / 10);
        crate::number::lemma_decimal(n / 10);
        assert(decimal(n)[0] == decimal(n / 10)[0]);
        if n < 100 {
            assert(decimal(n / 10)[0] == (48 + n / 10) as u8);
        } else {
            assert(decimal(n / 10).len() > 1) by {
                crate::number::lemma_decimal(n / 10 / 10);
            }
        }
    }
}

/// Whether a record is about GNU sparse files.
pub open spec fn is_sparse_record(r: PaxView) -> bool {
    valid_utf8(r.key) && encode_utf8("GNU.sparse."@).is_prefix_of(r.key)
}

proof fn lemma_sparse_keys()
    ensures
        ({
            let front = encode_utf8("GNU.sparse."@);
            &&& front.is_prefix_of(encode_utf8("GNU.sparse.map"@))
            &&& front.is_prefix_of(encode_utf8("GNU.sparse.size"@))
            &&& front.is_prefix_of(encode_utf8("GNU.sparse.major"@))
            &&& front.is_prefix_of(encode_utf8("GNU.sparse.minor"@))
            &&& !front.is_prefix_of(size_key())
            &&& !front.is_prefix_of(uid_key())
            &&& !front.is_prefix_of(gid_key())
            &&& !front.is_prefix_of(uname_key())
            &&& !front.is_prefix_of(gname_key())
            &&& encode_utf8("GNU.sparse.map"@) != encode_utf8("GNU.sparse.major"@)
            &&& encode_utf8("GNU.sparse.map"@) != encode_utf8("GNU.sparse.minor"@)
            &&& encode_utf8("GNU.sparse.size"@) != encode_utf8("GNU.sparse.major"@)
            &&& encode_utf8("GNU.sparse.size"@) != encode_utf8("GNU.sparse.minor"@)
            &&& encode_utf8("GNU.sparse.major"@) != encode_utf8("GNU.sparse.minor"@)
            &&& valid_utf8(encode_utf8("GNU.sparse.map"@))
            &&& valid_utf8(encode_utf8("GNU.sparse.size"@))
            &&& valid_utf8(encode_utf8("GNU.sparse.major"@))
            &&& valid_utf8(encode_utf8("GNU.sparse.minor"@))
        }),
{
    reveal_strlit("GNU.sparse.");
    reveal_strlit("GNU.sparse.map");
    reveal_strlit("GNU.sparse.size");
    reveal_strlit("GNU.sparse.major");
    reveal_strlit("GNU.sparse.minor");
    let front = encode_utf8("GNU.sparse."@);
    vstd::utf8::is_ascii_chars_encode_utf8("GNU.sparse."@);
    vstd::utf8::is_ascii_chars_encode_utf8("GNU.sparse.map"@);
    vstd::utf8::is_ascii_chars_encode_utf8("GNU.sparse.size"@);
    vstd::utf8::is_ascii_chars_encode_utf8("GNU.sparse.major"@);
    vstd::utf8::is_ascii_chars_encode_utf8("GNU.sparse.minor"@);
    vstd::utf8::encode_utf8_valid_utf8("GNU.sparse.map"@);
    vstd::utf8::encode_utf8_valid_utf8("GNU.sparse.size"@);
    vstd::utf8::encode_utf8_valid_utf8("GNU.sparse.major"@);
    vstd::utf8::encode_utf8_valid_utf8("GNU.sparse.minor"@);
    assert(front.len() == 11);
    assert(front =~= encode_utf8("GNU.sparse.map"@).subrange(0, 11));
    assert(front =~= encode_utf8("GNU.sparse.size"@).subrange(0, 11));
    assert(front =~= encode_utf8("GNU.sparse.major"@).subrange(0, 11));
    assert(front =~= encode_utf8("GNU.sparse.minor"@).subrange(0, 11));
    assert(encode_utf8("GNU.sparse.map"@).len() == 14);
    assert(encode_utf8("GNU.sparse.size"@).len() == 15);
    assert(encode_utf8("GNU.sparse.major"@).len() == 16);
    assert(encode_utf8("GNU.sparse.minor"@).len() == 16);
    assert(encode_utf8("GNU.sparse.major"@)[12] == 'a' as u8);
    assert(encode_utf8("GNU.sparse.minor"@)[12] == 'i' as u8);
}

/// What pax records tell of GNU sparse files: whether there is a record about them,
/// whether one gives a map or a size, and what the last records for the version say.
pub proof fn law_sparse_records_are_told(v: OverrideView, rs: Seq<PaxView>, apply: bool)
    requires
        with_records(v, rs, apply) is Ok,
        !v.sparse_metadata && !v.sparse_format && !v.sparse_major_1 && !v.sparse_minor_0,
    ensures
        ({
            let w = with_records(v, rs, apply)->Ok_0;
            &&& w.sparse_metadata <==> exists|i: int|
                0 <= i < rs.len() && is_sparse_record(#[trigger] rs[i])
            &&& w.sparse_format <==> has_key(rs, encode_utf8("GNU.sparse.map"@)) || has_key(
                rs,
                encode_utf8("GNU.sparse.size"@),
            )
            &&& w.sparse_major_1 <==> last_value(rs, encode_utf8("GNU.sparse.major"@)) == Some(
                encode_utf8("1"@),
            )
            &&& w.sparse_minor_0 <==> last_value(rs, encode_utf8("GNU.sparse.minor"@)) == Some(
                encode_utf8("0"@),
            )
        }),
    decreases rs.len(),
{
    let map = encode_utf8("GNU.sparse.map"@);
    let size = encode_utf8("GNU.sparse.size"@);
    if rs.len() > 0 {
        let front = rs.drop_last();
        let r = rs.last();
        law_sparse_records_are_told(v, front, apply);
        lemma_sparse_keys();
        lemma_number_keys();
        crate::facts::lemma_has_key(rs, map);
        crate::facts::lemma_has_key(rs, size);
        let w = with_records(v, rs, apply)->Ok_0;
        if exists|i: int| 0 <= i < front.len() && is_sparse_record(#[trigger] front[i]) {
            let i = choose|i: int| 0 <= i < front.len() && is_sparse_record(#[trigger] front[i]);
            assert(is_sparse_record(rs[i]));
        } else if is_sparse_record(r) {
            assert(is_sparse_record(rs[rs.len() - 1]));
        } else if exists|i: int| 0 <= i < rs.len() && is_sparse_record(#[trigger] rs[i]) {
            let i = choose|i: int| 0 <= i < rs.len() && is_sparse_record(#[trigger] rs[i]);
            assert(is_sparse_record(front[i]));
        }
        assert(rs[rs.len() - 1] == r);
    }
}

/// Pax records about GNU sparse files are refused unless they give a map or a size,
/// or are of version 1.0.
pub proof fn law_orphaned_sparse_records(b: Seq<u8>, size: u64, rs: Seq<PaxView>, apply: bool)
    requires
        with_records(plain_override(b, size), rs, apply) is Ok,
    ensures
        is_orphaned(with_records(plain_override(b, size), rs, apply)->Ok_0) <==> {
            &&& exists|i: int| 0 <= i < rs.len() && is_sparse_record(#[trigger] rs[i])
            &&& !has_key(rs, encode_utf8("GNU.sparse.map"@))
            &&& !has_key(rs, encode_utf8("GNU.sparse.size"@))
            &&& !(last_value(rs, encode_utf8("GNU.sparse.major"@)) == Some(encode_utf8("1"@))
                && last_value(rs, encode_utf8("GNU.sparse.minor"@)) == Some(encode_utf8("0"@)))
        },
{
    law_sparse_records_are_told(plain_override(b, size), rs, apply);
}

/// A record for the name of the owner or of the group is put in the header where it
/// is text without zero bytes and of up to 32 bytes, not empty, and the header is of
/// a form that has room for it; else the header stays as it is.
pub proof fn law_owner_names_are_applied(v: OverrideView, value: Seq<u8>, apply: bool)
    requires
        v.header.len() == 512,
    ensures
        ({
            let u = with_record(v, PaxView { key: uname_key(), value }, apply)->Ok_0.header;
            let g = with_record(v, PaxView { key: gname_key(), value }, apply)->Ok_0.header;
            let fits = (says_ustar(v.header) || says_gnu(v.header)) && 0 < value.len() <= 32
                && valid_utf8(value) && !value.contains(0);
            &&& fits ==> header_username(u) == Some(value) && header_groupname(g) == Some(value)
            &&& !fits ==> u == v.header && g == v.header
            &&& forall|i: int| 0 <= i < 265 || 297 <= i < 512 ==> #[trigger] u[i] == v.header[i]
            &&& forall|i: int| 0 <= i < 297 || 329 <= i < 512 ==> #[trigger] g[i] == v.header[i]
        }),
{
    lemma_number_keys();
    law_form_is_told_by_magic(v.header);
    if (says_ustar(v.header) || says_gnu(v.header)) && 0 < value.len() <= 32 && !value.contains(0) {
        crate::header::law_texts_are_read_back(v.header, value);
    }
}

/// Where a record for the size or for an owner's number holds no number, the failure
/// tells which record it is, and whether its value is no text or no number.
pub proof fn law_bad_number_record_is_told(v: OverrideView, value: Seq<u8>)
    requires
        !(are_digits(value) && number_in_base(value, 10) <= u64::MAX),
    ensures
        ({
            let told = |text: Seq<char>, number: Seq<char>|
                Err::<OverrideView, ErrorView>(
                    failure(
                        if valid_utf8(value) {
                            number
                        } else {
                            text
                        },
                    ),
                );
            &&& forall|apply: bool| #[trigger]
                with_record(v, PaxView { key: size_key(), value }, apply) == told(
                    "failed to parse pax size as string"@,
                    "failed to parse pax size"@,
                )
            &&& with_record(v, PaxView { key: uid_key(), value }, true) == told(
                "failed to parse pax uid as string"@,
                "failed to parse pax uid"@,
            )
            &&& with_record(v, PaxView { key: gid_key(), value }, true) == told(
                "failed to parse pax gid as string"@,
                "failed to parse pax gid"@,
            )
        }),
{
    lemma_number_keys();
    law_decimal_is_read(value);
}

/// Where the pax records of a member are not well formed, they give neither its path
/// nor its link target; a long name or a long link target counts nevertheless.
pub proof fn law_malformed_records_tell_nothing(m: EntryView)
    requires
        m.pax_extensions matches Some(d) && pax_malformed(d),
    ensures
        m.long_pathname is None ==> entry_path(m) == Err::<Seq<u8>, ErrorView>(
            failure("malformed pax extension"@),
        ),
        m.long_linkname is None ==> entry_link(m) == Err::<Option<Seq<u8>>, ErrorView>(
            failure("malformed pax extension"@),
        ),
        m.long_pathname is Some ==> entry_path(m) is Ok,
        m.long_linkname is Some ==> entry_link(m) is Ok,
{
}

} // verus!
