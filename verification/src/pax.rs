//! Pax records: `<length> <key>=<value>\n`, where the length counts the whole
//! record.

use crate::bytes::{append_bytes, find_byte, first_of, lemma_first_of, lemma_first_of_is, same_bytes};
use crate::error::{failure, ErrorView};
use crate::number::{
    decimal, decimal_text, lemma_decimal, lemma_decimal_len, lemma_decimal_len_monotone,
    parse_decimal, parsed_decimal, pow10,
};
use crate::text::utf8_text;
use vstd::prelude::*;
use vstd::utf8::{decode_utf8, encode_utf8, valid_utf8};

verus! {

/// A key and its value.
#[derive(Clone, Copy, Debug)]
pub struct PaxExtension<'a> {
    key: &'a [u8],
    value: &'a [u8],
}

/// What a [`PaxExtension`] is.
#[verifier::ext_equal]
pub struct PaxView {
    pub key: Seq<u8>,
    pub value: Seq<u8>,
}

impl<'a> View for PaxExtension<'a> {
    type V = PaxView;

    closed spec fn view(&self) -> PaxView {
        PaxView { key: self.key@, value: self.value@ }
    }
}

/// What a sequence of [`PaxExtension`]s is.
pub open spec fn pax_views(rs: Seq<PaxExtension>) -> Seq<PaxView> {
    Seq::new(rs.len(), |i: int| rs[i]@)
}

/// The records of an extension entry, up to the first malformed one.
#[derive(Debug)]
pub struct PaxExtensions<'a> {
    /// The records.
    pub records: Vec<PaxExtension<'a>>,
    /// Whether a malformed record follows them.
    pub malformed: bool,
}

/// A record without its length and its end, split at the first `=`.
pub open spec fn key_and_value(body: Seq<u8>) -> PaxView {
    let k = first_of(body, 61);
    PaxView { key: body.take(k), value: body.skip(k + 1) }
}

/// What stands between the length and the end of a record of `n` bytes.
pub open spec fn record_body(d: Seq<u8>, n: int) -> Seq<u8> {
    d.subrange(first_of(d, 32) + 1, n - 1)
}

/// The length of the record at the front of `d`, if there is a well-formed one.
pub open spec fn record_len(d: Seq<u8>) -> Option<int> {
    let space = first_of(d, 32);
    if space < d.len() {
        match parsed_decimal(d.take(space)) {
            Some(n) => if space + 1 < n <= d.len() && d[n - 1] == 10 && first_of(
                record_body(d, n as int),
                61,
            ) < record_body(d, n as int).len() {
                Some(n as int)
            } else {
                None
            },
            None => None,
        }
    } else {
        None
    }
}

/// The records of `d`, up to the first malformed one.
pub open spec fn pax_records(d: Seq<u8>) -> Seq<PaxView>
    decreases d.len(),
{
    match record_len(d) {
        Some(n) => if 0 < n <= d.len() {
            seq![key_and_value(record_body(d, n))] + pax_records(d.skip(n))
        } else {
            Seq::empty()
        },
        None => Seq::empty(),
    }
}

/// Whether `d` has a malformed record.
pub open spec fn pax_malformed(d: Seq<u8>) -> bool
    decreases d.len(),
{
    match record_len(d) {
        Some(n) => if 0 < n <= d.len() {
            pax_malformed(d.skip(n))
        } else {
            true
        },
        None => d.len() > 0,
    }
}

/// The failure on a malformed record.
pub open spec fn malformed_failure() -> ErrorView {
    failure("malformed pax extension"@)
}

/// The value of the last record with the given key.
pub open spec fn last_value(rs: Seq<PaxView>, key: Seq<u8>) -> Option<Seq<u8>>
    decreases rs.len(),
{
    if rs.len() == 0 {
        None
    } else if rs.last().key == key {
        Some(rs.last().value)
    } else {
        last_value(rs.drop_last(), key)
    }
}

/// Whether a record has the given key.
pub open spec fn has_key(rs: Seq<PaxView>, key: Seq<u8>) -> bool {
    exists|i: int| 0 <= i < rs.len() && (#[trigger] rs[i]).key == key
}

impl<'a> PaxExtension<'a> {
    /// The key, as bytes.
    pub fn key_bytes(&self) -> (key: &'a [u8])
        ensures
            key@ == self@.key,
    {
        self.key
    }

    /// The value, as bytes.
    pub fn value_bytes(&self) -> (value: &'a [u8])
        ensures
            value@ == self@.value,
    {
        self.value
    }

    /// The key, where it is text.
    pub fn key(&self) -> (key: Option<&'a str>)
        ensures
            key is Some == valid_utf8(self@.key),
            key matches Some(t) ==> t@ == decode_utf8(self@.key),
    {
        utf8_text(self.key)
    }

    /// The value, where it is text.
    pub fn value(&self) -> (value: Option<&'a str>)
        ensures
            value is Some == valid_utf8(self@.value),
            value matches Some(t) ==> t@ == decode_utf8(self@.value),
    {
        utf8_text(self.value)
    }

    /// Whether this record has the given key.
    pub fn has_key(&self, key: &str) -> (yes: bool)
        ensures
            yes == (self@.key == encode_utf8(key@)),
    {
        same_bytes(self.key, key.as_bytes())
    }
}

/// The record at the front of `d`, with its length.
fn first_record<'a>(d: &'a [u8]) -> (record: Option<(PaxExtension<'a>, usize)>)
    ensures
        match record_len(d@) {
            Some(n) => record matches Some((r, len)) && len == n && r@ == key_and_value(
                record_body(d@, n),
            ),
            None => record is None,
        },
{
    let space: usize = find_byte(d, 32);
    proof {
        lemma_first_of(d@, 32);
    }
    if space >= d.len() {
        return None;
    }
    let digits = vstd::slice::slice_subrange(d, 0, space);
    assert(digits@ =~= d@.take(space as int));
    let n: u64 = match parse_decimal(digits) {
        Some(n) => n,
        None => {
            return None;
        },
    };
    if n > d.len() as u64 || n as usize <= space + 1 || d[n as usize - 1] != 10 {
        return None;
    }
    let body = vstd::slice::slice_subrange(d, space + 1, n as usize - 1);
    assert(body@ =~= record_body(d@, n as int));
    let equals: usize = find_byte(body, 61);
    proof {
        lemma_first_of(body@, 61);
    }
    if equals >= body.len() {
        return None;
    }
    let key = vstd::slice::slice_subrange(body, 0, equals);
    let value = vstd::slice::slice_subrange(body, equals + 1, body.len());
    assert(key@ =~= body@.take(equals as int));
    assert(value@ =~= body@.skip(equals + 1));
    Some((PaxExtension { key, value }, n as usize))
}

/// The records of an extension entry.
pub fn pax_extensions<'a>(data: &'a [u8]) -> (pax: PaxExtensions<'a>)
    ensures
        pax_views(pax.records@) == pax_records(data@),
        pax.malformed == pax_malformed(data@),
{
    let mut records: Vec<PaxExtension<'a>> = Vec::new();
    let mut at: usize = 0;
    assert(data@.skip(0) =~= data@);
    assert(pax_views(records@) + pax_records(data@) =~= pax_records(data@));
    while at < data.len()
        invariant
            at <= data@.len(),
            pax_views(records@) + pax_records(data@.skip(at as int)) == pax_records(data@),
            pax_malformed(data@.skip(at as int)) == pax_malformed(data@),
        decreases data@.len() - at,
    {
        let rest = vstd::slice::slice_subrange(data, at, data.len());
        assert(rest@ =~= data@.skip(at as int));
        match first_record(rest) {
            Some((record, len)) => {
                let ghost before = pax_views(records@);
                proof {
                    lemma_record_len(rest@);
                }
                records.push(record);
                assert(pax_views(records@) =~= before.push(record@));
                assert(rest@.skip(len as int) =~= data@.skip(at + len));
                assert(before.push(record@) + pax_records(data@.skip(at + len)) =~= before
                    + pax_records(rest@));
                at = at + len;
            },
            None => {
                assert(pax_views(records@) =~= pax_records(data@));
                return PaxExtensions { records, malformed: true };
            },
        }
    }
    proof {
        let none = data@.skip(at as int);
        lemma_first_of(none, 32);
        assert(record_len(none) is None);
        assert(pax_views(records@) =~= pax_records(data@));
    }
    PaxExtensions { records, malformed: false }
}

proof fn lemma_record_len(d: Seq<u8>)
    ensures
        record_len(d) matches Some(n) ==> 0 < n <= d.len(),
{
    lemma_first_of(d, 32);
}

/// The value of the last record with the given key.
pub fn find_last<'a>(pax: &PaxExtensions<'a>, key: &str) -> (value: Option<&'a [u8]>)
    ensures
        match last_value(pax_views(pax.records@), encode_utf8(key@)) {
            Some(v) => value matches Some(bytes) && bytes@ == v,
            None => value is None,
        },
{
    let ghost rs = pax_views(pax.records@);
    let mut i: usize = pax.records.len();
    assert(rs.take(i as int) =~= rs);
    while i > 0
        invariant
            i <= pax.records@.len(),
            rs == pax_views(pax.records@),
            last_value(rs.take(i as int), encode_utf8(key@)) == last_value(rs, encode_utf8(key@)),
        decreases i,
    {
        let record = pax.records[i - 1];
        assert(rs.take(i as int).last() == record@);
        assert(rs.take(i as int).drop_last() =~= rs.take(i - 1));
        if record.has_key(key) {
            return Some(record.value_bytes());
        }
        i = i - 1;
    }
    None
}

/// Whether a record has the given key.
pub fn any_with_key(pax: &PaxExtensions, key: &str) -> (yes: bool)
    ensures
        yes == has_key(pax_views(pax.records@), encode_utf8(key@)),
{
    let ghost rs = pax_views(pax.records@);
    let mut i: usize = 0;
    while i < pax.records.len()
        invariant
            i <= pax.records@.len(),
            rs == pax_views(pax.records@),
            forall|j: int| 0 <= j < i ==> (#[trigger] rs[j]).key != encode_utf8(key@),
        decreases pax.records@.len() - i,
    {
        assert(rs[i as int] == pax.records@[i as int]@);
        if pax.records[i].has_key(key) {
            return true;
        }
        i = i + 1;
    }
    false
}

/// Whether `len` is the length of a record with `content` bytes besides the
/// digits of the length.
pub open spec fn is_record_size(content: nat, len: nat) -> bool {
    len == content + decimal(len).len()
}

/// The length of a record with `content` bytes besides the digits of the
/// length: the least number that counts its own digits.
pub open spec fn record_size(content: nat) -> nat {
    choose|len: nat|
        #[trigger] is_record_size(content, len) && forall|m: nat| #[trigger]
            is_record_size(content, m) ==> len <= m
}

/// A record with the given key and value.
pub open spec fn pax_record(key: Seq<u8>, value: Seq<u8>) -> Seq<u8> {
    decimal(record_size(key.len() + value.len() + 3)).push(32) + key.push(61) + value.push(10)
}

fn record_size_of(content: u128) -> (len: u128)
    requires
        content <= u128::MAX - 40,
    ensures
        len == record_size(content as nat),
        is_record_size(content as nat, len as nat),
{
    let ghost c = content as nat;
    let mut len: u128 = content + 1;
    proof {
        assert forall|m: nat| #[trigger] is_record_size(c, m) implies len <= m by {
            lemma_decimal(m);
        }
        lemma_decimal(len as nat);
    }
    loop
        invariant
            c == content,
            content <= u128::MAX - 40,
            len <= content + 39,
            len <= c + decimal(len as nat).len(),
            forall|m: nat| #[trigger] is_record_size(c, m) ==> len <= m,
        decreases content + 40 - len,
    {
        let digits: Vec<u8> = decimal_text(len);
        proof {
            reveal_with_fuel(pow10, 41);
            lemma_decimal_len(len as nat, 39);
        }
        let next: u128 = content + digits.len() as u128;
        if next == len {
            proof {
                assert(is_record_size(c, len as nat));
            }
            return len;
        }
        proof {
            assert forall|m: nat| #[trigger] is_record_size(c, m) implies next <= m by {
                lemma_decimal_len_monotone(len as nat, m);
            }
            lemma_decimal_len_monotone(len as nat, next as nat);
        }
        len = next;
    }
}

/// Appends a record whose length has the given digits.
fn append_record(dst: &mut Vec<u8>, digits: &[u8], key: &[u8], value: &[u8])
    ensures
        final(dst)@ == old(dst)@ + (digits@.push(32) + key@.push(61) + value@.push(10)),
{
    append_bytes(dst, digits);
    dst.push(32u8);
    append_bytes(dst, key);
    dst.push(61u8);
    append_bytes(dst, value);
    dst.push(10u8);
    assert(dst@ =~= old(dst)@ + (digits@.push(32) + key@.push(61) + value@.push(10)));
}

/// Appends a record with the given key and value.
pub fn append_pax_record(dst: &mut Vec<u8>, key: &str, value: &[u8])
    ensures
        final(dst)@ == old(dst)@ + pax_record(encode_utf8(key@), value@),
{
    let k = key.as_bytes();
    let len: u128 = record_size_of(k.len() as u128 + value.len() as u128 + 3);
    append_record(dst, decimal_text(len).as_slice(), k, value);
}

/// A record of a size exists for every content.
pub proof fn lemma_record_size(content: nat)
    ensures
        is_record_size(content, record_size(content)),
        forall|m: nat| #[trigger] is_record_size(content, m) ==> record_size(content) <= m,
{
    lemma_decimal(content + 1);
    assert forall|m: nat| #[trigger] is_record_size(content, m) implies content + 1 <= m by {
        lemma_decimal(m);
    }
    lemma_record_size_from(content, content + 1);
}

proof fn lemma_record_size_from(content: nat, len: nat)
    requires
        content < len <= content + decimal(len).len(),
        forall|m: nat| #[trigger] is_record_size(content, m) ==> len <= m,
    ensures
        is_record_size(content, record_size(content)),
        forall|m: nat| #[trigger] is_record_size(content, m) ==> record_size(content) <= m,
    decreases content + content + 12 - len,
{
    let next = content + decimal(len).len();
    if next == len {
        assert(is_record_size(content, len));
    } else {
        assert forall|m: nat| #[trigger] is_record_size(content, m) implies next <= m by {
            lemma_decimal_len_monotone(len, m);
        }
        lemma_decimal_len_monotone(len, next);
        lemma_few_digits(len);
        lemma_record_size_from(content, next);
    }
}

/// A number from ten on has fewer digits than it counts.
proof fn lemma_few_digits(n: nat)
    ensures
        decimal(n).len() <= 1 + n / 2,
    decreases n,
{
    if n >= 10 {
        lemma_few_digits(n / 10);
    }
}

/// A record that was written is read back, whatever follows it. Its key must
/// not have a `=`, and its length must be below 2^64.
pub proof fn law_record_is_read_back(key: Seq<u8>, value: Seq<u8>, rest: Seq<u8>)
    requires
        !key.contains(61),
        record_size(key.len() + value.len() + 3) <= u64::MAX,
    ensures
        pax_records(pax_record(key, value) + rest) == seq![PaxView { key, value }] + pax_records(
            rest,
        ),
        pax_malformed(pax_record(key, value) + rest) == pax_malformed(rest),
{
    let content = key.len() + value.len() + 3;
    let n = record_size(content);
    let digits = decimal(n);
    let record = digits.push(32) + key.push(61) + value.push(10);
    let d = record + rest;
    lemma_record_size(content);
    lemma_decimal(n);
    assert(record.len() == n);
    assert forall|j: int| 0 <= j < digits.len() implies d[j] != 32 by {
        assert(d[j] == digits[j]);
        assert(48 <= digits[j] <= 57);
    }
    lemma_first_of_is(d, 32, digits.len() as int);
    assert(d.take(digits.len() as int) =~= digits);
    assert(d[n - 1] == record[n - 1]);
    assert(record[n - 1] == 10);
    let body = record_body(d, n as int);
    assert(body =~= key.push(61) + value);
    assert forall|j: int| 0 <= j < key.len() implies body[j] != 61 by {
        assert(key.contains(key[j]));
    }
    lemma_first_of_is(body, 61, key.len() as int);
    assert(body.take(key.len() as int) =~= key);
    assert(body.skip(key.len() as int + 1) =~= value);
    assert(record_len(d) == Some(n as int));
    assert(d.skip(n as int) =~= rest);
}

/// The records of several keys and values, one after the other.
pub open spec fn pax_data(rs: Seq<PaxView>) -> Seq<u8>
    decreases rs.len(),
{
    if rs.len() == 0 {
        Seq::empty()
    } else {
        pax_data(rs.drop_last()) + pax_record(rs.last().key, rs.last().value)
    }
}

/// Whether a record can be written and read back.
pub open spec fn is_writable(r: PaxView) -> bool {
    !r.key.contains(61) && record_size(r.key.len() + r.value.len() + 3) <= u64::MAX
}

/// The length of a record is the number at its front.
pub proof fn lemma_record_length(key: Seq<u8>, value: Seq<u8>)
    ensures
        pax_record(key, value).len() == record_size(key.len() + value.len() + 3),
{
    lemma_record_size(key.len() + value.len() + 3);
}

/// A record is no longer than the records that it is among.
pub proof fn lemma_record_is_within(rs: Seq<PaxView>, i: int)
    requires
        0 <= i < rs.len(),
    ensures
        pax_record(rs[i].key, rs[i].value).len() <= pax_data(rs).len(),
    decreases rs.len(),
{
    if i < rs.len() - 1 {
        lemma_record_is_within(rs.drop_last(), i);
    }
}

proof fn lemma_pax_data_then(rs: Seq<PaxView>, rest: Seq<u8>)
    requires
        forall|i: int| 0 <= i < rs.len() ==> is_writable(#[trigger] rs[i]),
    ensures
        pax_records(pax_data(rs) + rest) == rs + pax_records(rest),
        pax_malformed(pax_data(rs) + rest) == pax_malformed(rest),
    decreases rs.len(),
{
    if rs.len() == 0 {
        assert(pax_data(rs) + rest =~= rest);
        assert(rs + pax_records(rest) =~= pax_records(rest));
    } else {
        let last = rs.last();
        let record = pax_record(last.key, last.value);
        assert(is_writable(rs[rs.len() - 1]));
        lemma_pax_data_then(rs.drop_last(), record + rest);
        law_record_is_read_back(last.key, last.value, rest);
        assert(pax_data(rs) + rest =~= pax_data(rs.drop_last()) + (record + rest));
        assert(rs.drop_last() + (seq![last] + pax_records(rest)) =~= rs + pax_records(rest));
        assert(last =~= PaxView { key: last.key, value: last.value });
    }
}

/// Records that were written are read back, in their order.
pub proof fn law_records_are_read_back(rs: Seq<PaxView>)
    requires
        forall|i: int| 0 <= i < rs.len() ==> is_writable(#[trigger] rs[i]),
    ensures
        pax_records(pax_data(rs)) == rs,
        !pax_malformed(pax_data(rs)),
{
    let none = Seq::<u8>::empty();
    lemma_pax_data_then(rs, none);
    lemma_first_of(none, 32);
    assert(pax_data(rs) + none =~= pax_data(rs));
    assert(rs + pax_records(none) =~= rs);
}

} // verus!
