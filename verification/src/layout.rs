//! What a header block says, byte by byte.

use crate::bytes::{field, first_of, lemma_first_of, lemma_first_of_is, put, sum, until_nul};
use crate::entry_type::{typeflag_of, EntryType};
use crate::error::{failure, ErrorView};
use crate::header::{
    checksum, device_at, gnu_magic, groupname_refusal, header_cksum, header_gid, header_groupname,
    header_link, header_mode, header_mtime, header_path, header_real_size, header_size,
    header_type, header_uid, header_username, is_gnu, is_ustar, law_texts_are_read_back,
    nul_version_magic, numeric_at, octal_at, slot_text, username_refusal, ustar_magic,
};
use crate::member::{header_refusal, is_pax_block, is_pax_numeric_byte};
use crate::generate::with_cksum;
use crate::number::{
    binary_value, is_octal, lemma_octal_value_bound, numeric_field, octal_field, octal_text,
    octal_value, parsed_numeric, parsed_octal, pow8, trim_back, trim_front,
};
use crate::options::ArchiveOptions;
use crate::text::lossy;
use vstd::prelude::*;
use vstd::utf8::valid_utf8;

verus! {

/// Whether a header has `ustar`, a zero byte and `00` where its form stands.
pub open spec fn says_ustar(b: Seq<u8>) -> bool {
    &&& b[257] == 117 && b[258] == 115 && b[259] == 116 && b[260] == 97 && b[261] == 114
    &&& b[262] == 0 && b[263] == 48 && b[264] == 48
}

/// Whether a header has `ustar`, two spaces and a zero byte where its form
/// stands.
pub open spec fn says_gnu(b: Seq<u8>) -> bool {
    &&& b[257] == 117 && b[258] == 115 && b[259] == 116 && b[260] == 97 && b[261] == 114
    &&& b[262] == 32 && b[263] == 32 && b[264] == 0
}

/// Whether a header has `ustar` and three zero bytes where its form stands.
pub open spec fn says_ustar_without_version(b: Seq<u8>) -> bool {
    &&& b[257] == 117 && b[258] == 115 && b[259] == 116 && b[260] == 97 && b[261] == 114
    &&& b[262] == 0 && b[263] == 0 && b[264] == 0
}

/// The form of a header is told by its bytes from 257 to 264 alone.
pub proof fn law_form_is_told_by_magic(b: Seq<u8>)
    requires
        b.len() == 512,
    ensures
        is_ustar(b) <==> says_ustar(b),
        is_gnu(b) <==> says_gnu(b),
        field(b, 257, 8) == nul_version_magic() <==> says_ustar_without_version(b),
{
    let f = field(b, 257, 8);
    assert(f[0] == b[257] && f[1] == b[258] && f[2] == b[259] && f[3] == b[260] && f[4] == b[261]
        && f[5] == b[262] && f[6] == b[263] && f[7] == b[264]);
    let u = ustar_magic();
    let g = gnu_magic();
    let n = nul_version_magic();
    assert(u[0] == 117 && u[1] == 115 && u[2] == 116 && u[3] == 97 && u[4] == 114 && u[5] == 0
        && u[6] == 48 && u[7] == 48);
    assert(g[0] == 117 && g[1] == 115 && g[2] == 116 && g[3] == 97 && g[4] == 114 && g[5] == 32
        && g[6] == 32 && g[7] == 0);
    assert(n[0] == 117 && n[1] == 115 && n[2] == 116 && n[3] == 97 && n[4] == 114 && n[5] == 0
        && n[6] == 0 && n[7] == 0);
    if says_ustar(b) {
        assert(f =~= u);
    }
    if says_gnu(b) {
        assert(f =~= g);
    }
    if says_ustar_without_version(b) {
        assert(f =~= n);
    }
}

/// The kind of a member is told by the byte 156 of its header: each kind has a
/// letter or digit of its own, a zero byte stands for a regular file too, and
/// any other byte is kept as it is.
pub proof fn law_kind_is_told_by_typeflag(b: Seq<u8>)
    requires
        b.len() == 512,
    ensures
        header_type(b) is Regular <==> b[156] == 0 || b[156] == '0' as u8,
        header_type(b) is Link <==> b[156] == '1' as u8,
        header_type(b) is Symlink <==> b[156] == '2' as u8,
        header_type(b) is Char <==> b[156] == '3' as u8,
        header_type(b) is Block <==> b[156] == '4' as u8,
        header_type(b) is Directory <==> b[156] == '5' as u8,
        header_type(b) is Fifo <==> b[156] == '6' as u8,
        header_type(b) is Continuous <==> b[156] == '7' as u8,
        header_type(b) is GNULongName <==> b[156] == 'L' as u8,
        header_type(b) is GNULongLink <==> b[156] == 'K' as u8,
        header_type(b) is GNUSparse <==> b[156] == 'S' as u8,
        header_type(b) is XGlobalHeader <==> b[156] == 'g' as u8,
        header_type(b) is XHeader <==> b[156] == 'x' as u8,
        header_type(b) matches EntryType::Other(byte) ==> byte == b[156],
        b[156] != 0 ==> typeflag_of(header_type(b)) == b[156],
        b[156] == 0 ==> typeflag_of(header_type(b)) == '0' as u8,
{
}

/// The sum of the bytes of a header, with spaces in place of its checksum.
pub open spec fn sum_with_blanks(b: Seq<u8>) -> nat {
    Seq::new(
        b.len(),
        |i: int|
            if 148 <= i < 156 {
                32u8
            } else {
                b[i]
            },
    ).fold_left(0nat, |total: nat, byte: u8| total + byte as nat)
}

proof fn lemma_sum_is_fold(s: Seq<u8>)
    ensures
        s.fold_left(0nat, |total: nat, byte: u8| total + byte as nat) == sum(s),
    decreases s.len(),
{
    if s.len() > 0 {
        lemma_sum_is_fold(s.drop_last());
    }
}

proof fn lemma_sum_concat(a: Seq<u8>, b: Seq<u8>)
    ensures
        sum(a + b) == sum(a) + sum(b),
    decreases b.len(),
{
    if b.len() == 0 {
        assert(a + b =~= a);
    } else {
        assert((a + b).drop_last() =~= a + b.drop_last());
        lemma_sum_concat(a, b.drop_last());
    }
}

/// The checksum of a header is the sum of its bytes, where those of the checksum
/// itself count as spaces.
pub proof fn law_checksum_is_the_sum(b: Seq<u8>)
    requires
        b.len() == 512,
    ensures
        checksum(b) == sum_with_blanks(b),
{
    let blanked = Seq::new(
        b.len(),
        |i: int|
            if 148 <= i < 156 {
                32u8
            } else {
                b[i]
            },
    );
    let blanks = Seq::new(8, |i: int| 32u8);
    lemma_sum_is_fold(blanked);
    assert(blanked =~= b.take(148) + blanks + b.skip(156));
    lemma_sum_concat(b.take(148) + blanks, b.skip(156));
    lemma_sum_concat(b.take(148), blanks);
    reveal_with_fuel(sum, 9);
    assert(sum(blanks) == 8 * 32);
}

/// Whether a byte stands for blank space around a number.
pub open spec fn is_blank(byte: u8) -> bool {
    byte == 32 || byte == 9 || byte == 10 || byte == 11 || byte == 12 || byte == 13
}

/// Whether a field holds octal digits from `from` up to `to`, with blank space
/// around them, up to `end`, where the field or its text ends.
pub open spec fn holds_octal(f: Seq<u8>, from: int, to: int, end: int) -> bool {
    &&& 0 <= from < to <= end <= f.len()
    &&& end == f.len() || f[end] == 0
    &&& forall|i: int| 0 <= i < from ==> is_blank(#[trigger] f[i])
    &&& forall|i: int| from <= i < to ==> '0' as u8 <= #[trigger] f[i] <= '7' as u8
    &&& forall|i: int| to <= i < end ==> is_blank(#[trigger] f[i])
}

/// The number that digits stand for, one place after the other.
pub open spec fn number_in_base(digits: Seq<u8>, base: nat) -> nat {
    digits.fold_left(0nat, |n: nat, digit: u8| n * base + (digit - 48) as nat)
}

proof fn lemma_octal_is_fold(s: Seq<u8>)
    ensures
        number_in_base(s, 8) == octal_value(s),
    decreases s.len(),
{
    if s.len() > 0 {
        lemma_octal_is_fold(s.drop_last());
    }
}

proof fn lemma_trim_front(s: Seq<u8>, from: int)
    requires
        0 <= from <= s.len(),
        forall|i: int| 0 <= i < from ==> is_blank(#[trigger] s[i]),
        from < s.len() ==> !is_blank(s[from]),
    ensures
        trim_front(s) == s.skip(from),
    decreases from,
{
    if from > 0 {
        assert(is_blank(s[0]));
        assert forall|i: int| 0 <= i < from - 1 implies is_blank(#[trigger] s.skip(1)[i]) by {
            assert(s.skip(1)[i] == s[i + 1]);
        }
        lemma_trim_front(s.skip(1), from - 1);
        assert(s.skip(1).skip(from - 1) =~= s.skip(from));
    } else {
        assert(s.skip(0) =~= s);
    }
}

proof fn lemma_trim_back(s: Seq<u8>, to: int)
    requires
        0 <= to <= s.len(),
        forall|i: int| to <= i < s.len() ==> is_blank(#[trigger] s[i]),
        to > 0 ==> !is_blank(s[to - 1]),
    ensures
        trim_back(s) == s.take(to),
    decreases s.len(),
{
    if to < s.len() {
        assert(is_blank(s[s.len() - 1]));
        lemma_trim_back(s.drop_last(), to);
        assert(s.drop_last().take(to) =~= s.take(to));
    } else {
        assert(s.take(to) =~= s);
    }
}

proof fn lemma_trim_front_splits(s: Seq<u8>) -> (from: int)
    ensures
        0 <= from <= s.len(),
        trim_front(s) == s.skip(from),
        forall|i: int| 0 <= i < from ==> is_blank(#[trigger] s[i]),
    decreases s.len(),
{
    if s.len() > 0 && is_blank(s[0]) {
        let k = lemma_trim_front_splits(s.skip(1));
        assert(s.skip(1).skip(k) =~= s.skip(k + 1));
        assert forall|i: int| 0 <= i < k + 1 implies is_blank(#[trigger] s[i]) by {
            if i > 0 {
                assert(s.skip(1)[i - 1] == s[i]);
            }
        }
        k + 1
    } else {
        assert(s.skip(0) =~= s);
        0
    }
}

proof fn lemma_trim_back_splits(s: Seq<u8>) -> (to: int)
    ensures
        0 <= to <= s.len(),
        trim_back(s) == s.take(to),
        forall|i: int| to <= i < s.len() ==> is_blank(#[trigger] s[i]),
    decreases s.len(),
{
    if s.len() > 0 && is_blank(s.last()) {
        let k = lemma_trim_back_splits(s.drop_last());
        assert(s.drop_last().take(k) =~= s.take(k));
        assert forall|i: int| k <= i < s.len() implies is_blank(#[trigger] s[i]) by {
            if i < s.len() - 1 {
                assert(s.drop_last()[i] == s[i]);
            }
        }
        k
    } else {
        assert(s.take(s.len() as int) =~= s);
        s.len() as int
    }
}

/// Octal digits in a field are read as the number that they stand for. Blank
/// space around them does not count, nor does what follows a zero byte.
pub proof fn law_octal_is_read(f: Seq<u8>, from: int, to: int, end: int)
    requires
        holds_octal(f, from, to, end),
        f.len() <= 20,
    ensures
        parsed_octal(f) == Some(number_in_base(f.subrange(from, to), 8) as u64),
        number_in_base(f.subrange(from, to), 8) <= u64::MAX,
{
    let digits = f.subrange(from, to);
    assert forall|i: int| 0 <= i < end implies f[i] != 0 by {
        if i < from {
            assert(is_blank(f[i]));
        } else if i >= to {
            assert(is_blank(f[i]));
        }
    }
    lemma_first_of_is(f, 0, end);
    let text = until_nul(f);
    assert(f[from] == text[from]);
    lemma_trim_front(text, from);
    let cut = text.skip(from);
    assert(cut[to - from - 1] == f[to - 1]);
    assert forall|i: int| to - from <= i < cut.len() implies is_blank(#[trigger] cut[i]) by {
        assert(cut[i] == f[from + i]);
    }
    lemma_trim_back(cut, to - from);
    assert(cut.take(to - from) =~= digits);
    assert(is_octal(digits)) by {
        assert forall|i: int| 0 <= i < digits.len() implies 48 <= #[trigger] digits[i] <= 55 by {
            assert(digits[i] == f[from + i]);
        }
    }
    lemma_octal_is_fold(digits);
    lemma_octal_value_bound(digits);
    crate::number::lemma_pow_values();
    crate::number::lemma_pow8_monotone(digits.len(), 20);
}

/// A field is read as an octal number only where it holds octal digits with
/// nothing but blank space around them.
pub proof fn law_only_octal_is_read(f: Seq<u8>)
    requires
        parsed_octal(f) is Some,
    ensures
        exists|from: int, to: int, end: int| holds_octal(f, from, to, end),
{
    let text = until_nul(f);
    lemma_first_of(f, 0);
    let end = first_of(f, 0);
    let from = lemma_trim_front_splits(text);
    let cut = text.skip(from);
    let len = lemma_trim_back_splits(cut);
    let digits = cut.take(len);
    let to = from + len;
    assert(digits == octal_text(f));
    assert forall|i: int| 0 <= i < from implies is_blank(#[trigger] f[i]) by {
        assert(text[i] == f[i]);
    }
    assert forall|i: int| from <= i < to implies '0' as u8 <= #[trigger] f[i] <= '7' as u8 by {
        assert(digits[i - from] == f[i]);
    }
    assert forall|i: int| to <= i < end implies is_blank(#[trigger] f[i]) by {
        assert(cut[i - from] == f[i]);
    }
    assert(holds_octal(f, from, to, end));
}

/// The number that bytes stand for in base 256.
pub open spec fn number_of_bytes(bytes: Seq<u8>) -> nat {
    bytes.fold_left(0nat, |n: nat, byte: u8| n * 256 + byte as nat)
}

proof fn lemma_binary_is_fold(s: Seq<u8>)
    ensures
        number_of_bytes(s) == binary_value(s),
    decreases s.len(),
{
    if s.len() > 0 {
        lemma_binary_is_fold(s.drop_last());
    }
}

/// A field whose first byte has its high bit set holds a number in base 256: in
/// eight bytes without that bit, in more bytes the last eight of them. Any other
/// field holds octal digits.
pub proof fn law_base_256_is_read(f: Seq<u8>)
    requires
        f.len() == 8 || f.len() == 12,
    ensures
        f[0] >= 128 && f.len() == 8 ==> parsed_numeric(f) == Some(
            number_of_bytes(seq![(f[0] - 128) as u8] + f.skip(1)) as u64,
        ),
        f[0] >= 128 && f.len() == 12 ==> parsed_numeric(f) == Some(
            number_of_bytes(f.skip(4)) as u64,
        ),
        f[0] < 128 ==> parsed_numeric(f) == parsed_octal(f),
{
    if f[0] >= 128 {
        let plain = f.update(0, (f[0] - 128) as u8);
        assert(plain =~= seq![(f[0] - 128) as u8] + f.skip(1));
        lemma_binary_is_fold(plain);
        lemma_binary_is_fold(f.skip(4));
        crate::number::lemma_binary_value_bound(plain);
        crate::number::lemma_binary_value_bound(f.skip(4));
    }
}

/// Where the numbers of a header stand.
pub proof fn law_numbers_have_their_places(b: Seq<u8>)
    requires
        b.len() == 512,
    ensures
        (match header_mode(b) {
            Ok(n) => parsed_octal(b.subrange(100, 108)) matches Some(m) && n == m as u32,
            Err(_) => parsed_octal(b.subrange(100, 108)) is None,
        }),
        (match header_uid(b) {
            Ok(n) => parsed_numeric(b.subrange(108, 116)) == Some(n),
            Err(_) => parsed_numeric(b.subrange(108, 116)) is None,
        }),
        (match header_gid(b) {
            Ok(n) => parsed_numeric(b.subrange(116, 124)) == Some(n),
            Err(_) => parsed_numeric(b.subrange(116, 124)) is None,
        }),
        (match header_size(b) {
            Ok(n) => parsed_numeric(b.subrange(124, 136)) == Some(n),
            Err(_) => parsed_numeric(b.subrange(124, 136)) is None,
        }),
        (match header_mtime(b) {
            Ok(n) => parsed_numeric(b.subrange(136, 148)) == Some(n),
            Err(_) => parsed_numeric(b.subrange(136, 148)) is None,
        }),
        (match header_cksum(b) {
            Ok(n) => parsed_octal(b.subrange(148, 156)) matches Some(m) && n == m as u32,
            Err(_) => parsed_octal(b.subrange(148, 156)) is None,
        }),
        (match header_real_size(b) {
            Ok(n) => parsed_numeric(b.subrange(483, 495)) == Some(n),
            Err(_) => parsed_numeric(b.subrange(483, 495)) is None,
        }),
{
}

/// Whether a field of a header, from `at` on and `len` bytes long, holds the text
/// `t`: its bytes up to the first zero byte, or all of them.
pub open spec fn holds_text(b: Seq<u8>, at: int, len: int, t: Seq<u8>) -> bool {
    &&& t.len() <= len
    &&& forall|i: int| 0 <= i < t.len() ==> #[trigger] t[i] != 0 && t[i] == b[at + i]
    &&& t.len() < len ==> b[at + t.len()] == 0
}

proof fn lemma_text_is_held(b: Seq<u8>, at: int, len: int, t: Seq<u8>)
    requires
        b.len() == 512,
        0 <= at,
        0 <= len,
        at + len <= 512,
        holds_text(b, at, len, t),
    ensures
        until_nul(field(b, at, len)) == t,
{
    let f = field(b, at, len);
    assert forall|j: int| 0 <= j < t.len() implies f[j] != 0 by {
        assert(t[j] != 0 && f[j] == b[at + j]);
    }
    lemma_first_of_is(f, 0, t.len() as int);
    assert(until_nul(f) =~= t);
}

/// The path of a header is the text of its first 100 bytes. In a USTAR header
/// the text of the 155 bytes from 345 on stands in front of it, with a slash
/// between them, unless that is empty.
pub proof fn law_path_is_read(b: Seq<u8>, name: Seq<u8>, prefix: Seq<u8>)
    requires
        b.len() == 512,
        holds_text(b, 0, 100, name),
        says_ustar(b) ==> holds_text(b, 345, 155, prefix),
    ensures
        says_ustar(b) && prefix.len() > 0 ==> header_path(b) == prefix + seq!['/' as u8] + name,
        !(says_ustar(b) && prefix.len() > 0) ==> header_path(b) == name,
{
    law_form_is_told_by_magic(b);
    lemma_text_is_held(b, 0, 100, name);
    if says_ustar(b) {
        lemma_text_is_held(b, 345, 155, prefix);
        assert(prefix.push(47) =~= prefix + seq!['/' as u8]);
    }
}

/// The target of a link is the text of the 100 bytes from 157 on, and none where
/// that is empty.
pub proof fn law_link_is_read(b: Seq<u8>, target: Seq<u8>)
    requires
        b.len() == 512,
        holds_text(b, 157, 100, target),
    ensures
        target.len() > 0 ==> header_link(b) == Some(target),
        target.len() == 0 ==> header_link(b) is None,
{
    lemma_text_is_held(b, 157, 100, target);
    if target.len() > 0 {
        assert(target[0] != 0 && b[157] == target[0]);
    }
}

/// The names of the owner and the group, and the device numbers, stand in USTAR
/// and GNU headers alone.
pub proof fn law_owner_is_read(b: Seq<u8>, user: Seq<u8>, group: Seq<u8>, what: Seq<char>)
    requires
        b.len() == 512,
        holds_text(b, 265, 32, user),
        holds_text(b, 297, 32, group),
    ensures
        says_ustar(b) || says_gnu(b) ==> header_username(b) == Some(user) && header_groupname(b)
            == Some(group),
        !says_ustar(b) && !says_gnu(b) ==> header_username(b) is None && header_groupname(b) is None,
        says_ustar(b) || says_gnu(b) ==> (match device_at(b, 329, what) {
            Ok(n) => parsed_octal(b.subrange(329, 337)) matches Some(m) && n == Some(m as u32),
            Err(_) => parsed_octal(b.subrange(329, 337)) is None,
        }),
        says_ustar(b) || says_gnu(b) ==> (match device_at(b, 337, what) {
            Ok(n) => parsed_octal(b.subrange(337, 345)) matches Some(m) && n == Some(m as u32),
            Err(_) => parsed_octal(b.subrange(337, 345)) is None,
        }),
        !says_ustar(b) && !says_gnu(b) ==> device_at(b, 329, what) == Ok::<Option<u32>, ErrorView>(
            None,
        ) && device_at(b, 337, what) == Ok::<Option<u32>, ErrorView>(None),
{
    law_form_is_told_by_magic(b);
    lemma_text_is_held(b, 265, 32, user);
    lemma_text_is_held(b, 297, 32, group);
}

/// Whether a byte is a zero byte, a space or an octal digit.
pub open spec fn is_strict_digit(byte: u8) -> bool {
    byte == 0 || byte == 32 || byte == 48 || byte == 49 || byte == 50 || byte == 51 || byte == 52
        || byte == 53 || byte == 54 || byte == 55
}

/// Whether the typeflag is that of a file, a link, a device, a directory or a
/// pipe, or that of pax records for the next member.
pub open spec fn is_strict_typeflag(byte: u8) -> bool {
    byte == 0 || '0' as u8 <= byte <= '6' as u8 || byte == 'x' as u8
}

/// A header is accepted if and only if its checksum is right, it is no USTAR
/// header without a version, and, in pax-only mode, it is a USTAR header of a
/// kind that pax knows in which every byte of the mode, of the owner's numbers,
/// of the size, of the time and of the device numbers is a zero byte, a space or
/// an octal digit.
pub proof fn law_header_is_accepted(o: ArchiveOptions, b: Seq<u8>)
    requires
        b.len() == 512,
    ensures
        header_refusal(o, b) is None <==> {
            &&& parsed_octal(b.subrange(148, 156)) matches Some(n) && n as u32 == sum_with_blanks(b)
            &&& !says_ustar_without_version(b)
            &&& o.pax_only ==> {
                &&& says_ustar(b)
                &&& is_strict_typeflag(b[156])
                &&& forall|i: int| 100 <= i < 148 ==> is_strict_digit(#[trigger] b[i])
                &&& forall|i: int| 329 <= i < 345 ==> is_strict_digit(#[trigger] b[i])
            }
        },
{
    law_form_is_told_by_magic(b);
    law_checksum_is_the_sum(b);
    law_numbers_have_their_places(b);
    assert forall|byte: u8| is_pax_numeric_byte(byte) == #[trigger] is_strict_digit(byte) by {}
    if o.pax_only {
        if forall|i: int| 100 <= i < 148 ==> is_strict_digit(#[trigger] b[i]) {
            assert forall|i: int| 100 <= i < 148 implies is_pax_numeric_byte(#[trigger] b[i]) by {
                assert(is_strict_digit(b[i]));
            }
        }
        if forall|i: int| 329 <= i < 345 ==> is_strict_digit(#[trigger] b[i]) {
            assert forall|i: int| 329 <= i < 345 implies is_pax_numeric_byte(#[trigger] b[i]) by {
                assert(is_strict_digit(b[i]));
            }
        }
        if is_pax_block(b) {
            assert forall|i: int| 100 <= i < 148 implies is_strict_digit(#[trigger] b[i]) by {
                assert(is_pax_numeric_byte(b[i]));
            }
            assert forall|i: int| 329 <= i < 345 implies is_strict_digit(#[trigger] b[i]) by {
                assert(is_pax_numeric_byte(b[i]));
            }
        }
    }
}

/// A refused header is refused for the first thing that is wrong with it, and
/// with the words for that.
pub proof fn law_header_is_refused_with_reason(o: ArchiveOptions, b: Seq<u8>)
    requires
        b.len() == 512,
        header_refusal(o, b) is Some,
    ensures
        ({
            let message = header_refusal(o, b)->0.message;
            if parsed_octal(b.subrange(148, 156)) is None {
                Err::<u32, ErrorView>(header_refusal(o, b)->0) == header_cksum(b)
            } else if parsed_octal(b.subrange(148, 156))->0 as u32 != sum_with_blanks(b) {
                message == "archive header checksum mismatch"@
            } else if says_ustar_without_version(b) {
                message == "NUL-version USTAR header is ambiguous and not supported"@
            } else {
                o.pax_only && message == "archive header is not allowed by pax-only mode"@
            }
        }),
{
    law_form_is_told_by_magic(b);
    law_checksum_is_the_sum(b);
}

/// A number is written to a field of 8 or 12 bytes in octal digits, zeros first,
/// with a zero byte behind them, where they suffice: below 2^21 in 8 bytes and
/// below 2^33 in 12. Any other number is written in base 256, with the high bit of
/// the field set.
pub proof fn law_number_is_written(n: u64, len: nat)
    requires
        len == 8 || len == 12,
    ensures
        ({
            let f = numeric_field(n as nat, len);
            let fits = n < 0x20_0000 || len == 12 && n < 0x2_0000_0000;
            &&& f.len() == len
            &&& fits ==> f[len - 1] == 0 && holds_octal(f, 0, len - 1, len - 1) && number_in_base(
                f.take(len - 1),
                8,
            ) == n
            &&& !fits ==> f[0] >= 128
            &&& !fits && (len == 12 || n < 0x8000_0000_0000_0000) ==> parsed_numeric(f) == Some(n)
        }),
{
    let f = numeric_field(n as nat, len);
    crate::number::lemma_numeric_field_form(n as nat, len);
    crate::number::lemma_pow_values();
    if n < crate::number::octal_limit(len) {
        let digits = crate::number::octal(n as nat, (len - 1) as nat);
        crate::number::lemma_octal(n as nat, (len - 1) as nat);
        assert(f.take(len - 1) =~= digits);
        lemma_octal_is_fold(digits);
        assert forall|i: int| 0 <= i < len - 1 implies '0' as u8 <= #[trigger] f[i] <= '7' as u8 by {
            assert(f[i] == digits[i]);
        }
    } else if len == 12 || n < 0x8000_0000_0000_0000 {
        crate::number::lemma_numeric_field(n as nat, len);
    }
}

/// The permissions of a header, and its checksum, are written in octal digits, zeros
/// first, with a zero byte behind them; what does not fit in the digits is lost.
pub proof fn law_octal_is_written(n: nat, len: nat)
    requires
        len == 8 || len == 12,
    ensures
        ({
            let f = octal_field(n, len);
            &&& f.len() == len
            &&& f[len - 1] == 0
            &&& holds_octal(f, 0, len - 1, len - 1)
            &&& number_in_base(f.take(len - 1), 8) == n % (if len == 8 {
                0x20_0000
            } else {
                0x2_0000_0000nat
            })
        }),
{
    let f = octal_field(n, len);
    let k = (len - 1) as nat;
    crate::number::lemma_pow_values();
    crate::number::lemma_octal_truncates(n, k);
    let m = n % pow8(k);
    let digits = crate::number::octal(n, k);
    crate::number::lemma_octal(m, k);
    assert(m < pow8(k));
    assert(f.take(len - 1) =~= digits);
    lemma_octal_is_fold(digits);
    assert forall|i: int| 0 <= i < len - 1 implies '0' as u8 <= #[trigger] f[i] <= '7' as u8 by {
        assert(f[i] == digits[i]);
    }
}

/// A header whose checksum was set has the right one, and nothing else of it has
/// changed.
pub proof fn law_checksum_is_set(b: Seq<u8>)
    requires
        b.len() == 512,
    ensures
        ({
            let h = with_cksum(b);
            &&& h.len() == 512
            &&& parsed_octal(h.subrange(148, 156)) matches Some(n) && n == sum_with_blanks(b) && n
                == sum_with_blanks(h)
            &&& forall|i: int| 0 <= i < 148 || 156 <= i < 512 ==> #[trigger] h[i] == b[i]
        }),
{
    let h = with_cksum(b);
    crate::facts::lemma_with_cksum(b);
    law_checksum_is_the_sum(b);
    law_checksum_is_the_sum(h);
    crate::bytes::lemma_sum_bound(b.take(148));
    crate::bytes::lemma_sum_bound(b.skip(156));
    crate::number::lemma_pow_values();
    crate::number::lemma_octal_field(checksum(b), 8);
    crate::bytes::lemma_field_put_same(b, 148, octal_field(checksum(b), 8));
}

/// The name of the owner or of the group can be put in a header if and only if the
/// header is of a form that has room for it and it has up to 32 bytes, none of them
/// zero. It is then read back, and no byte outside its field changes.
pub proof fn law_owner_name_is_put(b: Seq<u8>, name: Seq<u8>)
    requires
        b.len() == 512,
    ensures
        ({
            let has_room = says_ustar(b) || says_gnu(b);
            let fits = has_room && name.len() <= 32 && forall|i: int|
                0 <= i < name.len() ==> #[trigger] name[i] != 0;
            let u = put(b, 265, slot_text(name, 32));
            let g = put(b, 297, slot_text(name, 32));
            &&& username_refusal(b, name) is None <==> fits
            &&& groupname_refusal(b, name) is None <==> fits
            &&& !has_room ==> username_refusal(b, name)
                == Some("not a ustar or gnu archive, cannot set username"@)
            &&& !has_room ==> groupname_refusal(b, name)
                == Some("not a ustar or gnu archive, cannot set groupname"@)
            &&& has_room && name.len() > 32 ==> username_refusal(b, name)
                == Some("provided value is too long"@) && groupname_refusal(b, name)
                == username_refusal(b, name)
            &&& fits ==> header_username(u) == Some(name) && header_groupname(g) == Some(name)
            &&& fits ==> forall|i: int|
                0 <= i < 265 || 297 <= i < 512 ==> #[trigger] u[i] == b[i]
            &&& fits ==> forall|i: int|
                0 <= i < 297 || 329 <= i < 512 ==> #[trigger] g[i] == b[i]
        }),
{
    law_form_is_told_by_magic(b);
    if username_refusal(b, name) is None {
        law_texts_are_read_back(b, name);
        assert forall|i: int| 0 <= i < name.len() implies #[trigger] name[i] != 0 by {
            assert(name.contains(name[i]));
        }
    }
}

/// Where a numeric field of a header holds no number, the failure tells what the
/// field holds up to its first zero byte, which field it is and the path of the
/// member.
pub proof fn law_bad_number_is_told(b: Seq<u8>, at: int, len: int, held: Seq<u8>, what: Seq<char>)
    requires
        b.len() == 512,
        0 <= at,
        0 <= len,
        at + len <= 512,
        holds_text(b, at, len, held),
    ensures
        ({
            let message = (if valid_utf8(held) {
                "numeric field was not a number: "@
            } else {
                "numeric field did not have utf-8 text: "@
            }) + lossy(held) + " when getting "@ + what + " for "@ + lossy(header_path(b));
            &&& numeric_at(b, at, len, what) matches Err(err) ==> err == failure(message)
            &&& octal_at(b, at, len, what) matches Err(err) ==> err == failure(message)
        }),
        header_size(b) == numeric_at(b, 124, 12, "size"@),
        header_uid(b) == numeric_at(b, 108, 8, "uid"@),
        header_gid(b) == numeric_at(b, 116, 8, "gid"@),
        header_mtime(b) == numeric_at(b, 136, 12, "mtime"@),
        header_mode(b) matches Err(err) ==> octal_at(b, 100, 8, "mode"@) == Err::<u64, ErrorView>(
            err,
        ),
        header_cksum(b) matches Err(err) ==> octal_at(b, 148, 8, "cksum"@) == Err::<u64, ErrorView>(
            err,
        ),
{
    lemma_text_is_held(b, at, len, held);
}

} // verus!
