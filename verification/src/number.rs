//! Numbers as archives write them: decimal text, octal text, and the binary
//! form of numbers that octal text cannot hold.

use crate::bytes::{find_byte, lemma_first_of, lemma_first_of_is, until_nul};
use vstd::prelude::*;

verus! {

/// Whether every byte of `s` is a decimal digit.
pub open spec fn is_decimal(s: Seq<u8>) -> bool {
    forall|i: int| 0 <= i < s.len() ==> 48 <= #[trigger] s[i] <= 57
}

/// The number that the decimal digits `s` stand for.
pub open spec fn decimal_value(s: Seq<u8>) -> nat
    decreases s.len(),
{
    if s.len() == 0 {
        0
    } else {
        decimal_value(s.drop_last()) * 10 + (s.last() - 48) as nat
    }
}

/// The decimal digits of `n`, without leading zeros.
pub open spec fn decimal(n: nat) -> Seq<u8>
    decreases n,
{
    if n < 10 {
        seq![(48 + n) as u8]
    } else {
        decimal(n / 10).push((48 + n % 10) as u8)
    }
}

/// The number that `s` gives, where `s` is one or more decimal digits of a
/// number below 2^64.
pub open spec fn parsed_decimal(s: Seq<u8>) -> Option<u64> {
    if s.len() > 0 && is_decimal(s) && decimal_value(s) <= u64::MAX {
        Some(decimal_value(s) as u64)
    } else {
        None
    }
}

/// Whether every byte of `s` is an octal digit.
pub open spec fn is_octal(s: Seq<u8>) -> bool {
    forall|i: int| 0 <= i < s.len() ==> 48 <= #[trigger] s[i] <= 55
}

/// The number that the octal digits `s` stand for.
pub open spec fn octal_value(s: Seq<u8>) -> nat
    decreases s.len(),
{
    if s.len() == 0 {
        0
    } else {
        octal_value(s.drop_last()) * 8 + (s.last() - 48) as nat
    }
}

/// The last `digits` octal digits of `n`.
pub open spec fn octal(n: nat, digits: nat) -> Seq<u8>
    decreases digits,
{
    if digits == 0 {
        Seq::empty()
    } else {
        octal(n / 8, (digits - 1) as nat).push((48 + n % 8) as u8)
    }
}

/// Eight to the power of `k`.
pub open spec fn pow8(k: nat) -> nat
    decreases k,
{
    if k == 0 {
        1
    } else {
        8 * pow8((k - 1) as nat)
    }
}

/// The number that the bytes `s` stand for, the most significant one first.
pub open spec fn binary_value(s: Seq<u8>) -> nat
    decreases s.len(),
{
    if s.len() == 0 {
        0
    } else {
        binary_value(s.drop_last()) * 256 + s.last() as nat
    }
}

/// The last `bytes` bytes of the binary form of `n`, the most significant one
/// first.
pub open spec fn binary(n: nat, bytes: nat) -> Seq<u8>
    decreases bytes,
{
    if bytes == 0 {
        Seq::empty()
    } else {
        binary(n / 256, (bytes - 1) as nat).push((n % 256) as u8)
    }
}

/// 256 to the power of `k`.
pub open spec fn pow256(k: nat) -> nat
    decreases k,
{
    if k == 0 {
        1
    } else {
        256 * pow256((k - 1) as nat)
    }
}

/// Whether a byte counts as a space around a number.
pub open spec fn is_space(b: u8) -> bool {
    b == 32 || 9 <= b <= 13
}

/// `s` without the white space at its front.
pub open spec fn trim_front(s: Seq<u8>) -> Seq<u8>
    decreases s.len(),
{
    if s.len() > 0 && is_space(s[0]) {
        trim_front(s.skip(1))
    } else {
        s
    }
}

/// `s` without the white space at its end.
pub open spec fn trim_back(s: Seq<u8>) -> Seq<u8>
    decreases s.len(),
{
    if s.len() > 0 && is_space(s.last()) {
        trim_back(s.drop_last())
    } else {
        s
    }
}

/// An octal header field: digits, filled up with zeros at the front, and a
/// zero byte. Digits that do not fit are left out.
pub open spec fn octal_field(n: nat, len: nat) -> Seq<u8> {
    octal(n, (len - 1) as nat).push(0)
}

/// The text of an octal header field: what stands before the first zero byte,
/// without surrounding white space.
pub open spec fn octal_text(s: Seq<u8>) -> Seq<u8> {
    trim_back(trim_front(until_nul(s)))
}

/// The number in an octal header field.
pub open spec fn parsed_octal(s: Seq<u8>) -> Option<u64> {
    let text = octal_text(s);
    if text.len() > 0 && is_octal(text) {
        Some(octal_value(text) as u64)
    } else {
        None
    }
}

/// The first number that an octal field of `len` bytes is not used for.
pub open spec fn octal_limit(len: nat) -> nat {
    if len == 8 {
        0x20_0000
    } else {
        0x2_0000_0000
    }
}

/// The binary form of a header field: the bytes of the number, the most
/// significant one first, with the high bit of the first byte of the field set.
pub open spec fn binary_field(n: nat, len: nat) -> Seq<u8> {
    let plain = Seq::new((len - 8) as nat, |i: int| 0u8) + binary(n, 8);
    plain.update(
        0,
        if plain[0] >= 128 {
            plain[0]
        } else {
            (plain[0] + 128) as u8
        },
    )
}

/// Whether a header field is in binary form.
pub open spec fn is_binary_field(s: Seq<u8>) -> bool {
    s.len() > 0 && s[0] >= 128
}

/// The number in a header field in binary form. Of a field longer than eight
/// bytes the last eight count.
pub open spec fn parsed_binary(s: Seq<u8>) -> u64 {
    if s.len() == 8 {
        binary_value(s.update(0, (s[0] - 128) as u8)) as u64
    } else {
        binary_value(s.skip(s.len() - 8)) as u64
    }
}

/// A numeric header field: octal where the number fits, else binary.
pub open spec fn numeric_field(n: nat, len: nat) -> Seq<u8> {
    if n >= octal_limit(len) {
        binary_field(n, len)
    } else {
        octal_field(n, len)
    }
}

/// The number in a numeric header field.
pub open spec fn parsed_numeric(s: Seq<u8>) -> Option<u64> {
    if is_binary_field(s) {
        Some(parsed_binary(s))
    } else {
        parsed_octal(s)
    }
}

/// Decimal digits are read back.
pub proof fn lemma_decimal(n: nat)
    ensures
        decimal(n).len() > 0,
        is_decimal(decimal(n)),
        decimal_value(decimal(n)) == n,
    decreases n,
{
    if n < 10 {
        let s = decimal(n);
        assert(s.drop_last() =~= Seq::<u8>::empty());
        assert(decimal_value(s.drop_last()) == 0);
    } else {
        lemma_decimal(n / 10);
        assert(decimal(n).drop_last() =~= decimal(n / 10));
    }
}

/// The number of the first digits is at most that of all.
pub proof fn lemma_decimal_value_prefix(s: Seq<u8>, k: int)
    requires
        0 <= k <= s.len(),
        is_decimal(s),
    ensures
        decimal_value(s.take(k)) <= decimal_value(s),
    decreases s.len() - k,
{
    if k == s.len() {
        assert(s.take(k) =~= s);
    } else {
        lemma_decimal_value_prefix(s, k + 1);
        assert(s.take(k + 1).drop_last() =~= s.take(k));
        assert(s.take(k + 1).last() == s[k]);
    }
}

/// Octal digits are read back.
pub proof fn lemma_octal(n: nat, digits: nat)
    ensures
        octal(n, digits).len() == digits,
        is_octal(octal(n, digits)),
        n < pow8(digits) ==> octal_value(octal(n, digits)) == n,
    decreases digits,
{
    if digits > 0 {
        lemma_octal(n / 8, (digits - 1) as nat);
        assert(octal(n, digits).drop_last() =~= octal(n / 8, (digits - 1) as nat));
    }
}

/// Octal digits are those of the number without what they do not hold.
pub proof fn lemma_octal_truncates(n: nat, digits: nat)
    ensures
        pow8(digits) > 0,
        octal(n, digits) == octal(n % pow8(digits), digits),
    decreases digits,
{
    if digits > 0 {
        let p = pow8((digits - 1) as nat);
        lemma_octal_truncates(n / 8, (digits - 1) as nat);
        vstd::arithmetic::div_mod::lemma_mod_breakdown(n as int, 8, p as int);
        let m = n % pow8(digits);
        assert(m == 8 * ((n / 8) % p) + n % 8);
        assert(m / 8 == (n / 8) % p);
        assert(m % 8 == n % 8);
    }
}

/// The number of octal digits is bounded by how many they are.
pub proof fn lemma_octal_value_bound(s: Seq<u8>)
    requires
        is_octal(s),
    ensures
        octal_value(s) < pow8(s.len()),
    decreases s.len(),
{
    if s.len() > 0 {
        lemma_octal_value_bound(s.drop_last());
    }
}

/// Powers of eight grow.
pub proof fn lemma_pow8_monotone(a: nat, b: nat)
    requires
        a <= b,
    ensures
        pow8(a) <= pow8(b),
    decreases b,
{
    if a < b {
        lemma_pow8_monotone(a, (b - 1) as nat);
    }
}

/// Binary digits are read back.
pub proof fn lemma_binary(n: nat, bytes: nat)
    ensures
        binary(n, bytes).len() == bytes,
        n < pow256(bytes) ==> binary_value(binary(n, bytes)) == n,
    decreases bytes,
{
    if bytes > 0 {
        lemma_binary(n / 256, (bytes - 1) as nat);
        assert(binary(n, bytes).drop_last() =~= binary(n / 256, (bytes - 1) as nat));
    }
}

/// The number of bytes is bounded by how many they are.
pub proof fn lemma_binary_value_bound(s: Seq<u8>)
    ensures
        binary_value(s) < pow256(s.len()),
    decreases s.len(),
{
    if s.len() > 0 {
        lemma_binary_value_bound(s.drop_last());
    }
}

/// The powers that header fields need.
pub proof fn lemma_pow_values()
    ensures
        pow8(7) == 0x20_0000,
        pow8(11) == 0x2_0000_0000,
        pow8(20) <= u64::MAX,
        pow256(8) == u64::MAX + 1,
        pow256(7) * 128 == 0x8000_0000_0000_0000,
{
    reveal_with_fuel(pow8, 21);
    reveal_with_fuel(pow256, 9);
}

/// The first byte of a binary number below 2^63 has its high bit clear.
proof fn lemma_binary_first(n: nat)
    requires
        n < 0x8000_0000_0000_0000,
    ensures
        binary(n, 8)[0] < 128,
{
    reveal_with_fuel(binary, 9);
    assert(binary(n, 8).len() == 8) by {
        lemma_binary(n, 8);
    }
    let top = n / 256 / 256 / 256 / 256 / 256 / 256 / 256;
    assert(top < 128);
    assert(binary(n, 8)[0] == (top % 256) as u8);
}

/// An octal field gives back its number.
pub proof fn lemma_octal_field(n: nat, len: nat)
    requires
        2 <= len <= 20,
        n < pow8((len - 1) as nat),
    ensures
        octal_field(n, len).len() == len,
        parsed_octal(octal_field(n, len)) == Some(n as u64),
        n <= u64::MAX,
        !is_binary_field(octal_field(n, len)),
{
    let f = octal_field(n, len);
    let digits = octal(n, (len - 1) as nat);
    lemma_octal(n, (len - 1) as nat);
    assert(forall|j: int| 0 <= j < len - 1 ==> f[j] == digits[j]);
    lemma_first_of_is(f, 0, len - 1);
    assert(until_nul(f) =~= digits);
    assert(48 <= digits[0] <= 55);
    assert(48 <= digits[len - 2] <= 55);
    lemma_pow8_monotone((len - 1) as nat, 20);
    lemma_pow_values();
}

/// A numeric field gives back its number. A field of eight bytes cannot hold
/// the numbers from 2^63 on.
pub proof fn lemma_numeric_field(n: nat, len: nat)
    requires
        len == 8 || len == 12,
        n <= u64::MAX,
        len == 8 ==> n < 0x8000_0000_0000_0000,
    ensures
        numeric_field(n, len).len() == len,
        parsed_numeric(numeric_field(n, len)) == Some(n as u64),
        is_binary_field(numeric_field(n, len)) == (n >= octal_limit(len)),
{
    lemma_pow_values();
    if n < octal_limit(len) {
        lemma_octal_field(n, len);
    } else {
        let plain = Seq::new((len - 8) as nat, |i: int| 0u8) + binary(n, 8);
        let f = binary_field(n, len);
        lemma_binary(n, 8);
        if len == 8 {
            lemma_binary_first(n);
            assert(plain =~= binary(n, 8));
            assert(f.update(0, (f[0] - 128) as u8) =~= binary(n, 8));
        } else {
            assert(f.skip(4) =~= binary(n, 8));
        }
    }
}

/// The length and the form of a numeric field, for every number.
pub proof fn lemma_numeric_field_form(n: nat, len: nat)
    requires
        len == 8 || len == 12,
        n <= u64::MAX,
    ensures
        numeric_field(n, len).len() == len,
        is_binary_field(numeric_field(n, len)) == (n >= octal_limit(len)),
{
    lemma_pow_values();
    if n < octal_limit(len) {
        lemma_octal_field(n, len);
    } else {
        lemma_binary(n, 8);
    }
}

/// Ten to the power of `k`.
pub open spec fn pow10(k: nat) -> nat
    decreases k,
{
    if k == 0 {
        1
    } else {
        10 * pow10((k - 1) as nat)
    }
}

/// A number below ten to the power of `k` has at most `k` digits.
pub proof fn lemma_decimal_len(n: nat, k: nat)
    requires
        n < pow10(k),
        k >= 1,
    ensures
        decimal(n).len() <= k,
    decreases k,
{
    if n >= 10 {
        assert(k >= 2) by {
            if k == 1 {
                assert(pow10(1) == 10 * pow10(0));
            }
        }
        lemma_decimal_len(n / 10, (k - 1) as nat);
    }
}

/// A larger number has no fewer digits.
pub proof fn lemma_decimal_len_monotone(m: nat, n: nat)
    requires
        m <= n,
    ensures
        decimal(m).len() <= decimal(n).len(),
    decreases n,
{
    if n < 10 {
    } else if m < 10 {
        lemma_decimal(n / 10);
    } else {
        lemma_decimal_len_monotone(m / 10, n / 10);
    }
}

/// The decimal digits of `n`.
pub(crate) fn decimal_text(n: u128) -> (text: Vec<u8>)
    ensures
        text@ == decimal(n as nat),
    decreases n,
{
    if n < 10 {
        let mut text: Vec<u8> = Vec::new();
        text.push(48 + n as u8);
        assert(text@ =~= decimal(n as nat));
        text
    } else {
        let mut text: Vec<u8> = decimal_text(n / 10);
        text.push(48 + (n % 10) as u8);
        text
    }
}

/// Reads decimal digits.
pub(crate) fn parse_decimal(s: &[u8]) -> (value: Option<u64>)
    ensures
        value == parsed_decimal(s@),
{
    if s.len() == 0 {
        return None;
    }
    let mut value: u64 = 0;
    let mut fits: bool = true;
    let mut i: usize = 0;
    while i < s.len()
        invariant
            i <= s@.len(),
            is_decimal(s@.take(i as int)),
            fits ==> value == decimal_value(s@.take(i as int)),
            !fits ==> decimal_value(s@.take(i as int)) > u64::MAX,
        decreases s@.len() - i,
    {
        let b = s[i];
        if b < 48 || b > 57 {
            assert(!(48 <= s@[i as int] <= 57));
            return None;
        }
        proof {
            let next = s@.take(i + 1);
            assert(next.drop_last() =~= s@.take(i as int));
            assert(next.last() == b);
            assert forall|j: int| 0 <= j < next.len() implies 48 <= #[trigger] next[j] <= 57 by {
                if j < i {
                    assert(s@.take(i as int)[j] == next[j]);
                }
            }
        }
        if fits {
            match value.checked_mul(10) {
                Some(tens) => match tens.checked_add((b - 48) as u64) {
                    Some(next) => {
                        value = next;
                    },
                    None => {
                        fits = false;
                    },
                },
                None => {
                    fits = false;
                },
            }
        }
        i = i + 1;
    }
    assert(s@.take(s@.len() as int) =~= s@);
    if fits {
        Some(value)
    } else {
        None
    }
}

fn octal_digits(n: u64, digits: usize) -> (text: Vec<u8>)
    ensures
        text@ == octal(n as nat, digits as nat),
    decreases digits,
{
    if digits == 0 {
        Vec::new()
    } else {
        let mut text: Vec<u8> = octal_digits(n / 8, digits - 1);
        text.push(48 + (n % 8) as u8);
        text
    }
}

/// The octal header field of `len` bytes for `n`.
pub(crate) fn octal_bytes(n: u64, len: usize) -> (out: Vec<u8>)
    requires
        len > 0,
    ensures
        out@ == octal_field(n as nat, len as nat),
{
    let mut out: Vec<u8> = octal_digits(n, len - 1);
    out.push(0u8);
    out
}

fn binary_bytes(n: u64, bytes: usize) -> (out: Vec<u8>)
    ensures
        out@ == binary(n as nat, bytes as nat),
    decreases bytes,
{
    if bytes == 0 {
        Vec::new()
    } else {
        let mut out: Vec<u8> = binary_bytes(n / 256, bytes - 1);
        out.push((n % 256) as u8);
        out
    }
}

/// The numeric header field of `len` bytes for `n`.
pub(crate) fn numeric_bytes(n: u64, len: usize) -> (out: Vec<u8>)
    requires
        len == 8 || len == 12,
    ensures
        out@ == numeric_field(n as nat, len as nat),
{
    if n >= 0x2_0000_0000 || (n >= 0x20_0000 && len == 8) {
        let mut out: Vec<u8> = Vec::new();
        crate::bytes::append_zeros(&mut out, (len - 8) as u64);
        let low: Vec<u8> = binary_bytes(n, 8);
        crate::bytes::append_bytes(&mut out, low.as_slice());
        proof {
            lemma_binary(n as nat, 8);
            assert(out@ =~= Seq::new((len - 8) as nat, |i: int| 0u8) + binary(n as nat, 8));
        }
        if out[0] < 128 {
            let first = out[0] + 128;
            out[0] = first;
        } else {
            assert(out@.update(0, out@[0]) =~= out@);
        }
        out
    } else {
        octal_bytes(n, len)
    }
}

/// Reads an octal header field.
pub(crate) fn parse_octal(s: &[u8]) -> (value: Option<u64>)
    requires
        s@.len() <= 20,
    ensures
        value == parsed_octal(s@),
{
    let mut end: usize = find_byte(s, 0);
    let mut start: usize = 0;
    proof {
        lemma_first_of(s@, 0);
        assert(s@.subrange(0, end as int) =~= until_nul(s@));
    }
    while start < end && (s[start] == 32 || (9 <= s[start] && s[start] <= 13))
        invariant
            start <= end <= s@.len(),
            trim_front(s@.subrange(start as int, end as int)) == trim_front(until_nul(s@)),
        decreases end - start,
    {
        assert(s@.subrange(start as int, end as int).skip(1) =~= s@.subrange(
            start + 1,
            end as int,
        ));
        start = start + 1;
    }
    let ghost front = s@.subrange(start as int, end as int);
    assert(trim_front(front) == front);
    while start < end && (s[end - 1] == 32 || (9 <= s[end - 1] && s[end - 1] <= 13))
        invariant
            start <= end <= s@.len(),
            trim_back(s@.subrange(start as int, end as int)) == octal_text(s@),
        decreases end - start,
    {
        assert(s@.subrange(start as int, end as int).drop_last() =~= s@.subrange(
            start as int,
            end - 1,
        ));
        end = end - 1;
    }
    let ghost text = s@.subrange(start as int, end as int);
    assert(trim_back(text) == text);
    if start == end {
        return None;
    }
    let mut value: u64 = 0;
    let mut i: usize = start;
    assert(s@.subrange(start as int, i as int) =~= Seq::<u8>::empty());
    proof {
        lemma_pow_values();
    }
    while i < end
        invariant
            start <= i <= end <= s@.len() <= 20,
            text == s@.subrange(start as int, end as int),
            octal_text(s@) == text,
            start < end,
            is_octal(s@.subrange(start as int, i as int)),
            value == octal_value(s@.subrange(start as int, i as int)),
            pow8(20) <= u64::MAX,
        decreases end - i,
    {
        let b = s[i];
        if b < 48 || b > 55 {
            assert(text[i - start] == b);
            return None;
        }
        let ghost part = s@.subrange(start as int, i as int);
        let ghost next = s@.subrange(start as int, i + 1);
        proof {
            assert(next.drop_last() =~= part);
            assert(next.last() == b);
            assert forall|j: int| 0 <= j < next.len() implies 48 <= #[trigger] next[j] <= 55 by {
                if j < part.len() {
                    assert(part[j] == next[j]);
                }
            }
            lemma_octal_value_bound(next);
            lemma_pow8_monotone(next.len(), 20);
        }
        value = value * 8 + (b - 48) as u64;
        i = i + 1;
    }
    Some(value)
}

/// Reads a numeric header field.
pub(crate) fn parse_numeric(s: &[u8]) -> (value: Option<u64>)
    requires
        8 <= s@.len() <= 20,
    ensures
        value == parsed_numeric(s@),
{
    if s[0] < 128 {
        return parse_octal(s);
    }
    let ghost bits = if s@.len() == 8 {
        s@.update(0, (s@[0] - 128) as u8)
    } else {
        s@.skip(s@.len() - 8)
    };
    let from: usize = s.len() - 8;
    let mut value: u64 = 0;
    let mut i: usize = from;
    proof {
        lemma_pow_values();
        assert(bits.take(0) =~= Seq::<u8>::empty());
    }
    while i < s.len()
        invariant
            from <= i <= s@.len(),
            from == s@.len() - 8,
            bits.len() == 8,
            s@[0] >= 128,
            s@.len() == 8 ==> bits == s@.update(0, (s@[0] - 128) as u8),
            s@.len() > 8 ==> bits == s@.skip(s@.len() - 8),
            value == binary_value(bits.take(i - from)),
            pow256(8) == u64::MAX + 1,
        decreases s@.len() - i,
    {
        let b = if i == 0 {
            s[0] - 128
        } else {
            s[i]
        };
        proof {
            let next = bits.take(i - from + 1);
            assert(next.drop_last() =~= bits.take(i - from));
            assert(next.last() == b);
            lemma_binary_value_bound(next);
            lemma_pow256_monotone(next.len(), 8);
        }
        value = value * 256 + b as u64;
        i = i + 1;
    }
    assert(bits.take(8) =~= bits);
    Some(value)
}

proof fn lemma_pow256_monotone(a: nat, b: nat)
    requires
        a <= b,
    ensures
        pow256(a) <= pow256(b),
    decreases b,
{
    if a < b {
        lemma_pow256_monotone(a, (b - 1) as nat);
    }
}

} // verus!
