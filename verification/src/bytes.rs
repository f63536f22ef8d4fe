//! Byte sequences: searching, replacing a field, and numbers in text.

use vstd::prelude::*;

verus! {

/// `s` with the bytes from `at` on replaced by `v`.
pub open spec fn put(s: Seq<u8>, at: int, v: Seq<u8>) -> Seq<u8> {
    Seq::new(
        s.len(),
        |i: int|
            if at <= i < at + v.len() {
                v[i - at]
            } else {
                s[i]
            },
    )
}

/// The `len` bytes of `s` that start at `at`.
pub open spec fn field(s: Seq<u8>, at: int, len: int) -> Seq<u8> {
    s.subrange(at, at + len)
}

/// `n` zero bytes.
pub open spec fn zeros(n: nat) -> Seq<u8> {
    Seq::new(n, |i: int| 0u8)
}

/// The position of the first `b` in `s`, or the length of `s` if there is none.
pub open spec fn first_of(s: Seq<u8>, b: u8) -> int
    decreases s.len(),
{
    if s.len() == 0 || s[0] == b {
        0
    } else {
        1 + first_of(s.skip(1), b)
    }
}

/// The bytes of `s` before its first zero byte.
pub open spec fn until_nul(s: Seq<u8>) -> Seq<u8> {
    s.take(first_of(s, 0))
}

/// The sum of the bytes of `s`.
pub open spec fn sum(s: Seq<u8>) -> nat
    decreases s.len(),
{
    if s.len() == 0 {
        0
    } else {
        sum(s.drop_last()) + s.last() as nat
    }
}

/// What optional bytes are.
pub open spec fn opt_bytes(v: Option<Vec<u8>>) -> Option<Seq<u8>> {
    match v {
        Some(bytes) => Some(bytes@),
        None => None,
    }
}

/// The first place of a byte holds the byte, and no place in front of it does.
pub proof fn lemma_first_of(s: Seq<u8>, b: u8)
    ensures
        0 <= first_of(s, b) <= s.len(),
        first_of(s, b) < s.len() ==> s[first_of(s, b)] == b,
        forall|j: int| 0 <= j < first_of(s, b) ==> s[j] != b,
    decreases s.len(),
{
    if s.len() != 0 && s[0] != b {
        lemma_first_of(s.skip(1), b);
        assert forall|j: int| 0 <= j < first_of(s, b) implies s[j] != b by {
            if j > 0 {
                assert(s.skip(1)[j - 1] == s[j]);
            }
        }
    }
}

/// A place that holds the byte, with none in front of it that does, is the first.
pub proof fn lemma_first_of_is(s: Seq<u8>, b: u8, k: int)
    requires
        0 <= k <= s.len(),
        k < s.len() ==> s[k] == b,
        forall|j: int| 0 <= j < k ==> s[j] != b,
    ensures
        first_of(s, b) == k,
{
    lemma_first_of(s, b);
    let f = first_of(s, b);
    if f < k {
        assert(s[f] != b);
    } else if k < f {
        assert(s[k] != b);
    }
}

/// A field that was put is read back.
pub broadcast proof fn lemma_field_put_same(s: Seq<u8>, at: int, v: Seq<u8>)
    requires
        0 <= at,
        at + v.len() <= s.len(),
    ensures
        #[trigger] field(put(s, at, v), at, v.len() as int) == v,
{
    assert(field(put(s, at, v), at, v.len() as int) =~= v);
}

/// A field keeps its bytes when another one is put.
pub broadcast proof fn lemma_field_put_other(s: Seq<u8>, at: int, v: Seq<u8>, from: int, len: int)
    requires
        0 <= from,
        0 <= len,
        from + len <= s.len(),
        from + len <= at || at + v.len() <= from,
    ensures
        #[trigger] field(put(s, at, v), from, len) == field(s, from, len),
{
    assert(field(put(s, at, v), from, len) =~= field(s, from, len));
}

/// The sum of bytes is bounded by their number.
pub proof fn lemma_sum_bound(s: Seq<u8>)
    ensures
        sum(s) <= 255 * s.len(),
    decreases s.len(),
{
    if s.len() != 0 {
        lemma_sum_bound(s.drop_last());
    }
}

/// The position of the first `b` in `s`, or the length of `s` if there is none.
pub(crate) fn find_byte(s: &[u8], b: u8) -> (at: usize)
    ensures
        at == first_of(s@, b),
{
    let mut i: usize = 0;
    while i < s.len()
        invariant
            i <= s@.len(),
            forall|j: int| 0 <= j < i ==> s@[j] != b,
        decreases s@.len() - i,
    {
        if s[i] == b {
            proof {
                lemma_first_of_is(s@, b, i as int);
            }
            return i;
        }
        i = i + 1;
    }
    proof {
        lemma_first_of_is(s@, b, i as int);
    }
    i
}

/// A copy of the bytes of `s` from `from` up to `to`.
pub(crate) fn copy_range(s: &[u8], from: usize, to: usize) -> (out: Vec<u8>)
    requires
        from <= to <= s@.len(),
    ensures
        out@ == s@.subrange(from as int, to as int),
{
    let mut out: Vec<u8> = Vec::new();
    append_range(&mut out, s, from, to);
    assert(out@ =~= s@.subrange(from as int, to as int));
    out
}

/// Appends the bytes of `s` from `from` up to `to`.
pub(crate) fn append_range(out: &mut Vec<u8>, s: &[u8], from: usize, to: usize)
    requires
        from <= to <= s@.len(),
    ensures
        final(out)@ == old(out)@ + s@.subrange(from as int, to as int),
{
    let mut i: usize = from;
    while i < to
        invariant
            from <= i <= to <= s@.len(),
            out@ == old(out)@ + s@.subrange(from as int, i as int),
        decreases to - i,
    {
        out.push(s[i]);
        i = i + 1;
        assert(out@ =~= old(out)@ + s@.subrange(from as int, i as int));
    }
    assert(out@ =~= old(out)@ + s@.subrange(from as int, to as int));
}

/// Appends all bytes of `s`.
pub(crate) fn append_bytes(out: &mut Vec<u8>, s: &[u8])
    ensures
        final(out)@ == old(out)@ + s@,
{
    append_range(out, s, 0, s.len());
    assert(s@.subrange(0, s@.len() as int) =~= s@);
}

/// Appends `n` zero bytes.
pub(crate) fn append_zeros(out: &mut Vec<u8>, n: u64)
    ensures
        final(out)@ == old(out)@ + zeros(n as nat),
{
    let mut i: u64 = 0;
    while i < n
        invariant
            i <= n,
            out@ == old(out)@ + zeros(i as nat),
        decreases n - i,
    {
        out.push(0u8);
        i = i + 1;
        assert(out@ =~= old(out)@ + zeros(i as nat));
    }
    assert(out@ =~= old(out)@ + zeros(n as nat));
}

/// Whether two byte sequences are the same.
pub(crate) fn same_bytes(a: &[u8], b: &[u8]) -> (same: bool)
    ensures
        same == (a@ == b@),
{
    if a.len() != b.len() {
        return false;
    }
    let mut i: usize = 0;
    while i < a.len()
        invariant
            a@.len() == b@.len(),
            i <= a@.len(),
            forall|j: int| 0 <= j < i ==> a@[j] == b@[j],
        decreases a@.len() - i,
    {
        if a[i] != b[i] {
            return false;
        }
        i = i + 1;
    }
    assert(a@ =~= b@);
    true
}

/// Whether `s` starts with `front`.
pub(crate) fn starts_with(s: &[u8], front: &[u8]) -> (yes: bool)
    ensures
        yes == front@.is_prefix_of(s@),
{
    if front.len() > s.len() {
        return false;
    }
    let part = vstd::slice::slice_subrange(s, 0, front.len());
    same_bytes(part, front)
}

/// The sum of the bytes of `s` from `from` up to `to`.
pub(crate) fn sum_range(s: &[u8], from: usize, to: usize) -> (total: u32)
    requires
        from <= to <= s@.len(),
        to - from <= 4096,
    ensures
        total == sum(s@.subrange(from as int, to as int)),
{
    let mut total: u32 = 0;
    let mut i: usize = from;
    assert(s@.subrange(from as int, i as int) =~= Seq::<u8>::empty());
    while i < to
        invariant
            from <= i <= to <= s@.len(),
            to - from <= 4096,
            total == sum(s@.subrange(from as int, i as int)),
            total <= 255 * (i - from),
        decreases to - i,
    {
        total = total + s[i] as u32;
        i = i + 1;
        proof {
            let part = s@.subrange(from as int, i as int);
            assert(part.drop_last() =~= s@.subrange(from as int, i - 1));
        }
    }
    total
}

} // verus!
