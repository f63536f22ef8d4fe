//! Text and bytes.

use vstd::prelude::*;
use vstd::utf8::{
    decode_first_scalar, decode_utf8, is_char_boundary, is_continuation_byte, pop_first_scalar,
    valid_utf8,
};

verus! {

/// The text that `String::from_utf8_lossy` makes of bytes.
pub uninterp spec fn lossy(bytes: Seq<u8>) -> Seq<char>;

/// `str::from_utf8`: bytes are text exactly where they are valid UTF-8, and
/// the text is then the one that they encode.
#[verifier::external_body]
pub(crate) fn utf8_text(bytes: &[u8]) -> (text: Option<&str>)
    ensures
        text is Some == valid_utf8(bytes@),
        text matches Some(t) ==> t@ == decode_utf8(bytes@),
{
    std::str::from_utf8(bytes).ok()
}

/// `String::from_utf8_lossy`: the text for bytes that need not be valid
/// UTF-8. Valid bytes give the text that they encode; what stands for the
/// invalid ones is left to the name [`lossy`].
#[verifier::external_body]
pub(crate) fn lossy_text(bytes: &[u8]) -> (text: String)
    ensures
        text@ == lossy(bytes@),
        valid_utf8(bytes@) ==> text@ == decode_utf8(bytes@),
{
    String::from_utf8_lossy(bytes).into_owned()
}

/// Whether a character is a Unicode control character (category `Cc`).
pub open spec fn is_control_char(c: char) -> bool {
    (c as u32) <= 0x1f || 0x7f <= (c as u32) <= 0x9f
}

/// Whether text has a control character.
pub open spec fn has_control(t: Seq<char>) -> bool {
    exists|i: int| 0 <= i < t.len() && is_control_char(#[trigger] t[i])
}

/// Whether bytes are UTF-8 text without control characters.
pub open spec fn is_plain(b: Seq<u8>) -> bool {
    valid_utf8(b) && !has_control(decode_utf8(b))
}

proof fn lemma_decode_concat(a: Seq<u8>, b: Seq<u8>)
    requires
        valid_utf8(a),
        valid_utf8(b),
    ensures
        valid_utf8(a + b),
        decode_utf8(a + b) == decode_utf8(a) + decode_utf8(b),
    decreases a.len(),
{
    vstd::utf8::valid_utf8_concat(a, b);
    if a.len() == 0 {
        assert(a + b =~= b);
        assert(decode_utf8(a) + decode_utf8(b) =~= decode_utf8(b));
    } else {
        let rest = pop_first_scalar(a);
        assert(rest.len() < a.len());
        lemma_decode_concat(rest, b);
        assert(pop_first_scalar(a + b) =~= rest + b);
        assert(decode_first_scalar(a + b) == decode_first_scalar(a));
        assert(decode_utf8(a + b) =~= decode_utf8(a) + decode_utf8(b));
    }
}

/// Plain texts behind each other are a plain text.
pub proof fn lemma_plain_concat(a: Seq<u8>, b: Seq<u8>)
    requires
        is_plain(a),
        is_plain(b),
    ensures
        is_plain(a + b),
{
    lemma_decode_concat(a, b);
    let whole = decode_utf8(a + b);
    let front = decode_utf8(a);
    if has_control(whole) {
        let i = choose|i: int| 0 <= i < whole.len() && is_control_char(#[trigger] whole[i]);
        if i < front.len() {
            assert(is_control_char(front[i]));
        } else {
            assert(is_control_char(decode_utf8(b)[i - front.len()]));
        }
    }
}

/// The two sides of a slash in a plain text are plain.
pub proof fn lemma_plain_split(p: Seq<u8>, k: int)
    requires
        is_plain(p),
        0 <= k < p.len(),
        p[k] == 47,
    ensures
        is_plain(p.take(k)),
        is_plain(p.skip(k + 1)),
{
    assert(!is_continuation_byte(p[k]));
    vstd::utf8::is_char_boundary_iff_not_is_continuation_byte(p, k);
    assert(is_char_boundary(p, k));
    vstd::utf8::valid_utf8_split(p, k);
    vstd::utf8::decode_utf8_split(p, k);
    let front = p.subrange(0, k);
    let back = p.subrange(k, p.len() as int);
    assert(front =~= p.take(k));
    assert(back[0] == 47);
    assert(pop_first_scalar(back) =~= p.skip(k + 1));
    let rest = p.skip(k + 1);
    let all = decode_utf8(p);
    assert(all == decode_utf8(front) + decode_utf8(back));
    assert(decode_utf8(back) == seq![decode_first_scalar(back) as char] + decode_utf8(rest));
    if has_control(decode_utf8(front)) {
        let i = choose|i: int|
            0 <= i < decode_utf8(front).len() && is_control_char(#[trigger] decode_utf8(front)[i]);
        assert(is_control_char(all[i]));
    }
    if has_control(decode_utf8(rest)) {
        let i = choose|i: int|
            0 <= i < decode_utf8(rest).len() && is_control_char(#[trigger] decode_utf8(rest)[i]);
        assert(is_control_char(all[decode_utf8(front).len() + 1 + i]));
    }
}

/// A slash is plain, and so is a dot.
pub proof fn lemma_plain_marks()
    ensures
        is_plain(Seq::<u8>::empty()),
        is_plain(seq![47u8]),
        is_plain(seq![46u8]),
{
    let slash = seq![47u8];
    let dot = seq![46u8];
    let none = Seq::<u8>::empty();
    assert(valid_utf8(none) && decode_utf8(none).len() == 0);
    assert(pop_first_scalar(slash) =~= none);
    assert(pop_first_scalar(dot) =~= none);
    assert(47u8 & 0x7f == 47) by (bit_vector);
    assert(46u8 & 0x7f == 46) by (bit_vector);
    assert(decode_utf8(slash) =~= seq!['/']);
    assert(decode_utf8(dot) =~= seq!['.']);
    assert(decode_utf8(slash)[0] == '/' && decode_utf8(dot)[0] == '.');
}

/// Whether a character is a Unicode control character.
fn is_control(c: char) -> (control: bool)
    ensures
        control == is_control_char(c),
{
    let code: u32 = c as u32;
    code <= 0x1f || (0x7f <= code && code <= 0x9f)
}

/// Whether a text has a control character.
pub(crate) fn finds_control(text: &str) -> (found: bool)
    ensures
        found == has_control(text@),
{
    for c in it: text.chars()
        invariant
            it.seq() == text@,
            forall|i: int| 0 <= i < it.index() ==> !is_control_char(#[trigger] text@[i]),
    {
        if is_control(c) {
            assert(is_control_char(text@[it.index() as int]));
            return true;
        }
    }
    false
}

} // verus!
