//! Names and link targets that are given as paths of Windows, where a backslash
//! separates names as a slash does.

use crate::error::{failure, other, Error};
use crate::name::{name_refusal, name_text, target_refusal, LinkTarget, Name};
use crate::text::{finds_control, has_control, is_control_char, utf8_text};
use vstd::prelude::*;
use vstd::utf8::{encode_scalar, encode_utf8};

verus! {

/// A text with a slash in place of each backslash.
pub open spec fn with_slashes(t: Seq<char>) -> Seq<char> {
    Seq::new(
        t.len(),
        |i: int|
            if t[i] == '\\' {
                '/'
            } else {
                t[i]
            },
    )
}

/// Bytes with a slash in place of each backslash.
pub open spec fn slashed(b: Seq<u8>) -> Seq<u8> {
    Seq::new(
        b.len(),
        |i: int|
            if b[i] == 92 {
                47u8
            } else {
                b[i]
            },
    )
}

/// Whether a path starts with a drive, as in `C:`.
pub open spec fn has_drive(t: Seq<char>) -> bool {
    &&& t.len() >= 2
    &&& 'A' <= t[0] <= 'Z' || 'a' <= t[0] <= 'z'
    &&& t[1] == ':'
}

/// Why a path cannot be the name of a member. No path with a drive is relative.
pub open spec fn windows_name_refusal(t: Seq<char>) -> Option<Seq<char>> {
    if !has_control(t) && has_drive(t) {
        Some("paths in archives must be relative"@)
    } else {
        name_refusal(encode_utf8(with_slashes(t)))
    }
}

/// A character has a byte for a backslash only where it is a backslash.
proof fn lemma_scalar_slashed(c: char)
    ensures
        slashed(encode_scalar(c as u32)) == encode_scalar(
            (if c == '\\' {
                '/'
            } else {
                c
            }) as u32,
        ),
{
    let v = c as u32;
    let b = encode_scalar(v);
    if v <= 0x7f {
        assert(v & 0x7f == v) by (bit_vector)
            requires
                v <= 0x7f,
        ;
        assert(47u32 & 0x7f == 47) by (bit_vector);
    } else {
        assert(0xc0 | ((v >> 6) & 0x1f) as u8 >= 0x80 && 0xe0 | ((v >> 12) & 0x0f) as u8 >= 0x80
            && 0xf0 | ((v >> 18) & 0x7) as u8 >= 0x80 && 0x80 | (v & 0x3f) as u8 >= 0x80 && 0x80 | ((v
            >> 6) & 0x3f) as u8 >= 0x80 && 0x80 | ((v >> 12) & 0x3f) as u8 >= 0x80) by (bit_vector);
        assert(forall|i: int| 0 <= i < b.len() ==> #[trigger] b[i] >= 0x80);
    }
    assert(slashed(b) =~= encode_scalar(
        (if c == '\\' {
            '/'
        } else {
            c
        }) as u32,
    ));
}

/// Slashes can be put into a text byte by byte.
proof fn lemma_slashed(t: Seq<char>)
    ensures
        encode_utf8(with_slashes(t)) == slashed(encode_utf8(t)),
    decreases t.len(),
{
    if t.len() > 0 {
        let rest = t.drop_first();
        lemma_scalar_slashed(t[0]);
        lemma_slashed(rest);
        assert(with_slashes(t).drop_first() =~= with_slashes(rest));
        assert(slashed(encode_utf8(t)) =~= slashed(encode_scalar(t[0] as u32)) + slashed(
            encode_utf8(rest),
        ));
    } else {
        assert(slashed(encode_utf8(t)) =~= encode_utf8(with_slashes(t)));
    }
}

/// A text with a slash in place of each backslash has the control characters
/// that it had.
pub proof fn law_slashes_are_no_controls(t: Seq<char>)
    ensures
        has_control(with_slashes(t)) == has_control(t),
{
    if has_control(t) {
        let i = choose|i: int| 0 <= i < t.len() && is_control_char(#[trigger] t[i]);
        assert(is_control_char(with_slashes(t)[i]));
    }
    if has_control(with_slashes(t)) {
        let i = choose|i: int| 0 <= i < t.len() && is_control_char(#[trigger] with_slashes(t)[i]);
        assert(is_control_char(t[i]));
    }
}

/// A text with a slash in place of each backslash.
pub fn forward_slashes(text: &str) -> (forward: String)
    ensures
        forward@ == with_slashes(text@),
{
    let bytes: &[u8] = text.as_bytes();
    let mut out: Vec<u8> = Vec::new();
    let mut i: usize = 0;
    while i < bytes.len()
        invariant
            i <= bytes@.len(),
            out@ == slashed(bytes@.take(i as int)),
        decreases bytes@.len() - i,
    {
        if bytes[i] == 92 {
            out.push(47u8);
        } else {
            out.push(bytes[i]);
        }
        i = i + 1;
        assert(out@ =~= slashed(bytes@.take(i as int)));
    }
    proof {
        assert(bytes@.take(i as int) =~= bytes@);
        lemma_slashed(text@);
        vstd::utf8::encode_utf8_valid_utf8(with_slashes(text@));
        vstd::utf8::encode_utf8_decode_utf8(with_slashes(text@));
    }
    match utf8_text(out.as_slice()) {
        Some(forward) => forward.to_owned(),
        None => String::new(),
    }
}

/// Whether a path starts with a drive.
fn starts_with_drive(path: &str) -> (yes: bool)
    ensures
        yes == has_drive(path@),
{
    if path.unicode_len() < 2 {
        return false;
    }
    let c: char = path.get_char(0);
    (('A' <= c && c <= 'Z') || ('a' <= c && c <= 'z')) && path.get_char(1) == ':'
}

/// The name that a path of Windows gives to a member.
pub fn windows_name(path: &str) -> (name: Result<Name, Error>)
    ensures
        match windows_name_refusal(path@) {
            Some(message) => name matches Err(e) && e@ == failure(message),
            None => name matches Ok(n) && n@ == name_text(encode_utf8(with_slashes(path@))),
        },
{
    if !finds_control(path) && starts_with_drive(path) {
        return Err(other("paths in archives must be relative"));
    }
    Name::try_from(forward_slashes(path))
}

/// The target of a symbolic link that is given as a path of Windows, as it is
/// stored.
pub fn windows_link_target(path: &str) -> (target: Result<LinkTarget, Error>)
    ensures
        match target_refusal(encode_utf8(path@)) {
            Some(message) => target matches Err(e) && e@ == failure(message),
            None => target matches Ok(t) && t@ == with_slashes(path@),
        },
{
    match LinkTarget::try_from(path) {
        Ok(_) => {
            proof {
                let forward = with_slashes(path@);
                law_slashes_are_no_controls(path@);
                lemma_slashed(path@);
                vstd::utf8::encode_utf8_valid_utf8(forward);
                vstd::utf8::encode_utf8_decode_utf8(forward);
                vstd::utf8::encode_utf8_decode_utf8(path@);
                assert(encode_utf8(forward).len() == encode_utf8(path@).len());
            }
            LinkTarget::try_from(forward_slashes(path))
        },
        Err(e) => Err(e),
    }
}

/// A path of Windows gives a member's name if and only if the same path with slashes
/// does and it does not start with a letter and a colon.
pub proof fn law_windows_name(t: Seq<char>)
    ensures
        windows_name_refusal(t) is None <==> name_refusal(encode_utf8(with_slashes(t))) is None && !(
        t.len() >= 2 && t[1] == ':' && ('a' <= t[0] <= 'z' || 'A' <= t[0] <= 'Z')),
        with_slashes(t).len() == t.len(),
        forall|i: int| 0 <= i < t.len() && t[i] == '\\' ==> #[trigger] with_slashes(t)[i] == '/',
        forall|i: int| 0 <= i < t.len() && t[i] != '\\' ==> #[trigger] with_slashes(t)[i] == t[i],
{
    let forward = with_slashes(t);
    if has_control(t) {
        law_slashes_are_no_controls(t);
        vstd::utf8::encode_utf8_valid_utf8(forward);
        vstd::utf8::encode_utf8_decode_utf8(forward);
    }
}

} // verus!
