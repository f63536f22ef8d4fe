//! The names of archive members and the targets of symbolic links.

use crate::bytes::{first_of, lemma_first_of};
use crate::error::{failure, other, Error};
use crate::path::{
    archive_path, components, inner_components, joined, law_member_path_is_kept, member_path,
    member_path_refusal, names, ComponentView,
};
use crate::text::{
    finds_control, has_control, is_plain, lemma_plain_concat, lemma_plain_marks, lemma_plain_split,
    utf8_text,
};
use vstd::prelude::*;
use vstd::utf8::{decode_utf8, encode_utf8, valid_utf8};

verus! {

/// A validated UTF-8 archive member name.
#[derive(Debug, PartialEq, Eq, Hash)]
pub struct Name(String);

/// A validated UTF-8 symbolic-link target stored in an archive.
#[derive(Debug, PartialEq, Eq, Hash)]
pub struct LinkTarget(String);

impl View for Name {
    type V = Seq<char>;

    closed spec fn view(&self) -> Seq<char> {
        self.0@
    }
}

impl View for LinkTarget {
    type V = Seq<char>;

    closed spec fn view(&self) -> Seq<char> {
        self.0@
    }
}

/// Why bytes are no text that can stand in an archive as a `kind`.
pub open spec fn text_refusal(p: Seq<u8>, kind: Seq<char>) -> Option<Seq<char>> {
    if !valid_utf8(p) {
        Some(kind + " must be valid UTF-8"@)
    } else if has_control(decode_utf8(p)) {
        Some(kind + " must not contain Unicode control characters"@)
    } else {
        None
    }
}

/// Why a path cannot be the name of a member.
pub open spec fn name_refusal(p: Seq<u8>) -> Option<Seq<char>> {
    let refusal = text_refusal(p, "archive names"@);
    if refusal is Some {
        refusal
    } else {
        member_path_refusal(p)
    }
}

/// The name that a path gives to a member.
pub open spec fn name_text(p: Seq<u8>) -> Seq<char> {
    decode_utf8(member_path(p))
}

/// Why a path cannot be the target of a symbolic link.
pub open spec fn target_refusal(p: Seq<u8>) -> Option<Seq<char>> {
    let refusal = text_refusal(p, "symbolic-link targets"@);
    if refusal is Some {
        refusal
    } else if p.len() == 0 {
        Some("symbolic-link targets must have at least one component"@)
    } else {
        None
    }
}

/// Whether a text is the name of a member: it is the name that it gives.
pub open spec fn is_member_name(t: Seq<char>) -> bool {
    name_refusal(encode_utf8(t)) is None && name_text(encode_utf8(t)) == t
}

/// Whether a text is the target of a symbolic link.
pub open spec fn is_link_target(t: Seq<char>) -> bool {
    target_refusal(encode_utf8(t)) is None
}

/// The names in a plain path are plain.
proof fn lemma_plain_inner(p: Seq<u8>)
    requires
        is_plain(p),
    ensures
        forall|i: int|
            0 <= i < inner_components(p).len() ==> (#[trigger] inner_components(p)[i] matches
                ComponentView::Normal(n) ==> is_plain(n)),
    decreases p.len(),
{
    lemma_first_of(p, 47);
    let k = first_of(p, 47);
    if k < p.len() {
        lemma_plain_split(p, k);
        lemma_plain_inner(p.skip(k + 1));
        let front = crate::path::piece_components(p.take(k));
        let all = inner_components(p);
        assert forall|i: int| 0 <= i < all.len() implies (#[trigger] all[i] matches
            ComponentView::Normal(n) ==> is_plain(n)) by {
            if i >= front.len() {
                assert(all[i] == inner_components(p.skip(k + 1))[i - front.len()]);
            }
        }
    }
}

proof fn lemma_plain_names(cs: Seq<ComponentView>)
    requires
        forall|i: int|
            0 <= i < cs.len() ==> (#[trigger] cs[i] matches ComponentView::Normal(n) ==> is_plain(n)),
    ensures
        forall|i: int| 0 <= i < names(cs).len() ==> is_plain(#[trigger] names(cs)[i]),
    decreases cs.len(),
{
    if cs.len() > 0 {
        lemma_plain_names(cs.drop_last());
        assert(cs[cs.len() - 1] matches ComponentView::Normal(n) ==> is_plain(n));
        assert forall|i: int| 0 <= i < names(cs).len() implies is_plain(#[trigger] names(cs)[i]) by {
            if i < names(cs.drop_last()).len() {
                assert(names(cs)[i] == names(cs.drop_last())[i]);
            }
        }
    }
}

proof fn lemma_plain_joined(ns: Seq<Seq<u8>>)
    requires
        forall|i: int| 0 <= i < ns.len() ==> is_plain(#[trigger] ns[i]),
    ensures
        is_plain(joined(ns)),
    decreases ns.len(),
{
    lemma_plain_marks();
    if ns.len() == 1 {
        assert(is_plain(ns[0]));
    } else if ns.len() > 1 {
        let init = ns.drop_last();
        lemma_plain_joined(init);
        lemma_plain_concat(joined(init), seq![47u8]);
        assert(joined(init) + seq![47u8] =~= joined(init).push(47));
        assert(is_plain(ns[ns.len() - 1]));
        lemma_plain_concat(joined(init).push(47), ns.last());
    }
}

/// The name that a plain path gives is plain.
pub proof fn lemma_plain_member_path(p: Seq<u8>)
    requires
        is_plain(p),
    ensures
        is_plain(member_path(p)),
{
    let cs = components(p);
    lemma_plain_marks();
    lemma_plain_inner(p);
    if crate::path::is_absolute(p) {
        lemma_plain_split(p, 0);
        lemma_plain_inner(p.skip(1));
    }
    assert forall|i: int| 0 <= i < cs.len() implies (#[trigger] cs[i] matches ComponentView::Normal(
        n,
    ) ==> is_plain(n)) by {
        if crate::path::is_absolute(p) {
            if i > 0 {
                assert(cs[i] == inner_components(p.skip(1))[i - 1]);
            }
        } else if cs != inner_components(p) {
            if i > 0 {
                assert(cs[i] == inner_components(p)[i - 1]);
            }
        }
    }
    lemma_plain_names(cs);
    lemma_plain_joined(names(cs));
    let text = if cs == seq![ComponentView::CurDir] {
        seq![46u8]
    } else {
        joined(names(cs))
    };
    lemma_plain_concat(text, seq![47u8]);
    assert(text + seq![47u8] =~= text.push(47));
}

/// A name that a path gives is a member's name: naming again changes nothing.
pub proof fn law_name_is_kept(p: Seq<u8>)
    requires
        name_refusal(p) is None,
    ensures
        is_member_name(name_text(p)),
        encode_utf8(name_text(p)) == member_path(p),
{
    lemma_plain_member_path(p);
    law_member_path_is_kept(p);
    vstd::utf8::decode_utf8_encode_utf8(member_path(p));
}

fn validate_utf8<'a>(path: &'a [u8], kind: &str) -> (text: Result<&'a str, Error>)
    ensures
        match text_refusal(path@, kind@) {
            Some(message) => text matches Err(e) && e@ == failure(message),
            None => text matches Ok(t) && t@ == decode_utf8(path@),
        },
{
    let value = match utf8_text(path) {
        Some(value) => value,
        None => {
            let mut message: String = kind.to_owned();
            message.append(" must be valid UTF-8");
            return Err(other(message.as_str()));
        },
    };
    if finds_control(value) {
        let mut message: String = kind.to_owned();
        message.append(" must not contain Unicode control characters");
        return Err(other(message.as_str()));
    }
    Ok(value)
}

/// The name that a path gives to a member: relative, without `.` and `..`, and
/// with a slash at the end where the path has one.
pub fn archive_name(path: &[u8]) -> (name: Result<String, Error>)
    ensures
        match name_refusal(path@) {
            Some(message) => name matches Err(e) && e@ == failure(message),
            None => name matches Ok(t) && t@ == name_text(path@),
        },
{
    match validate_utf8(path, "archive names") {
        Ok(_) => {},
        Err(e) => {
            return Err(e);
        },
    }
    let text: Vec<u8> = match archive_path(path) {
        Ok(text) => text,
        Err(e) => {
            return Err(e);
        },
    };
    proof {
        lemma_plain_member_path(path@);
    }
    match utf8_text(text.as_slice()) {
        Some(name) => Ok(name.to_owned()),
        None => Err(other("archive names must be valid UTF-8")),
    }
}

/// The target of a symbolic link, as it is stored.
pub fn link_target(path: &[u8]) -> (target: Result<String, Error>)
    ensures
        match target_refusal(path@) {
            Some(message) => target matches Err(e) && e@ == failure(message),
            None => target matches Ok(t) && t@ == decode_utf8(path@),
        },
{
    match validate_utf8(path, "symbolic-link targets") {
        Ok(value) => {
            if path.len() == 0 {
                Err(other("symbolic-link targets must have at least one component"))
            } else {
                Ok(value.to_owned())
            }
        },
        Err(e) => Err(e),
    }
}

impl Name {
    #[verifier::type_invariant]
    closed spec fn is_valid(&self) -> bool {
        is_member_name(self.0@)
    }

    /// Returns this validated value as UTF-8 text.
    pub fn as_str(&self) -> (text: &str)
        ensures
            text@ == self@,
            is_member_name(text@),
    {
        proof {
            use_type_invariant(self);
        }
        self.0.as_str()
    }
}

impl LinkTarget {
    #[verifier::type_invariant]
    closed spec fn is_valid(&self) -> bool {
        is_link_target(self.0@)
    }

    /// Returns this validated value as UTF-8 text.
    pub fn as_str(&self) -> (text: &str)
        ensures
            text@ == self@,
            is_link_target(text@),
    {
        proof {
            use_type_invariant(self);
        }
        self.0.as_str()
    }
}

/// Whether `name` is what [`Name`] makes of the path `p`.
pub open spec fn is_name_of(name: Result<Name, Error>, p: Seq<u8>) -> bool {
    match name_refusal(p) {
        Some(message) => name matches Err(e) && e@ == failure(message),
        None => name matches Ok(n) && n@ == name_text(p),
    }
}

/// Whether `target` is what [`LinkTarget`] makes of the path `p`.
pub open spec fn is_target_of(target: Result<LinkTarget, Error>, p: Seq<u8>) -> bool {
    match target_refusal(p) {
        Some(message) => target matches Err(e) && e@ == failure(message),
        None => target matches Ok(t) && t@ == decode_utf8(p),
    }
}

impl TryFrom<&[u8]> for Name {
    type Error = Error;

    fn try_from(path: &[u8]) -> (name: Result<Self, Error>)
        ensures
            is_name_of(name, path@),
    {
        match archive_name(path) {
            Ok(text) => {
                proof {
                    law_name_is_kept(path@);
                }
                Ok(Name(text))
            },
            Err(e) => Err(e),
        }
    }
}

impl vstd::std_specs::convert::TryFromSpecImpl<&[u8]> for Name {
    open spec fn obeys_try_from_spec() -> bool {
        false
    }

    open spec fn try_from_spec(path: &[u8]) -> Result<Self, Error> {
        arbitrary()
    }
}

impl TryFrom<&str> for Name {
    type Error = Error;

    fn try_from(value: &str) -> (name: Result<Self, Error>)
        ensures
            is_name_of(name, encode_utf8(value@)),
    {
        Name::try_from(value.as_bytes())
    }
}

impl vstd::std_specs::convert::TryFromSpecImpl<&str> for Name {
    open spec fn obeys_try_from_spec() -> bool {
        false
    }

    open spec fn try_from_spec(value: &str) -> Result<Self, Error> {
        arbitrary()
    }
}

impl TryFrom<String> for Name {
    type Error = Error;

    fn try_from(value: String) -> (name: Result<Self, Error>)
        ensures
            is_name_of(name, encode_utf8(value@)),
    {
        Name::try_from(value.as_str())
    }
}

impl vstd::std_specs::convert::TryFromSpecImpl<String> for Name {
    open spec fn obeys_try_from_spec() -> bool {
        false
    }

    open spec fn try_from_spec(value: String) -> Result<Self, Error> {
        arbitrary()
    }
}

impl TryFrom<&String> for Name {
    type Error = Error;

    fn try_from(value: &String) -> (name: Result<Self, Error>)
        ensures
            is_name_of(name, encode_utf8(value@)),
    {
        Name::try_from(value.as_str())
    }
}

impl vstd::std_specs::convert::TryFromSpecImpl<&String> for Name {
    open spec fn obeys_try_from_spec() -> bool {
        false
    }

    open spec fn try_from_spec(value: &String) -> Result<Self, Error> {
        arbitrary()
    }
}

impl Clone for Name {
    fn clone(&self) -> (name: Self)
        ensures
            name@ == self@,
    {
        proof {
            use_type_invariant(self);
        }
        Name(self.0.clone())
    }
}

impl TryFrom<&[u8]> for LinkTarget {
    type Error = Error;

    fn try_from(path: &[u8]) -> (target: Result<Self, Error>)
        ensures
            is_target_of(target, path@),
    {
        match link_target(path) {
            Ok(text) => {
                proof {
                    vstd::utf8::decode_utf8_encode_utf8(path@);
                }
                Ok(LinkTarget(text))
            },
            Err(e) => Err(e),
        }
    }
}

impl vstd::std_specs::convert::TryFromSpecImpl<&[u8]> for LinkTarget {
    open spec fn obeys_try_from_spec() -> bool {
        false
    }

    open spec fn try_from_spec(path: &[u8]) -> Result<Self, Error> {
        arbitrary()
    }
}

impl TryFrom<&str> for LinkTarget {
    type Error = Error;

    fn try_from(value: &str) -> (target: Result<Self, Error>)
        ensures
            is_target_of(target, encode_utf8(value@)),
    {
        LinkTarget::try_from(value.as_bytes())
    }
}

impl vstd::std_specs::convert::TryFromSpecImpl<&str> for LinkTarget {
    open spec fn obeys_try_from_spec() -> bool {
        false
    }

    open spec fn try_from_spec(value: &str) -> Result<Self, Error> {
        arbitrary()
    }
}

impl TryFrom<String> for LinkTarget {
    type Error = Error;

    fn try_from(value: String) -> (target: Result<Self, Error>)
        ensures
            is_target_of(target, encode_utf8(value@)),
    {
        LinkTarget::try_from(value.as_str())
    }
}

impl vstd::std_specs::convert::TryFromSpecImpl<String> for LinkTarget {
    open spec fn obeys_try_from_spec() -> bool {
        false
    }

    open spec fn try_from_spec(value: String) -> Result<Self, Error> {
        arbitrary()
    }
}

impl TryFrom<&String> for LinkTarget {
    type Error = Error;

    fn try_from(value: &String) -> (target: Result<Self, Error>)
        ensures
            is_target_of(target, encode_utf8(value@)),
    {
        LinkTarget::try_from(value.as_str())
    }
}

impl vstd::std_specs::convert::TryFromSpecImpl<&String> for LinkTarget {
    open spec fn obeys_try_from_spec() -> bool {
        false
    }

    open spec fn try_from_spec(value: &String) -> Result<Self, Error> {
        arbitrary()
    }
}

impl Clone for LinkTarget {
    fn clone(&self) -> (target: Self)
        ensures
            target@ == self@,
    {
        proof {
            use_type_invariant(self);
        }
        LinkTarget(self.0.clone())
    }
}

} // verus!
