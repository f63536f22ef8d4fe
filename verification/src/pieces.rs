//! Paths as the pieces between their slashes, and what becomes of them.

use crate::builder::{prefix_of, visit_name};
use crate::bytes::{first_of, lemma_first_of, lemma_first_of_is};
use crate::error::{failure, ErrorView};
use crate::fs::{
    absolute_target, back_trimmed, cut_at, front_len, go, last_start, parent_text, path_text,
    pushed_text, relative_target, relative_text, resolve, text_go, text_resolve,
};
use crate::name::{name_refusal, name_text, target_refusal, text_refusal};
use crate::path::{
    components, ends_in_slash, inner_components, is_absolute, joined, lemma_inner_components_at_slash,
    member_path, member_path_refusal, names, piece_components, ComponentView,
};
use crate::text::{has_control, is_control_char};
use crate::unpack::{
    destination, is_unpack_order, lemma_order_has_no_duplicates, lex_less, symlink_refusal,
    unpacked_before,
};
use vstd::prelude::*;
use vstd::utf8::{decode_utf8, encode_utf8, valid_utf8};

verus! {

/// Whether a piece of a path is a dot.
pub open spec fn is_dot(s: Seq<u8>) -> bool {
    s.len() == 1 && s[0] == '.' as u8
}

/// Whether a piece of a path is two dots.
pub open spec fn is_dot_dot(s: Seq<u8>) -> bool {
    s.len() == 2 && s[0] == '.' as u8 && s[1] == '.' as u8
}

/// Pieces with a slash between each two.
pub open spec fn glued(ps: Seq<Seq<u8>>) -> Seq<u8>
    decreases ps.len(),
{
    if ps.len() == 0 {
        Seq::empty()
    } else if ps.len() == 1 {
        ps[0]
    } else {
        glued(ps.drop_last()) + seq!['/' as u8] + ps.last()
    }
}

/// Whether these are the pieces of a path: at least one, and none has a slash.
pub open spec fn are_pieces(ps: Seq<Seq<u8>>) -> bool {
    &&& ps.len() > 0
    &&& forall|i: int| 0 <= i < ps.len() ==> !(#[trigger] ps[i]).contains('/' as u8)
}

/// The pieces that lead somewhere: those that are not empty and not a dot.
pub open spec fn steps(ps: Seq<Seq<u8>>) -> Seq<Seq<u8>> {
    ps.filter(|s: Seq<u8>| s.len() > 0 && !is_dot(s))
}

/// Whether one of the pieces is two dots.
pub open spec fn goes_up(ps: Seq<Seq<u8>>) -> bool {
    exists|i: int| 0 <= i < ps.len() && is_dot_dot(#[trigger] ps[i])
}

/// Whether the first piece is empty, with a slash behind it.
pub open spec fn is_rooted(ps: Seq<Seq<u8>>) -> bool {
    ps.len() > 1 && ps[0].len() == 0
}

/// Whether the last piece is empty, with a slash in front of it.
pub open spec fn is_open_ended(ps: Seq<Seq<u8>>) -> bool {
    ps.len() > 1 && ps.last().len() == 0
}

/// Every path is made of pieces.
pub proof fn law_paths_have_pieces(p: Seq<u8>)
    ensures
        exists|ps: Seq<Seq<u8>>| #[trigger] are_pieces(ps) && glued(ps) == p,
    decreases p.len(),
{
    if exists|i: int| 0 <= i < p.len() && p[i] == '/' as u8 {
        let k = lemma_last_slash(p);
        let front = p.take(k);
        let last = p.skip(k + 1);
        law_paths_have_pieces(front);
        let fs = choose|fs: Seq<Seq<u8>>| #[trigger] are_pieces(fs) && glued(fs) == front;
        let ps = fs.push(last);
        assert(ps.drop_last() =~= fs);
        assert(glued(ps) =~= p);
        assert(are_pieces(ps)) by {
            assert forall|i: int| 0 <= i < ps.len() implies !(#[trigger] ps[i]).contains(
                '/' as u8,
            ) by {
                if i < fs.len() {
                    assert(ps[i] == fs[i]);
                }
            }
        }
    } else {
        let ps = seq![p];
        assert(are_pieces(ps));
        assert(glued(ps) == p);
    }
}

proof fn lemma_last_slash(p: Seq<u8>) -> (k: int)
    requires
        exists|i: int| 0 <= i < p.len() && p[i] == '/' as u8,
    ensures
        0 <= k < p.len(),
        p[k] == '/' as u8,
        !p.skip(k + 1).contains('/' as u8),
    decreases p.len(),
{
    if p.last() == '/' as u8 {
        let k = p.len() - 1;
        assert(p.skip(k + 1).len() == 0);
        k
    } else {
        let front = p.drop_last();
        let i = choose|i: int| 0 <= i < p.len() && p[i] == '/' as u8;
        assert(front[i] == '/' as u8);
        let k = lemma_last_slash(front);
        let rest = p.skip(k + 1);
        assert(!rest.contains('/' as u8)) by {
            if rest.contains('/' as u8) {
                let j = choose|j: int| 0 <= j < rest.len() && rest[j] == '/' as u8;
                assert(front.skip(k + 1)[j] == '/' as u8);
                assert(front.skip(k + 1).contains('/' as u8));
            }
        }
        k
    }
}

/// The component that a piece that leads somewhere is.
pub open spec fn component_of(s: Seq<u8>) -> ComponentView {
    if is_dot_dot(s) {
        ComponentView::ParentDir
    } else {
        ComponentView::Normal(s)
    }
}

/// The components that pieces that lead somewhere are.
pub open spec fn components_of(ps: Seq<Seq<u8>>) -> Seq<ComponentView> {
    Seq::new(ps.len(), |i: int| component_of(ps[i]))
}

proof fn lemma_piece(s: Seq<u8>)
    requires
        !s.contains('/' as u8),
    ensures
        inner_components(s) == piece_components(s),
        piece_components(s) == (if s.len() == 0 || is_dot(s) {
            Seq::<ComponentView>::empty()
        } else {
            seq![component_of(s)]
        }),
{
    lemma_first_of(s, 47);
    if first_of(s, 47) < s.len() {
        assert(s.contains(s[first_of(s, 47)]));
    }
    assert(seq![46u8].len() == 1 && seq![46u8][0] == 46);
    let two = seq![46u8, 46u8];
    assert(two.len() == 2 && two[0] == 46 && two[1] == 46);
    if is_dot(s) {
        assert(s =~= seq![46u8]);
    }
    if is_dot_dot(s) {
        assert(s =~= two);
    }
}

proof fn lemma_no_steps()
    ensures
        steps(Seq::empty()) == Seq::<Seq<u8>>::empty(),
{
    reveal(Seq::filter);
    assert(steps(Seq::empty()) =~= Seq::<Seq<u8>>::empty());
}

proof fn lemma_steps_push(ps: Seq<Seq<u8>>, s: Seq<u8>)
    ensures
        steps(ps.push(s)) == (if s.len() > 0 && !is_dot(s) {
            steps(ps).push(s)
        } else {
            steps(ps)
        }),
{
    reveal(Seq::filter);
    assert(ps.push(s).drop_last() =~= ps);
}

proof fn lemma_pieces_tail(ps: Seq<Seq<u8>>)
    requires
        are_pieces(ps),
        ps.len() > 1,
    ensures
        are_pieces(ps.drop_last()),
        ps =~= ps.drop_last().push(ps.last()),
        !ps.last().contains('/' as u8),
{
    assert forall|i: int| 0 <= i < ps.len() - 1 implies !(#[trigger] ps.drop_last()[i]).contains(
        '/' as u8,
    ) by {
        assert(ps.drop_last()[i] == ps[i]);
    }
    assert(!ps[ps.len() - 1].contains('/' as u8));
}

proof fn lemma_inner(ps: Seq<Seq<u8>>)
    requires
        are_pieces(ps),
    ensures
        inner_components(glued(ps)) == components_of(steps(ps)),
    decreases ps.len(),
{
    let s = ps.last();
    if ps.len() == 1 {
        assert(!ps[0].contains('/' as u8));
        lemma_piece(s);
        let none = Seq::<Seq<u8>>::empty();
        assert(ps =~= none.push(s));
        lemma_steps_push(none, s);
        lemma_no_steps();
        assert(inner_components(glued(ps)) =~= components_of(steps(ps)));
    } else {
        let front = ps.drop_last();
        lemma_pieces_tail(ps);
        lemma_inner(front);
        lemma_piece(s);
        lemma_inner_components_at_slash(glued(front), s);
        assert(glued(ps) =~= glued(front).push(47) + s);
        lemma_steps_push(front, s);
        assert(inner_components(glued(ps)) =~= components_of(steps(ps)));
    }
}

proof fn lemma_front(ps: Seq<Seq<u8>>)
    requires
        are_pieces(ps),
    ensures
        ps[0].len() <= glued(ps).len(),
        glued(ps).take(ps[0].len() as int) == ps[0],
        ps.len() > 1 ==> ps[0].len() < glued(ps).len() && glued(ps)[ps[0].len() as int] == 47,
        ps.len() == 1 ==> ps[0] == glued(ps),
    decreases ps.len(),
{
    if ps.len() == 1 {
        assert(ps[0].take(ps[0].len() as int) =~= ps[0]);
    } else {
        lemma_pieces_tail(ps);
        lemma_front(ps.drop_last());
        assert(glued(ps).take(ps[0].len() as int) =~= glued(ps.drop_last()).take(
            ps[0].len() as int,
        ));
    }
}

/// The components of a path are its pieces that lead somewhere, with the root in
/// front of them where the path starts with a slash, and a `.` where its first piece
/// is one.
pub proof fn law_components_of_path(ps: Seq<Seq<u8>>)
    requires
        are_pieces(ps),
    ensures
        is_absolute(glued(ps)) <==> is_rooted(ps),
        ends_in_slash(glued(ps)) <==> is_open_ended(ps),
        is_rooted(ps) ==> components(glued(ps)) == seq![ComponentView::RootDir] + components_of(
            steps(ps),
        ),
        is_dot(ps[0]) ==> components(glued(ps)) == seq![ComponentView::CurDir] + components_of(
            steps(ps),
        ),
        !is_rooted(ps) && !is_dot(ps[0]) ==> components(glued(ps)) == components_of(steps(ps)),
{
    let p = glued(ps);
    let first = ps[0];
    let last = ps.last();
    lemma_inner(ps);
    lemma_front(ps);
    assert(!ps[0].contains('/' as u8));
    assert(!ps[ps.len() - 1].contains('/' as u8));
    assert forall|j: int| 0 <= j < first.len() implies p[j] != 47 by {
        assert(p.take(first.len() as int)[j] == p[j]);
        assert(first.contains(first[j]));
    }
    lemma_first_of_is(p, 47, first.len() as int);
    if last.len() > 0 {
        assert(last.contains(last[last.len() - 1]));
        assert(p.last() == last.last());
    }
    if ps.len() > 1 && last.len() == 0 {
        assert(p.last() == 47);
    }
    if is_rooted(ps) {
        assert(p[0] == 47);
        let tail = p.skip(1);
        lemma_inner_components_at_slash(Seq::empty(), tail);
        assert(Seq::<u8>::empty().push(47) + tail =~= p);
        lemma_piece(Seq::empty());
        assert(inner_components(tail) =~= inner_components(p));
    } else if first.len() > 0 {
        assert(first.contains(first[0]));
        assert(p.take(first.len() as int)[0] == p[0]);
    }
    assert(seq![46u8].len() == 1 && seq![46u8][0] == 46);
    if is_dot(first) {
        assert(first =~= seq![46u8]);
    }
}

proof fn lemma_steps_are_pieces(ps: Seq<Seq<u8>>)
    ensures
        forall|i: int|
            0 <= i < steps(ps).len() ==> (#[trigger] steps(ps)[i]).len() > 0 && !is_dot(
                steps(ps)[i],
            ) && ps.contains(steps(ps)[i]),
        forall|i: int|
            0 <= i < ps.len() && (#[trigger] ps[i]).len() > 0 && !is_dot(ps[i]) ==> steps(
                ps,
            ).contains(ps[i]),
        goes_up(steps(ps)) <==> goes_up(ps),
{
    let f = |s: Seq<u8>| s.len() > 0 && !is_dot(s);
    broadcast use vstd::seq_lib::group_filter_ensures;

    assert forall|i: int| 0 <= i < steps(ps).len() implies (#[trigger] steps(ps)[i]).len() > 0
        && !is_dot(steps(ps)[i]) && ps.contains(steps(ps)[i]) by {
        assert(f(ps.filter(f)[i]));
        assert(ps.filter(f).contains(ps.filter(f)[i]));
        ps.lemma_filter_contains_rev(f, ps.filter(f)[i]);
    }
    assert forall|i: int| 0 <= i < ps.len() && (#[trigger] ps[i]).len() > 0 && !is_dot(
        ps[i],
    ) implies steps(ps).contains(ps[i]) by {
        assert(f(ps[i]));
        assert(ps.filter(f).contains(ps[i]));
    }
    if goes_up(ps) {
        let i = choose|i: int| 0 <= i < ps.len() && is_dot_dot(#[trigger] ps[i]);
        assert(steps(ps).contains(ps[i]));
        let j = choose|j: int| 0 <= j < steps(ps).len() && steps(ps)[j] == ps[i];
        assert(is_dot_dot(steps(ps)[j]));
    }
    if goes_up(steps(ps)) {
        let j = choose|j: int| 0 <= j < steps(ps).len() && is_dot_dot(#[trigger] steps(ps)[j]);
        assert(ps.contains(steps(ps)[j]));
        let i = choose|i: int| 0 <= i < ps.len() && ps[i] == steps(ps)[j];
        assert(is_dot_dot(ps[i]));
    }
}

proof fn lemma_names_of_steps(ps: Seq<Seq<u8>>)
    requires
        !goes_up(ps),
    ensures
        names(components_of(ps)) == ps,
        joined(ps) == glued(ps),
        !components_of(ps).contains(ComponentView::ParentDir),
    decreases ps.len(),
{
    let cs = components_of(ps);
    if cs.contains(ComponentView::ParentDir) {
        let j = choose|j: int| 0 <= j < cs.len() && cs[j] is ParentDir;
        assert(is_dot_dot(ps[j]));
    }
    if ps.len() > 0 {
        let front = ps.drop_last();
        assert(!goes_up(front)) by {
            if goes_up(front) {
                let j = choose|j: int| 0 <= j < front.len() && is_dot_dot(#[trigger] front[j]);
                assert(is_dot_dot(ps[j]));
            }
        }
        lemma_names_of_steps(front);
        assert(cs.drop_last() =~= components_of(front));
        assert(!is_dot_dot(ps[ps.len() - 1]));
        assert(names(cs) =~= ps);
        if ps.len() > 1 {
            assert(joined(ps) =~= glued(ps));
        }
    } else {
        assert(names(cs) =~= ps);
    }
}

proof fn lemma_goes_up(ps: Seq<Seq<u8>>)
    requires
        are_pieces(ps),
    ensures
        components(glued(ps)).contains(ComponentView::ParentDir) <==> goes_up(ps),
        !goes_up(ps) ==> names(components(glued(ps))) == steps(ps),
{
    let cs = components(glued(ps));
    let inner = components_of(steps(ps));
    let front = cs.take(cs.len() - inner.len());
    law_components_of_path(ps);
    lemma_steps_are_pieces(ps);
    assert(cs =~= front + inner);
    if goes_up(ps) {
        let i = choose|i: int| 0 <= i < steps(ps).len() && is_dot_dot(#[trigger] steps(ps)[i]);
        assert(inner[i] is ParentDir);
        assert(cs[front.len() + i] is ParentDir);
        assert(cs.contains(cs[front.len() + i]));
    } else {
        lemma_names_of_steps(steps(ps));
        if cs.contains(ComponentView::ParentDir) {
            let j = choose|j: int| 0 <= j < cs.len() && cs[j] is ParentDir;
            assert(inner[j - front.len()] is ParentDir);
            assert(inner.contains(inner[j - front.len()]));
        }
        lemma_names_behind(front, inner);
    }
}

proof fn lemma_names_behind(front: Seq<ComponentView>, inner: Seq<ComponentView>)
    requires
        forall|i: int| 0 <= i < front.len() ==> !((#[trigger] front[i]) is Normal),
    ensures
        names(front + inner) == names(inner),
    decreases front.len() + inner.len(),
{
    if inner.len() > 0 {
        assert((front + inner).drop_last() =~= front + inner.drop_last());
        lemma_names_behind(front, inner.drop_last());
    } else {
        assert(front + inner =~= front);
        if front.len() > 0 {
            let less = front.drop_last();
            assert forall|i: int| 0 <= i < less.len() implies !((#[trigger] less[i]) is Normal) by {
                assert(less[i] == front[i]);
            }
            lemma_names_behind(less, inner);
            assert(less + inner =~= less);
            assert(!(front[front.len() - 1] is Normal));
        }
    }
}

/// A member has a place below the directory to unpack to if and only if no piece
/// of its path is `..` and at least one leads somewhere. The place is made of
/// those pieces: slashes at the front, double slashes and dots do not matter.
pub proof fn law_place_of_member(ps: Seq<Seq<u8>>)
    requires
        are_pieces(ps),
    ensures
        destination(glued(ps)) is Some <==> !goes_up(ps) && exists|i: int|
            0 <= i < ps.len() && (#[trigger] ps[i]).len() > 0 && !is_dot(ps[i]),
        destination(glued(ps)) matches Some(place) ==> place == glued(steps(ps)),
{
    lemma_goes_up(ps);
    lemma_steps_are_pieces(ps);
    if !goes_up(ps) {
        lemma_names_of_steps(steps(ps));
    }
    if exists|i: int| 0 <= i < ps.len() && (#[trigger] ps[i]).len() > 0 && !is_dot(ps[i]) {
        let i = choose|i: int|
            0 <= i < ps.len() && (#[trigger] ps[i]).len() > 0 && !is_dot(ps[i]);
        assert(steps(ps).contains(ps[i]));
    } else if steps(ps).len() > 0 {
        assert(ps.contains(steps(ps)[0]));
        let i = choose|i: int| 0 <= i < ps.len() && ps[i] == steps(ps)[0];
        assert(ps[i].len() > 0 && !is_dot(ps[i]));
    }
}

/// A path can be a member's if and only if it does not start with a slash, no
/// piece of it is `..`, and it has a piece that leads somewhere or starts with a
/// dot for a piece. The member's path is then made of the pieces that lead
/// somewhere, or is a dot where there are none; a slash at the end is kept.
pub proof fn law_path_of_member(ps: Seq<Seq<u8>>)
    requires
        are_pieces(ps),
    ensures
        member_path_refusal(glued(ps)) == (if is_rooted(ps) {
            Some("paths in archives must be relative"@)
        } else if goes_up(ps) {
            Some("paths in archives must not have `..`"@)
        } else if steps(ps).len() == 0 && !is_dot(ps[0]) {
            Some("paths in archives must have at least one component"@)
        } else {
            None
        }),
        member_path_refusal(glued(ps)) is None ==> member_path(glued(ps)) == {
            let text = if steps(ps).len() == 0 {
                seq!['.' as u8]
            } else {
                glued(steps(ps))
            };
            if is_open_ended(ps) {
                text + seq!['/' as u8]
            } else {
                text
            }
        },
{
    let cs = components(glued(ps));
    law_components_of_path(ps);
    lemma_goes_up(ps);
    lemma_steps_are_pieces(ps);
    if member_path_refusal(glued(ps)) is None {
        lemma_names_of_steps(steps(ps));
        let only = seq![ComponentView::CurDir];
        assert(only.len() == 1 && only[0] is CurDir);
        if steps(ps).len() == 0 {
            assert(cs =~= only);
        } else if cs == only {
            assert(cs[0] is CurDir);
            assert(is_dot(ps[0]) ==> cs.len() == 1 + steps(ps).len());
            assert(components_of(steps(ps))[0] is CurDir);
        }
        let text = if steps(ps).len() == 0 {
            seq!['.' as u8]
        } else {
            glued(steps(ps))
        };
        assert(text.push(47) =~= text + seq!['/' as u8]);
    }
}

/// Text can stand in an archive if and only if it is valid UTF-8 and each of its
/// characters is at least a space, and none from 127 to 159.
pub proof fn law_text_is_accepted(p: Seq<u8>, kind: Seq<char>)
    ensures
        text_refusal(p, kind) is None <==> valid_utf8(p) && forall|i: int|
            0 <= i < decode_utf8(p).len() ==> {
                let code = #[trigger] decode_utf8(p)[i] as u32;
                32 <= code < 127 || code >= 160
            },
        text_refusal(p, kind) matches Some(message) ==> message == kind + (if valid_utf8(p) {
            " must not contain Unicode control characters"@
        } else {
            " must be valid UTF-8"@
        }),
{
    let t = decode_utf8(p);
    if has_control(t) {
        let i = choose|i: int| 0 <= i < t.len() && is_control_char(#[trigger] t[i]);
        assert(is_control_char(t[i]));
    } else {
        assert forall|i: int| 0 <= i < t.len() implies ({
            let code = #[trigger] t[i] as u32;
            32 <= code < 127 || code >= 160
        }) by {
            assert(!is_control_char(t[i]));
        }
    }
}

/// A path gives a member's name if and only if it is text that can stand in an
/// archive and its pieces can be a member's path; the name is that path. A link's
/// target is any text that can stand in an archive and is not empty.
pub proof fn law_name_of_member(ps: Seq<Seq<u8>>)
    requires
        are_pieces(ps),
    ensures
        name_refusal(glued(ps)) is None <==> text_refusal(glued(ps), "archive names"@) is None
            && !is_rooted(ps) && !goes_up(ps) && (steps(ps).len() > 0 || is_dot(ps[0])),
        name_refusal(glued(ps)) is None ==> encode_utf8(name_text(glued(ps))) == {
            let text = if steps(ps).len() == 0 {
                seq!['.' as u8]
            } else {
                glued(steps(ps))
            };
            if is_open_ended(ps) {
                text + seq!['/' as u8]
            } else {
                text
            }
        },
        target_refusal(glued(ps)) is None <==> text_refusal(
            glued(ps),
            "symbolic-link targets"@,
        ) is None && glued(ps).len() > 0,
{
    law_path_of_member(ps);
    if name_refusal(glued(ps)) is None {
        crate::name::law_name_is_kept(glued(ps));
    }
}

/// Where pieces lead from a directory whose path is made of `base`: each name
/// goes down, each `..` goes up again, and nothing is above the root.
pub open spec fn led(base: Seq<Seq<u8>>, ps: Seq<Seq<u8>>) -> Option<Seq<Seq<u8>>>
    decreases ps.len(),
{
    if ps.len() == 0 {
        Some(base)
    } else if ps[0].len() == 0 || is_dot(ps[0]) {
        led(base, ps.skip(1))
    } else if !is_dot_dot(ps[0]) {
        led(base.push(ps[0]), ps.skip(1))
    } else if base.len() > 0 {
        led(base.drop_last(), ps.skip(1))
    } else {
        None
    }
}

/// A path from the root on.
pub open spec fn from_root(ns: Seq<Seq<u8>>) -> Seq<u8> {
    seq!['/' as u8] + glued(ns)
}

/// Whether these are names of files: not empty, without slashes, and neither a
/// dot nor two dots.
pub open spec fn are_names(ns: Seq<Seq<u8>>) -> bool {
    forall|i: int|
        0 <= i < ns.len() ==> !(#[trigger] ns[i]).contains('/' as u8) && ns[i].len() > 0 && !is_dot(
            ns[i],
        ) && !is_dot_dot(ns[i])
}

spec fn rooted_stack(ns: Seq<Seq<u8>>) -> Seq<ComponentView> {
    seq![ComponentView::RootDir] + Seq::new(ns.len(), |i: int| ComponentView::Normal(ns[i]))
}

proof fn lemma_fewer_names(ns: Seq<Seq<u8>>)
    requires
        are_names(ns),
        ns.len() > 0,
    ensures
        are_names(ns.drop_last()),
        !ns.last().contains('/' as u8),
        ns.last().len() > 0,
        !is_dot(ns.last()),
        !is_dot_dot(ns.last()),
{
    let front = ns.drop_last();
    assert forall|i: int| 0 <= i < front.len() implies !(#[trigger] front[i]).contains('/' as u8)
        && front[i].len() > 0 && !is_dot(front[i]) && !is_dot_dot(front[i]) by {
        assert(front[i] == ns[i]);
    }
    assert(!is_dot(ns[ns.len() - 1]));
}

proof fn lemma_rooted_stack(ns: Seq<Seq<u8>>)
    requires
        are_names(ns),
    ensures
        components(from_root(ns)) == rooted_stack(ns),
        is_absolute(from_root(ns)),
{
    let empty = Seq::<u8>::empty();
    if ns.len() == 0 {
        let ps = seq![empty, empty];
        assert(are_pieces(ps));
        assert(ps.drop_last() =~= seq![empty]);
        assert(glued(ps.drop_last()) =~= empty);
        assert(glued(ps) =~= from_root(ns));
        law_components_of_path(ps);
        lemma_no_steps();
        let none = Seq::<Seq<u8>>::empty();
        lemma_steps_push(none, empty);
        lemma_steps_push(none.push(empty), empty);
        assert(none.push(empty).push(empty) =~= ps);
        assert(components(from_root(ns)) =~= rooted_stack(ns));
    } else {
        let ps = seq![empty] + ns;
        assert(are_pieces(ps)) by {
            assert forall|i: int| 0 <= i < ps.len() implies !(#[trigger] ps[i]).contains(
                '/' as u8,
            ) by {
                if i > 0 {
                    assert(ps[i] == ns[i - 1]);
                }
            }
        }
        lemma_glued_behind_empty(ns);
        law_components_of_path(ps);
        lemma_steps_of_names(ns);
        assert(components_of(ns) =~= Seq::new(ns.len(), |i: int| ComponentView::Normal(ns[i])));
    }
}

proof fn lemma_glued_behind_empty(ns: Seq<Seq<u8>>)
    requires
        ns.len() > 0,
    ensures
        glued(seq![Seq::<u8>::empty()] + ns) == from_root(ns),
    decreases ns.len(),
{
    let empty = Seq::<u8>::empty();
    let ps = seq![empty] + ns;
    if ns.len() == 1 {
        assert(ps.drop_last() =~= seq![empty]);
        assert(glued(ps.drop_last()) =~= empty);
        assert(ps.last() == ns[0]);
        assert(glued(ps) =~= from_root(ns));
    } else {
        let front = ns.drop_last();
        lemma_glued_behind_empty(front);
        assert(ps.drop_last() =~= seq![empty] + front);
        assert(ps.last() == ns.last());
        assert(glued(ps) == from_root(front) + seq!['/' as u8] + ns.last());
        assert(glued(ns) == glued(front) + seq!['/' as u8] + ns.last());
        assert(glued(ps) =~= from_root(ns));
    }
}

proof fn lemma_names_are_steps(ns: Seq<Seq<u8>>)
    requires
        are_names(ns),
    ensures
        steps(ns) == ns,
    decreases ns.len(),
{
    if ns.len() == 0 {
        assert(ns =~= Seq::<Seq<u8>>::empty());
        lemma_no_steps();
    } else {
        lemma_fewer_names(ns);
        lemma_names_are_steps(ns.drop_last());
        lemma_steps_push(ns.drop_last(), ns.last());
        assert(ns.drop_last().push(ns.last()) =~= ns);
    }
}

proof fn lemma_steps_of_names(ns: Seq<Seq<u8>>)
    requires
        are_names(ns),
    ensures
        steps(seq![Seq::<u8>::empty()] + ns) == ns,
{
    let all = seq![Seq::<u8>::empty()] + ns;
    lemma_steps_front(all);
    assert(all.skip(1) =~= ns);
    lemma_names_are_steps(ns);
}

proof fn lemma_resolve_front(
    st: Seq<ComponentView>,
    c: ComponentView,
    cs: Seq<ComponentView>,
    rooted: bool,
)
    ensures
        resolve(st, seq![c] + cs, rooted) == (match go(st, c, rooted) {
            Some(next) => resolve(next, cs, rooted),
            None => None,
        }),
    decreases cs.len(),
{
    let all = seq![c] + cs;
    if cs.len() == 0 {
        assert(all.drop_last() =~= Seq::<ComponentView>::empty());
        assert(all.last() == c);
    } else {
        assert(all.drop_last() =~= seq![c] + cs.drop_last());
        assert(all.last() == cs.last());
        lemma_resolve_front(st, c, cs.drop_last(), rooted);
    }
}

proof fn lemma_steps_front(ps: Seq<Seq<u8>>)
    requires
        ps.len() > 0,
    ensures
        steps(ps) == (if ps[0].len() > 0 && !is_dot(ps[0]) {
            seq![ps[0]] + steps(ps.skip(1))
        } else {
            steps(ps.skip(1))
        }),
{
    let f = |s: Seq<u8>| s.len() > 0 && !is_dot(s);
    let one = seq![ps[0]];
    assert(ps =~= one + ps.skip(1));
    Seq::filter_distributes_over_add(one, ps.skip(1), f);
    let none = Seq::<Seq<u8>>::empty();
    lemma_steps_push(none, ps[0]);
    assert(none.push(ps[0]) =~= one);
    lemma_no_steps();
    assert(none + steps(ps.skip(1)) =~= steps(ps.skip(1)));
    assert(none.push(ps[0]) + steps(ps.skip(1)) =~= one + steps(ps.skip(1)));
}

/// Resolving the steps of pieces from a rooted stack is following them.
proof fn lemma_led(base: Seq<Seq<u8>>, ps: Seq<Seq<u8>>, rooted: bool)
    ensures
        match led(base, ps) {
            Some(ns) => resolve(rooted_stack(base), components_of(steps(ps)), rooted) == Some(
                rooted_stack(ns),
            ),
            None => resolve(rooted_stack(base), components_of(steps(ps)), rooted) is None,
        },
    decreases ps.len(),
{
    let st = rooted_stack(base);
    if ps.len() == 0 {
        assert(ps =~= Seq::<Seq<u8>>::empty());
        lemma_no_steps();
        assert(components_of(steps(ps)) =~= Seq::<ComponentView>::empty());
    } else {
        let rest = ps.skip(1);
        lemma_steps_front(ps);
        if ps[0].len() == 0 || is_dot(ps[0]) {
            lemma_led(base, rest, rooted);
        } else {
            let c = component_of(ps[0]);
            assert(components_of(steps(ps)) =~= seq![c] + components_of(steps(rest)));
            lemma_resolve_front(st, c, components_of(steps(rest)), rooted);
            if !is_dot_dot(ps[0]) {
                lemma_led(base.push(ps[0]), rest, rooted);
                assert(st.push(c) =~= rooted_stack(base.push(ps[0])));
            } else if base.len() > 0 {
                lemma_led(base.drop_last(), rest, rooted);
                assert(st.drop_last() =~= rooted_stack(base.drop_last()));
                assert(st.last() is Normal);
            } else {
                assert(st.last() is RootDir);
            }
        }
    }
}

proof fn lemma_led_are_names(base: Seq<Seq<u8>>, ps: Seq<Seq<u8>>)
    requires
        are_names(base),
        forall|i: int| 0 <= i < ps.len() ==> !(#[trigger] ps[i]).contains('/' as u8),
    ensures
        led(base, ps) matches Some(ns) ==> are_names(ns),
    decreases ps.len(),
{
    if ps.len() > 0 {
        let rest = ps.skip(1);
        assert forall|i: int| 0 <= i < rest.len() implies !(#[trigger] rest[i]).contains(
            '/' as u8,
        ) by {
            assert(rest[i] == ps[i + 1]);
        }
        assert(!ps[0].contains('/' as u8));
        if ps[0].len() == 0 || is_dot(ps[0]) {
            lemma_led_are_names(base, rest);
        } else if !is_dot_dot(ps[0]) {
            let more = base.push(ps[0]);
            assert(are_names(more)) by {
                assert forall|i: int| 0 <= i < more.len() implies !(#[trigger] more[i]).contains(
                    '/' as u8,
                ) && more[i].len() > 0 && !is_dot(more[i]) && !is_dot_dot(more[i]) by {
                    if i < base.len() {
                        assert(more[i] == base[i]);
                    }
                }
            }
            lemma_led_are_names(more, rest);
        } else if base.len() > 0 {
            let less = base.drop_last();
            lemma_fewer_names(base);
            lemma_led_are_names(less, rest);
        }
    }
}

proof fn lemma_rooted_text(ns: Seq<Seq<u8>>)
    requires
        are_names(ns),
    ensures
        path_text(rooted_stack(ns)) == from_root(ns),
    decreases ns.len(),
{
    let cs = rooted_stack(ns);
    if ns.len() == 0 {
        assert(path_text(cs) =~= from_root(ns));
    } else if ns.len() == 1 {
        assert(cs[0] is RootDir && cs[1] == ComponentView::Normal(ns[0]));
        assert(path_text(cs) =~= from_root(ns));
    } else {
        let front = ns.drop_last();
        lemma_fewer_names(ns);
        lemma_rooted_text(front);
        assert(cs.drop_last() =~= rooted_stack(front));
        assert(cs.last() == ComponentView::Normal(ns.last()));
        assert(path_text(cs) =~= from_root(ns));
    }
}

/// An absolute path is normalized by following its pieces from the root; there
/// is no such path where one of them goes above the root.
pub proof fn law_absolute_path_is_followed(ps: Seq<Seq<u8>>)
    requires
        are_pieces(ps),
        is_rooted(ps),
    ensures
        match led(Seq::empty(), ps) {
            Some(ns) => absolute_target(glued(ps)) matches Some(cs) && path_text(cs) == from_root(
                ns,
            ),
            None => absolute_target(glued(ps)) is None,
        },
{
    let none = Seq::<Seq<u8>>::empty();
    law_components_of_path(ps);
    lemma_resolve_front(
        Seq::empty(),
        ComponentView::RootDir,
        components_of(steps(ps)),
        true,
    );
    assert(rooted_stack(none) =~= seq![ComponentView::RootDir]);
    lemma_led(none, ps, true);
    lemma_led_are_names(none, ps);
    if let Some(ns) = led(none, ps) {
        lemma_rooted_text(ns);
    }
}

/// A relative path is normalized by following its pieces from a directory.
pub proof fn law_relative_path_is_followed(base: Seq<Seq<u8>>, ps: Seq<Seq<u8>>)
    requires
        are_names(base),
        are_pieces(ps),
        !is_rooted(ps),
    ensures
        match led(base, ps) {
            Some(ns) => relative_target(from_root(base), glued(ps)) == Some(
                components(from_root(ns)),
            ),
            None => relative_target(from_root(base), glued(ps)) is None,
        },
{
    let cs = components_of(steps(ps));
    law_components_of_path(ps);
    lemma_rooted_stack(base);
    lemma_led(base, ps, false);
    lemma_led_are_names(base, ps);
    lemma_resolve_front(rooted_stack(base), ComponentView::CurDir, cs, false);
    if let Some(ns) = led(base, ps) {
        lemma_rooted_stack(ns);
    }
}

/// A path is inside a directory if and only if it starts with the names of the
/// directory, each of them whole.
pub proof fn law_inside_starts_with_names(outer: Seq<Seq<u8>>, inner: Seq<Seq<u8>>)
    requires
        are_names(outer),
        are_names(inner),
    ensures
        components(from_root(outer)).is_prefix_of(components(from_root(inner)))
            <==> outer.is_prefix_of(inner),
{
    lemma_rooted_stack(outer);
    lemma_rooted_stack(inner);
    let co = rooted_stack(outer);
    let ci = rooted_stack(inner);
    if outer.is_prefix_of(inner) {
        assert(co =~= ci.subrange(0, co.len() as int)) by {
            assert forall|i: int| 0 <= i < outer.len() implies outer[i] == inner[i] by {
                assert(inner.subrange(0, outer.len() as int)[i] == inner[i]);
            }
        }
    }
    if co.is_prefix_of(ci) {
        assert forall|i: int| 0 <= i < outer.len() implies outer[i] == inner[i] by {
            assert(ci.subrange(0, co.len() as int)[i + 1] == ci[i + 1]);
            assert(co[i + 1] == ComponentView::Normal(outer[i]));
            assert(ci[i + 1] == ComponentView::Normal(inner[i]));
        }
        assert(outer =~= inner.subrange(0, outer.len() as int));
    }
}

/// A symbolic link with an empty target is refused. Where links may lead outside,
/// no other is. Where they may not, a link is accepted if and only if following
/// its target, from the root or from the directory that the link is in, leads to
/// a path inside the directory to unpack to.
pub proof fn law_symlink_stays_inside(
    link: Seq<u8>,
    ts: Seq<Seq<u8>>,
    parent: Seq<Seq<u8>>,
    dst: Seq<Seq<u8>>,
    allow_external: bool,
)
    requires
        are_pieces(ts),
        are_names(parent),
        are_names(dst),
    ensures
        symlink_refusal(link, glued(ts), from_root(parent), from_root(dst), allow_external) is None
            <==> glued(ts).len() > 0 && (allow_external || {
            let end = if is_rooted(ts) {
                led(Seq::empty(), ts)
            } else {
                led(parent, ts)
            };
            end matches Some(ns) && dst.is_prefix_of(ns)
        }),
        symlink_refusal(
            link,
            glued(ts),
            from_root(parent),
            from_root(dst),
            allow_external,
        ) matches Some(message) ==> message == "symlink destination for "@ + crate::text::lossy(link)
            + (if glued(ts).len() == 0 {
            " is empty"@
        } else {
            " is outside of the target directory"@
        }),
{
    let none = Seq::<Seq<u8>>::empty();
    law_components_of_path(ts);
    if is_rooted(ts) {
        lemma_resolve_front(
            Seq::empty(),
            ComponentView::RootDir,
            components_of(steps(ts)),
            true,
        );
        assert(rooted_stack(none) =~= seq![ComponentView::RootDir]);
        lemma_led(none, ts, true);
        assert(are_names(none));
        lemma_led_are_names(none, ts);
        if let Some(ns) = led(none, ts) {
            lemma_rooted_stack(ns);
            law_inside_starts_with_names(dst, ns);
        }
    } else {
        law_relative_path_is_followed(parent, ts);
        lemma_led_are_names(parent, ts);
        if let Some(ns) = led(parent, ts) {
            law_inside_starts_with_names(dst, ns);
        }
    }
}

/// Bytes come before others if and only if they are a part of the others' front,
/// or have the lower byte where the two differ first.
pub proof fn law_order_of_bytes(a: Seq<u8>, b: Seq<u8>)
    ensures
        lex_less(a, b) <==> exists|k: int|
            0 <= k <= a.len() && k < b.len() && #[trigger] a.take(k) == b.take(k) && (k == a.len()
                || a[k] < b[k]),
    decreases a.len(),
{
    if b.len() > 0 && a.len() > 0 && a[0] == b[0] {
        let a1 = a.skip(1);
        let b1 = b.skip(1);
        law_order_of_bytes(a1, b1);
        if lex_less(a1, b1) {
            let k = choose|k: int|
                0 <= k <= a1.len() && k < b1.len() && #[trigger] a1.take(k) == b1.take(k) && (k
                    == a1.len() || a1[k] < b1[k]);
            assert(a.take(k + 1) =~= seq![a[0]] + a1.take(k));
            assert(b.take(k + 1) =~= seq![b[0]] + b1.take(k));
        }
        if exists|k: int|
            0 <= k <= a.len() && k < b.len() && #[trigger] a.take(k) == b.take(k) && (k == a.len()
                || a[k] < b[k]) {
            let k = choose|k: int|
                0 <= k <= a.len() && k < b.len() && #[trigger] a.take(k) == b.take(k) && (k
                    == a.len() || a[k] < b[k]);
            assert(k > 0);
            assert(a1.take(k - 1) =~= a.take(k).skip(1));
            assert(b1.take(k - 1) =~= b.take(k).skip(1));
        }
    } else if b.len() > 0 {
        assert(a.take(0) =~= b.take(0));
        if a.len() > 0 && exists|k: int|
            0 <= k <= a.len() && k < b.len() && #[trigger] a.take(k) == b.take(k) && (k == a.len()
                || a[k] < b[k]) {
            let k = choose|k: int|
                0 <= k <= a.len() && k < b.len() && #[trigger] a.take(k) == b.take(k) && (k
                    == a.len() || a[k] < b[k]);
            if k > 0 {
                assert(a.take(k)[0] == b.take(k)[0]);
            }
        }
    }
}

proof fn lemma_glued_concat(qs: Seq<Seq<u8>>, rs: Seq<Seq<u8>>)
    requires
        qs.len() > 0,
        rs.len() > 0,
    ensures
        glued(qs + rs) == glued(qs) + seq!['/' as u8] + glued(rs),
    decreases rs.len(),
{
    let all = qs + rs;
    if rs.len() == 1 {
        assert(all.drop_last() =~= qs);
        assert(all.last() == rs[0]);
    } else {
        lemma_glued_concat(qs, rs.drop_last());
        assert(all.drop_last() =~= qs + rs.drop_last());
        assert(all.last() == rs.last());
        assert(glued(all) =~= glued(qs) + seq!['/' as u8] + glued(rs));
    }
}

proof fn lemma_steps_concat(qs: Seq<Seq<u8>>, rs: Seq<Seq<u8>>)
    ensures
        steps(qs + rs) == steps(qs) + steps(rs),
{
    let f = |s: Seq<u8>| s.len() > 0 && !is_dot(s);
    Seq::filter_distributes_over_add(qs, rs, f);
}

proof fn lemma_steps_of_steps(ps: Seq<Seq<u8>>)
    ensures
        steps(steps(ps)) == steps(ps),
    decreases ps.len(),
{
    if ps.len() == 0 {
        assert(ps =~= Seq::<Seq<u8>>::empty());
        lemma_no_steps();
    } else {
        let front = ps.drop_last();
        let s = ps.last();
        lemma_steps_of_steps(front);
        assert(front.push(s) =~= ps);
        lemma_steps_push(front, s);
        lemma_steps_push(steps(front), s);
    }
}

proof fn lemma_goes_up_concat(qs: Seq<Seq<u8>>, rs: Seq<Seq<u8>>)
    ensures
        goes_up(qs + rs) <==> goes_up(qs) || goes_up(rs),
{
    let all = qs + rs;
    if goes_up(qs) {
        let i = choose|i: int| 0 <= i < qs.len() && is_dot_dot(#[trigger] qs[i]);
        assert(all[i] == qs[i]);
    }
    if goes_up(rs) {
        let i = choose|i: int| 0 <= i < rs.len() && is_dot_dot(#[trigger] rs[i]);
        assert(all[qs.len() + i] == rs[i]);
    }
    if goes_up(all) {
        let i = choose|i: int| 0 <= i < all.len() && is_dot_dot(#[trigger] all[i]);
        if i < qs.len() {
            assert(qs[i] == all[i]);
        } else {
            assert(rs[i - qs.len()] == all[i]);
        }
    }
}

/// The pieces of the path that a member with the given pieces is stored under.
spec fn stored_pieces(ps: Seq<Seq<u8>>) -> Seq<Seq<u8>> {
    let text = if steps(ps).len() == 0 {
        seq![seq!['.' as u8]]
    } else {
        steps(ps)
    };
    if is_open_ended(ps) {
        text.push(Seq::empty())
    } else {
        text
    }
}

proof fn lemma_stored_pieces(ps: Seq<Seq<u8>>)
    requires
        are_pieces(ps),
        member_path_refusal(glued(ps)) is None,
    ensures
        are_pieces(stored_pieces(ps)),
        glued(stored_pieces(ps)) == member_path(glued(ps)),
        steps(stored_pieces(ps)) == steps(ps),
        !goes_up(stored_pieces(ps)),
        !is_rooted(stored_pieces(ps)),
        steps(ps).len() == 0 ==> is_dot(stored_pieces(ps)[0]),
        stored_pieces(ps)[0].len() > 0,
{
    law_path_of_member(ps);
    lemma_steps_are_pieces(ps);
    lemma_steps_of_steps(ps);
    let dot = seq!['.' as u8];
    let text = if steps(ps).len() == 0 {
        seq![dot]
    } else {
        steps(ps)
    };
    let empty = Seq::<u8>::empty();
    assert forall|i: int| 0 <= i < text.len() implies !(#[trigger] text[i]).contains('/' as u8)
        && !is_dot_dot(text[i]) && text[i].len() > 0 by {
        if steps(ps).len() > 0 {
            assert(ps.contains(steps(ps)[i]));
            let j = choose|j: int| 0 <= j < ps.len() && ps[j] == steps(ps)[i];
            assert(!ps[j].contains('/' as u8));
        }
    }
    if steps(ps).len() == 0 {
        let none = Seq::<Seq<u8>>::empty();
        lemma_no_steps();
        lemma_steps_push(none, dot);
        assert(none.push(dot) =~= text);
        assert(steps(text) =~= steps(ps));
    }
    lemma_steps_push(text, empty);
    assert(text.push(empty).drop_last() =~= text);
    assert(glued(text.push(empty)) =~= glued(text) + seq!['/' as u8]);
    let all = stored_pieces(ps);
    assert forall|i: int| 0 <= i < all.len() implies !(#[trigger] all[i]).contains('/' as u8)
        && !is_dot_dot(all[i]) by {
        if i < text.len() {
            assert(all[i] == text[i]);
        }
    }
    assert(text[0].len() > 0);
}

/// A file that is come upon in a directory is named by the pieces of the
/// directory's name that lead somewhere, and by its own; the directory itself by
/// its name alone. Only a `..`, or text that cannot stand in an archive, keeps a
/// file from having a name.
pub proof fn law_name_of_visited_file(ps: Seq<Seq<u8>>, rs: Seq<Seq<u8>>)
    requires
        are_pieces(ps),
        are_pieces(rs),
        name_refusal(glued(ps)) is None,
        glued(rs).len() > 0,
    ensures
        visit_name(prefix_of(glued(ps)), glued(rs)) is Ok <==> text_refusal(
            glued(rs),
            "archive names"@,
        ) is None && !goes_up(rs),
        visit_name(prefix_of(glued(ps)), glued(rs)) matches Ok(name) ==> name is Some
            && encode_utf8(name->0) == {
            let names = steps(ps) + steps(rs);
            let text = if names.len() == 0 {
                seq!['.' as u8]
            } else {
                glued(names)
            };
            if is_open_ended(rs) {
                text + seq!['/' as u8]
            } else {
                text
            }
        },
        visit_name(prefix_of(glued(ps)), Seq::empty()) == Ok::<Option<Seq<char>>, ErrorView>(
            Some(name_text(glued(ps))),
        ),
        visit_name(prefix_of(Seq::empty()), Seq::empty()) == Ok::<Option<Seq<char>>, ErrorView>(
            None,
        ),
        (match name_refusal(glued(rs)) {
            None => visit_name(prefix_of(Seq::empty()), glued(rs)) == Ok::<
                Option<Seq<char>>,
                ErrorView,
            >(Some(name_text(glued(rs)))),
            Some(message) => visit_name(prefix_of(Seq::empty()), glued(rs)) == Err::<
                Option<Seq<char>>,
                ErrorView,
            >(failure(message)),
        }),
{
    let p = glued(ps);
    let r = glued(rs);
    let qs = stored_pieces(ps);
    let all = qs + rs;
    law_path_of_member(ps);
    crate::path::law_member_path_is_kept(p);
    assert(p.len() > 0) by {
        if p.len() == 0 {
            lemma_front(ps);
            assert(ps[0].len() == 0);
            if ps.len() > 1 {
                assert(false);
            }
            lemma_no_steps();
            assert(ps =~= Seq::<Seq<u8>>::empty().push(ps[0]));
            lemma_steps_push(Seq::empty(), ps[0]);
        }
    }
    lemma_stored_pieces(ps);
    crate::name::law_name_is_kept(p);
    lemma_glued_concat(qs, rs);
    lemma_steps_concat(qs, rs);
    lemma_goes_up_concat(qs, rs);
    assert(are_pieces(all)) by {
        assert forall|i: int| 0 <= i < all.len() implies !(#[trigger] all[i]).contains(
            '/' as u8,
        ) by {
            if i < qs.len() {
                assert(all[i] == qs[i]);
            } else {
                assert(all[i] == rs[i - qs.len()]);
            }
        }
    }
    let path = encode_utf8(name_text(p)).push(47) + r;
    assert(path =~= glued(all));
    assert(all[0] == qs[0]);
    assert(all.last() == rs.last());
    law_name_of_member(all);
    // The text of the whole is accepted where that of the file's own part is.
    let front = encode_utf8(name_text(p));
    crate::name::lemma_plain_member_path(p);
    crate::text::lemma_plain_marks();
    if text_refusal(r, "archive names"@) is None {
        crate::text::lemma_plain_concat(front, seq![47u8]);
        crate::text::lemma_plain_concat(front + seq![47u8], r);
        assert(front + seq![47u8] + r =~= path);
    }
    if text_refusal(path, "archive names"@) is None {
        crate::text::lemma_plain_split(path, front.len() as int);
        assert(path.skip(front.len() as int + 1) =~= r);
    }
    assert(rs.last().len() == 0 ==> rs.len() > 1);
}

proof fn lemma_last_start_is(t: Seq<u8>, from: nat, k: nat)
    requires
        from <= k <= t.len(),
        k > from ==> t[k - 1] == 47,
        forall|j: int| k <= j < t.len() ==> t[j] != 47,
    ensures
        last_start(t, from) == k,
    decreases t.len(),
{
    if t.len() > from && k < t.len() {
        assert(t.last() != 47);
        let front = t.drop_last();
        assert forall|j: int| k <= j < front.len() implies front[j] != 47 by {
            assert(front[j] == t[j]);
        }
        lemma_last_start_is(front, from, k);
    }
}

/// The last piece of a path from the root on.
proof fn lemma_rooted_last(ns: Seq<Seq<u8>>)
    requires
        are_names(ns),
        ns.len() > 0,
    ensures
        ({
            let t = from_root(ns);
            let front = from_root(ns.drop_last());
            &&& front_len(t) == 1
            &&& last_start(t, 1) == t.len() - ns.last().len()
            &&& t.skip(last_start(t, 1) as int) == ns.last()
            &&& piece_components(ns.last()).len() > 0
            &&& cut_at(t, 1) == front.len()
            &&& t.take(cut_at(t, 1) as int) == front
        }),
{
    let t = from_root(ns);
    let front = ns.drop_last();
    let last = ns.last();
    lemma_fewer_names(ns);
    lemma_piece(last);
    let k = (t.len() - last.len()) as nat;
    if ns.len() == 1 {
        assert(t =~= seq!['/' as u8] + last);
    } else {
        assert(t =~= from_root(front) + seq!['/' as u8] + last);
        assert(from_root(front).len() >= 1);
    }
    assert forall|j: int| k <= j < t.len() implies t[j] != 47 by {
        assert(t[j] == last[j - k]);
        assert(last.contains(last[j - k]));
    }
    lemma_last_start_is(t, 1, k);
    assert(t.skip(k as int) =~= last);
    assert(t.take(cut_at(t, 1) as int) =~= from_root(front));
}

proof fn lemma_rooted_trimmed(ns: Seq<Seq<u8>>)
    requires
        are_names(ns),
    ensures
        back_trimmed(from_root(ns), 1) == from_root(ns),
        front_len(from_root(ns)) == 1,
{
    if ns.len() > 0 {
        lemma_rooted_last(ns);
    }
}

proof fn lemma_rooted_parent(ns: Seq<Seq<u8>>)
    requires
        are_names(ns),
    ensures
        parent_text(from_root(ns)) == (if ns.len() > 0 {
            Some(from_root(ns.drop_last()))
        } else {
            None
        }),
{
    lemma_rooted_trimmed(ns);
    if ns.len() > 0 {
        lemma_rooted_last(ns);
        lemma_fewer_names(ns);
        lemma_rooted_trimmed(ns.drop_last());
        assert(from_root(ns).len() > 1);
    } else {
        assert(from_root(ns) =~= seq!['/' as u8]);
    }
}

proof fn lemma_rooted_pushed(ns: Seq<Seq<u8>>, s: Seq<u8>)
    requires
        are_names(ns),
    ensures
        pushed_text(from_root(ns), s) == from_root(ns.push(s)),
{
    let t = from_root(ns);
    assert(ns.push(s).drop_last() =~= ns);
    if ns.len() == 0 {
        assert(t =~= seq!['/' as u8]);
        assert(pushed_text(t, s) =~= from_root(ns.push(s)));
    } else {
        lemma_fewer_names(ns);
        let last = ns.last();
        lemma_rooted_last(ns);
        assert(t.skip(last_start(t, 1) as int)[last.len() - 1] == t.last());
        assert(last.contains(last[last.len() - 1]));
        assert(pushed_text(t, s) =~= from_root(ns.push(s)));
    }
}

proof fn lemma_text_resolve_front(t: Seq<u8>, c: ComponentView, cs: Seq<ComponentView>)
    ensures
        text_resolve(t, seq![c] + cs) == (match text_go(t, c) {
            Some(next) => text_resolve(next, cs),
            None => None,
        }),
    decreases cs.len(),
{
    let all = seq![c] + cs;
    if cs.len() == 0 {
        assert(all.drop_last() =~= Seq::<ComponentView>::empty());
        assert(all.last() == c);
    } else {
        assert(all.drop_last() =~= seq![c] + cs.drop_last());
        assert(all.last() == cs.last());
        lemma_text_resolve_front(t, c, cs.drop_last());
    }
}

proof fn lemma_led_text(base: Seq<Seq<u8>>, ps: Seq<Seq<u8>>)
    requires
        are_names(base),
        forall|i: int| 0 <= i < ps.len() ==> !(#[trigger] ps[i]).contains('/' as u8),
    ensures
        text_resolve(from_root(base), components_of(steps(ps))) == (match led(base, ps) {
            Some(ns) => Some(from_root(ns)),
            None => None,
        }),
    decreases ps.len(),
{
    let t = from_root(base);
    if ps.len() == 0 {
        assert(ps =~= Seq::<Seq<u8>>::empty());
        lemma_no_steps();
        assert(components_of(steps(ps)) =~= Seq::<ComponentView>::empty());
    } else {
        let rest = ps.skip(1);
        assert forall|i: int| 0 <= i < rest.len() implies !(#[trigger] rest[i]).contains(
            '/' as u8,
        ) by {
            assert(rest[i] == ps[i + 1]);
        }
        assert(!ps[0].contains('/' as u8));
        lemma_steps_front(ps);
        if ps[0].len() == 0 || is_dot(ps[0]) {
            lemma_led_text(base, rest);
        } else {
            let c = component_of(ps[0]);
            assert(components_of(steps(ps)) =~= seq![c] + components_of(steps(rest)));
            lemma_text_resolve_front(t, c, components_of(steps(rest)));
            if !is_dot_dot(ps[0]) {
                let more = base.push(ps[0]);
                assert(are_names(more)) by {
                    assert forall|i: int| 0 <= i < more.len() implies !(#[trigger] more[i]).contains(
                        '/' as u8,
                    ) && more[i].len() > 0 && !is_dot(more[i]) && !is_dot_dot(more[i]) by {
                        if i < base.len() {
                            assert(more[i] == base[i]);
                        }
                    }
                }
                lemma_rooted_pushed(base, ps[0]);
                lemma_led_text(more, rest);
            } else {
                lemma_rooted_parent(base);
                if base.len() > 0 {
                    lemma_fewer_names(base);
                    lemma_led_text(base.drop_last(), rest);
                }
            }
        }
    }
}

/// The text of a relative path from a directory is that of the path that following its
/// pieces leads to.
pub proof fn law_relative_path_text(base: Seq<Seq<u8>>, ps: Seq<Seq<u8>>)
    requires
        are_names(base),
        are_pieces(ps),
        !is_rooted(ps),
    ensures
        relative_text(from_root(base), glued(ps)) == (match led(base, ps) {
            Some(ns) => Some(from_root(ns)),
            None => None,
        }),
{
    law_components_of_path(ps);
    lemma_led_text(base, ps);
    lemma_text_resolve_front(from_root(base), ComponentView::CurDir, components_of(steps(ps)));
}

/// Directories are unpacked each once, and of two the one first that has the higher
/// byte where their paths differ first, or whose path goes on where the other's ends;
/// of two with the same path the one first that stands first in the archive.
pub proof fn law_order_of_directories(paths: Seq<Seq<u8>>, order: Seq<usize>, k: int, l: int)
    requires
        is_unpack_order(paths, order),
        0 <= k < l < order.len(),
    ensures
        ({
            let a = paths[order[k] as int];
            let b = paths[order[l] as int];
            &&& order[k] < paths.len() && order[l] < paths.len()
            &&& order[k] != order[l]
            &&& a == b ==> order[k] < order[l]
            &&& a != b ==> exists|n: int|
                0 <= n <= b.len() && n < a.len() && #[trigger] b.take(n) == a.take(n) && (n
                    == b.len() || b[n] < a[n])
        }),
        forall|i: int| 0 <= i < paths.len() ==> order.contains(#[trigger] (i as usize)),
{
    let a = paths[order[k] as int];
    let b = paths[order[l] as int];
    assert(unpacked_before(paths, order[k] as int, order[l] as int));
    law_order_of_bytes(b, a);
    lemma_order_has_no_duplicates(paths, order);
    if a == b && lex_less(b, a) {
        let n = choose|n: int|
            0 <= n <= b.len() && n < a.len() && #[trigger] b.take(n) == a.take(n) && (n == b.len()
                || b[n] < a[n]);
        assert(false);
    }
}

} // verus!
