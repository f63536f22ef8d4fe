//! Paths on a file system, resolved by their text alone.

use crate::bytes::{append_bytes, find_byte, first_of, lemma_first_of, lemma_first_of_is};
use crate::path::{
    component_views, components, inner_components, is_absolute, is_inner, is_name,
    lemma_components, lemma_inner_components_at_slash, piece_components, split_components,
    Component, ComponentView,
};
use vstd::prelude::*;

verus! {

/// Whether a path can go up from where its components lead to: not from the
/// root, and not from nowhere.
pub open spec fn can_go_up(st: Seq<ComponentView>) -> bool {
    st.len() > 0 && !(st.last() is RootDir)
}

/// Where a component leads to from `st`. The root is taken only where
/// `rooted` says so.
pub open spec fn go(st: Seq<ComponentView>, c: ComponentView, rooted: bool) -> Option<
    Seq<ComponentView>,
> {
    match c {
        ComponentView::RootDir => if rooted {
            Some(seq![ComponentView::RootDir])
        } else {
            None
        },
        ComponentView::CurDir => Some(st),
        ComponentView::ParentDir => if can_go_up(st) {
            Some(st.drop_last())
        } else {
            None
        },
        ComponentView::Normal(_) => Some(st.push(c)),
    }
}

/// Where components lead to from `st`, one after the other.
pub open spec fn resolve(
    st: Seq<ComponentView>,
    cs: Seq<ComponentView>,
    rooted: bool,
) -> Option<Seq<ComponentView>>
    decreases cs.len(),
{
    if cs.len() == 0 {
        Some(st)
    } else {
        match resolve(st, cs.drop_last(), rooted) {
            Some(before) => go(before, cs.last(), rooted),
            None => None,
        }
    }
}

/// The text of a component.
pub open spec fn component_text(c: ComponentView) -> Seq<u8> {
    match c {
        ComponentView::RootDir => seq![47u8],
        ComponentView::CurDir => seq![46u8],
        ComponentView::ParentDir => seq![46u8, 46u8],
        ComponentView::Normal(n) => n,
    }
}

/// The text of a path with the given components.
pub open spec fn path_text(cs: Seq<ComponentView>) -> Seq<u8>
    decreases cs.len(),
{
    if cs.len() == 0 {
        Seq::empty()
    } else if cs.len() == 1 {
        component_text(cs[0])
    } else if cs.len() == 2 && cs[0] is RootDir {
        component_text(cs[0]) + component_text(cs[1])
    } else {
        path_text(cs.drop_last()).push(47) + component_text(cs.last())
    }
}

/// Where an absolute path leads to.
pub open spec fn absolute_target(p: Seq<u8>) -> Option<Seq<ComponentView>> {
    resolve(Seq::empty(), components(p), true)
}

/// Where a relative path leads to from `dst`.
pub open spec fn relative_target(dst: Seq<u8>, p: Seq<u8>) -> Option<Seq<ComponentView>> {
    resolve(components(dst), components(p), false)
}

/// How many bytes at the front of a path stand before its names: the slash of an
/// absolute path, or the `.` that counts as a component.
pub open spec fn front_len(t: Seq<u8>) -> nat {
    if is_absolute(t) || t.take(first_of(t, 47)) == seq![46u8] {
        1
    } else {
        0
    }
}

/// Where the last piece of a path starts: behind its last slash from `from` on.
pub open spec fn last_start(t: Seq<u8>, from: nat) -> nat
    decreases t.len(),
{
    if t.len() <= from {
        from
    } else if t.last() == 47 {
        t.len()
    } else {
        last_start(t.drop_last(), from)
    }
}

/// The last piece of a path has no slash, and follows one.
pub proof fn lemma_last_start(t: Seq<u8>, from: nat)
    requires
        from <= t.len(),
    ensures
        from <= last_start(t, from) <= t.len(),
        last_start(t, from) > from ==> t[last_start(t, from) - 1] == 47,
        forall|j: int| last_start(t, from) <= j < t.len() ==> t[j] != 47,
    decreases t.len(),
{
    if t.len() > from && t.last() != 47 {
        lemma_last_start(t.drop_last(), from);
        assert forall|j: int| last_start(t, from) <= j < t.len() implies t[j] != 47 by {
            if j < t.len() - 1 {
                assert(t.drop_last()[j] == t[j]);
            }
        }
    }
}

/// How much of a path is left without its last piece and the slash in front of
/// that.
pub open spec fn cut_at(t: Seq<u8>, from: nat) -> nat {
    let a = last_start(t, from);
    if a > from {
        (a - 1) as nat
    } else {
        from
    }
}

/// A path without the slashes and the `.` at its end that count for nothing.
pub open spec fn back_trimmed(t: Seq<u8>, from: nat) -> Seq<u8>
    decreases t.len(),
{
    if t.len() <= from || piece_components(t.skip(last_start(t, from) as int)).len() > 0 {
        t
    } else {
        proof {
            lemma_last_start(t, from);
        }
        back_trimmed(t.take(cut_at(t, from) as int), from)
    }
}

/// The text of a path without its last component: what stands in front of it,
/// up to the end of the component before it. None for the root and for an empty
/// path.
pub open spec fn parent_text(t: Seq<u8>) -> Option<Seq<u8>> {
    let from = front_len(t);
    let q = back_trimmed(t, from);
    if q.len() > from {
        Some(back_trimmed(q.take(cut_at(q, from) as int), from))
    } else if q.len() > 0 && !is_absolute(t) {
        Some(Seq::empty())
    } else {
        None
    }
}

/// The text of a path with one more name.
pub open spec fn pushed_text(t: Seq<u8>, name: Seq<u8>) -> Seq<u8> {
    if t.len() == 0 || t.last() == 47 {
        t + name
    } else {
        t.push(47) + name
    }
}

/// The text of the path to which a component leads from the path `t`.
pub open spec fn text_go(t: Seq<u8>, c: ComponentView) -> Option<Seq<u8>> {
    match c {
        ComponentView::RootDir => None,
        ComponentView::CurDir => Some(t),
        ComponentView::ParentDir => parent_text(t),
        ComponentView::Normal(name) => Some(pushed_text(t, name)),
    }
}

/// The text of the path to which components lead from the path `t`, one after
/// the other.
pub open spec fn text_resolve(t: Seq<u8>, cs: Seq<ComponentView>) -> Option<Seq<u8>>
    decreases cs.len(),
{
    if cs.len() == 0 {
        Some(t)
    } else {
        match text_resolve(t, cs.drop_last()) {
            Some(before) => text_go(before, cs.last()),
            None => None,
        }
    }
}

/// The text of the path to which a relative path leads from `dst`. What is kept
/// of `dst` stays as it is written.
pub open spec fn relative_text(dst: Seq<u8>, p: Seq<u8>) -> Option<Seq<u8>> {
    text_resolve(dst, components(p))
}

/// Whether components are those of an absolute path without `.` and `..`.
pub open spec fn is_resolved(st: Seq<ComponentView>) -> bool {
    &&& st.len() > 0
    &&& st[0] is RootDir
    &&& forall|i: int|
        1 <= i < st.len() ==> (#[trigger] st[i] matches ComponentView::Normal(n) && is_name(n))
}

/// Whether a path has `out` for its text, or leads nowhere.
pub open spec fn is_path_to(out: Option<Vec<u8>>, target: Option<Seq<ComponentView>>) -> bool {
    match target {
        Some(st) => out matches Some(text) && text@ == path_text(st),
        None => out is None,
    }
}

fn push_text(out: &mut Vec<u8>, c: Component)
    ensures
        final(out)@ == old(out)@ + component_text(c@),
{
    match c {
        Component::RootDir => {
            out.push(47u8);
            assert(out@ =~= old(out)@ + component_text(c@));
        },
        Component::CurDir => {
            out.push(46u8);
            assert(out@ =~= old(out)@ + component_text(c@));
        },
        Component::ParentDir => {
            out.push(46u8);
            out.push(46u8);
            assert(out@ =~= old(out)@ + component_text(c@));
        },
        Component::Normal(n) => {
            append_bytes(out, n);
        },
    }
}

fn render(st: &Vec<Component>) -> (out: Vec<u8>)
    ensures
        out@ == path_text(component_views(st@)),
{
    let ghost cs = component_views(st@);
    let mut out: Vec<u8> = Vec::new();
    let mut i: usize = 0;
    assert(cs.take(0) =~= Seq::<ComponentView>::empty());
    while i < st.len()
        invariant
            i <= st@.len(),
            cs == component_views(st@),
            out@ == path_text(cs.take(i as int)),
        decreases st@.len() - i,
    {
        let ghost now = cs.take(i + 1);
        assert(now.drop_last() =~= cs.take(i as int));
        assert(now.last() == st@[i as int]@);
        if i == 0 {
            assert(cs.take(0).len() == 0);
        } else if i == 1 && matches!(st[0], Component::RootDir) {
            assert(cs.take(1)[0] == st@[0]@);
        } else {
            out.push(47u8);
            assert(now[0] == st@[0]@);
        }
        let ghost before = out@;
        push_text(&mut out, st[i]);
        proof {
            if i == 0 {
                assert(out@ =~= component_text(now[0]));
            } else if i == 1 && now[0] is RootDir {
                assert(out@ =~= component_text(now[0]) + component_text(now[1]));
            }
        }
        i = i + 1;
    }
    assert(cs.take(st@.len() as int) =~= cs);
    out
}

fn go_all<'a>(st: &mut Vec<Component<'a>>, parts: &Vec<Component<'a>>) -> (ok: bool)
    ensures
        match resolve(component_views(old(st)@), component_views(parts@), true) {
            Some(after) => ok && component_views(final(st)@) == after,
            None => !ok,
        },
{
    let ghost start = component_views(st@);
    let ghost cs = component_views(parts@);
    let mut i: usize = 0;
    assert(cs.take(0) =~= Seq::<ComponentView>::empty());
    while i < parts.len()
        invariant
            i <= parts@.len(),
            cs == component_views(parts@),
            start == component_views(old(st)@),
            resolve(start, cs.take(i as int), true) == Some(component_views(st@)),
        decreases parts@.len() - i,
    {
        let ghost before = component_views(st@);
        let ghost c = parts@[i as int]@;
        assert(cs.take(i + 1).drop_last() =~= cs.take(i as int));
        assert(cs.take(i + 1).last() == c);
        let part = parts[i];
        let mut stuck: bool = false;
        match part {
            Component::RootDir => {
                st.clear();
                st.push(part);
                assert(component_views(st@) =~= seq![ComponentView::RootDir]);
            },
            Component::CurDir => {},
            Component::ParentDir => {
                if st.len() == 0 {
                    stuck = true;
                } else {
                    assert(before.last() == st@[st@.len() - 1]@);
                    if matches!(st[st.len() - 1], Component::RootDir) {
                        stuck = true;
                    } else {
                        let _ = st.pop();
                        assert(component_views(st@) =~= before.drop_last());
                    }
                }
            },
            Component::Normal(_) => {
                st.push(part);
                assert(component_views(st@) =~= before.push(c));
            },
        }
        if stuck {
            proof {
                lemma_resolve_stuck(start, cs, true, i + 1);
            }
            return false;
        }
        i = i + 1;
    }
    assert(cs.take(parts@.len() as int) =~= cs);
    true
}

/// A path that leads nowhere part of the way leads nowhere.
proof fn lemma_resolve_stuck(
    st: Seq<ComponentView>,
    cs: Seq<ComponentView>,
    rooted: bool,
    k: int,
)
    requires
        0 <= k <= cs.len(),
        resolve(st, cs.take(k), rooted) is None,
    ensures
        resolve(st, cs, rooted) is None,
    decreases cs.len() - k,
{
    if k < cs.len() {
        assert(cs.take(k + 1).drop_last() =~= cs.take(k));
        lemma_resolve_stuck(st, cs, rooted, k + 1);
    } else {
        assert(cs.take(k) =~= cs);
    }
}

/// Normalize an absolute path.
pub fn normalize_absolute(p: &[u8]) -> (resolved: Option<Vec<u8>>)
    ensures
        is_path_to(resolved, absolute_target(p@)),
{
    let parts: Vec<Component> = split_components(p);
    let mut st: Vec<Component> = Vec::new();
    assert(component_views(st@) =~= Seq::<ComponentView>::empty());
    if go_all(&mut st, &parts) {
        Some(render(&st))
    } else {
        None
    }
}

/// A path is made of what is left without its last piece, and of that piece.
proof fn lemma_last_piece(t: Seq<u8>)
    requires
        t.len() > front_len(t),
    ensures
        ({
            let from = front_len(t);
            let u = t.take(cut_at(t, from) as int);
            &&& from <= cut_at(t, from) < t.len()
            &&& components(t) == components(u) + piece_components(
                t.skip(last_start(t, from) as int),
            )
            &&& front_len(u) == from
            &&& is_absolute(u) == is_absolute(t)
        }),
{
    let from = front_len(t);
    let a = last_start(t, from) as int;
    let u = t.take(cut_at(t, from) as int);
    let piece = t.skip(a);
    lemma_last_start(t, from);
    lemma_first_of(t, 47);
    lemma_first_of(u, 47);
    lemma_first_of_is(piece, 47, piece.len() as int);
    let none = Seq::<u8>::empty();
    lemma_first_of_is(none, 47, 0);
    assert(inner_components(none) =~= Seq::<ComponentView>::empty());
    if is_absolute(t) {
        if a > 1 {
            lemma_inner_components_at_slash(u.skip(1), piece);
            assert(t.skip(1) =~= u.skip(1).push(47) + piece);
        } else {
            assert(u.skip(1) =~= none);
            assert(t.skip(1) =~= piece);
        }
        assert(components(t) =~= components(u) + piece_components(piece));
    } else if from == 1 {
        let k = first_of(t, 47);
        assert(t.take(k).len() == 1);
        assert(t[0] == t.take(k)[0]);
        assert(t[1] == 47);
        assert(a >= 2);
        lemma_first_of_is(u, 47, 1);
        assert(u.take(1) =~= seq![46u8]);
        lemma_inner_components_at_slash(u, piece);
        assert(t =~= u.push(47) + piece);
        assert(components(t) =~= components(u) + piece_components(piece));
    } else if a > 0 {
        let k = first_of(t, 47);
        lemma_first_of_is(u, 47, k);
        assert(u.take(k) =~= t.take(k));
        lemma_inner_components_at_slash(u, piece);
        assert(t =~= u.push(47) + piece);
    } else {
        assert(u =~= none);
        assert(piece =~= t);
        assert(none.take(0) != seq![46u8]) by {
            assert(seq![46u8].len() == 1);
        }
        assert(components(none) =~= Seq::<ComponentView>::empty());
        assert(components(t) =~= components(u) + piece_components(piece));
    }
}

/// What is trimmed from the end of a path counts for nothing.
proof fn lemma_back_trimmed(t: Seq<u8>)
    requires
        t.len() >= front_len(t),
    ensures
        ({
            let from = front_len(t);
            let q = back_trimmed(t, from);
            &&& components(q) == components(t)
            &&& front_len(q) == from
            &&& is_absolute(q) == is_absolute(t)
            &&& from <= q.len() <= t.len()
            &&& q.len() > from ==> piece_components(q.skip(last_start(q, from) as int)).len() > 0
        }),
    decreases t.len(),
{
    let from = front_len(t);
    if t.len() > from && piece_components(t.skip(last_start(t, from) as int)).len() == 0 {
        lemma_last_piece(t);
        let u = t.take(cut_at(t, from) as int);
        lemma_back_trimmed(u);
        assert(components(t) =~= components(u));
    }
}

proof fn lemma_front_len(t: Seq<u8>)
    ensures
        front_len(t) <= t.len(),
        !is_absolute(t) && front_len(t) == 1 && t.len() == 1 ==> components(t) == seq![
            ComponentView::CurDir,
        ],
        is_absolute(t) && t.len() == 1 ==> components(t) == seq![ComponentView::RootDir],
        t.len() == 0 ==> components(t) == Seq::<ComponentView>::empty(),
{
    let none = Seq::<u8>::empty();
    lemma_first_of(t, 47);
    lemma_first_of_is(none, 47, 0);
    assert(inner_components(none) =~= Seq::<ComponentView>::empty());
    assert(seq![46u8].len() == 1);
    if is_absolute(t) {
        if t.len() == 1 {
            assert(t.skip(1) =~= none);
            assert(components(t) =~= seq![ComponentView::RootDir]);
        }
    } else if front_len(t) == 1 {
        assert(t.take(first_of(t, 47)).len() == 1);
        if t.len() == 1 {
            assert(t.take(1) =~= t);
            assert(components(t) =~= seq![ComponentView::CurDir]);
        }
    } else if t.len() == 0 {
        assert(t =~= none);
        assert(components(t) =~= Seq::<ComponentView>::empty());
    }
}

/// The path without its last component has all components but the last.
pub proof fn law_parent_has_one_less(t: Seq<u8>)
    ensures
        match parent_text(t) {
            Some(u) => can_go_up(components(t)) && components(u) == components(t).drop_last(),
            None => !can_go_up(components(t)),
        },
{
    let from = front_len(t);
    let q = back_trimmed(t, from);
    lemma_front_len(t);
    lemma_back_trimmed(t);
    lemma_front_len(q);
    if q.len() > from {
        let u = q.take(cut_at(q, from) as int);
        let cs = piece_components(q.skip(last_start(q, from) as int));
        lemma_last_piece(q);
        lemma_back_trimmed(u);
        assert(cs.len() == 1 && !(cs[0] is RootDir));
        assert(components(q).drop_last() =~= components(u));
    } else if q.len() > 0 && !is_absolute(t) {
        let none = Seq::<u8>::empty();
        lemma_front_len(none);
        assert(components(q).drop_last() =~= Seq::<ComponentView>::empty());
    }
}

/// A path with one more name has one more component.
pub proof fn law_pushed_has_one_more(t: Seq<u8>, name: Seq<u8>)
    requires
        is_name(name),
    ensures
        components(pushed_text(t, name)) == components(t).push(ComponentView::Normal(name)),
{
    let c = ComponentView::Normal(name);
    let p = pushed_text(t, name);
    let none = Seq::<u8>::empty();
    lemma_front_len(t);
    lemma_first_of(name, 47);
    assert(first_of(name, 47) == name.len());
    assert(piece_components(name) =~= seq![c]);
    assert(inner_components(name) =~= seq![c]);
    lemma_first_of_is(none, 47, 0);
    assert(inner_components(none) =~= Seq::<ComponentView>::empty());
    if t.len() == 0 {
        assert(p =~= name);
        assert(name.take(name.len() as int) =~= name);
        assert(components(p) =~= components(t).push(c));
    } else if t.len() == 1 && t[0] == 47 {
        assert(p.skip(1) =~= name);
        assert(components(p) =~= components(t).push(c));
    } else {
        // What stands in front of the slash between `t` and the name.
        let u = if t.last() == 47 {
            t.drop_last()
        } else {
            t
        };
        assert(p =~= u.push(47) + name);
        lemma_first_of(u, 47);
        let k = first_of(u, 47);
        lemma_first_of_is(p, 47, k);
        assert(p.take(k) =~= u.take(k));
        if t.last() == 47 {
            assert(t =~= u.push(47) + none);
            lemma_first_of_is(t, 47, k);
            assert(t.take(k) =~= u.take(k));
        }
        if is_absolute(t) {
            lemma_inner_components_at_slash(u.skip(1), name);
            lemma_inner_components_at_slash(u.skip(1), none);
            assert(p.skip(1) =~= u.skip(1).push(47) + name);
            if t.last() == 47 {
                assert(t.skip(1) =~= u.skip(1).push(47) + none);
            }
            assert(inner_components(t.skip(1)) =~= inner_components(u.skip(1)));
            assert(components(p) =~= components(t).push(c));
        } else {
            lemma_inner_components_at_slash(u, name);
            lemma_inner_components_at_slash(u, none);
            assert(inner_components(t) =~= inner_components(u));
            assert(components(p) =~= components(t).push(c));
        }
    }
}

/// The text that a relative path leads to has the components that it leads to.
proof fn lemma_text_resolve(t: Seq<u8>, cs: Seq<ComponentView>)
    requires
        forall|i: int|
            0 <= i < cs.len() ==> (#[trigger] cs[i] matches ComponentView::Normal(n) ==> is_name(n)),
    ensures
        match resolve(components(t), cs, false) {
            Some(st) => text_resolve(t, cs) matches Some(u) && components(u) == st,
            None => text_resolve(t, cs) is None,
        },
    decreases cs.len(),
{
    if cs.len() > 0 {
        let before = cs.drop_last();
        assert forall|i: int| 0 <= i < before.len() implies (#[trigger] before[i] matches ComponentView::Normal(
            n,
        ) ==> is_name(n)) by {
            assert(before[i] == cs[i]);
        }
        lemma_text_resolve(t, before);
        assert(cs[cs.len() - 1] == cs.last());
        if let Some(u) = text_resolve(t, before) {
            law_parent_has_one_less(u);
            if let ComponentView::Normal(n) = cs.last() {
                law_pushed_has_one_more(u, n);
            }
        }
    }
}

/// The text to which a relative path leads from `dst` is that of the path to
/// which its components lead.
pub proof fn law_relative_text(dst: Seq<u8>, p: Seq<u8>)
    ensures
        match relative_target(dst, p) {
            Some(st) => relative_text(dst, p) matches Some(u) && components(u) == st,
            None => relative_text(dst, p) is None,
        },
{
    lemma_components(p);
    let cs = components(p);
    assert forall|i: int| 0 <= i < cs.len() implies (#[trigger] cs[i] matches ComponentView::Normal(
        n,
    ) ==> is_name(n)) by {
        if i > 0 {
            assert(is_inner(cs[i]));
        }
    }
    lemma_text_resolve(dst, cs);
}

/// How many bytes at the front of a path stand before its names.
fn front_len_of(t: &[u8]) -> (from: usize)
    ensures
        from == front_len(t@),
        from <= t@.len(),
{
    proof {
        lemma_front_len(t@);
        lemma_first_of(t@, 47);
    }
    if t.len() > 0 && t[0] == 47 {
        return 1;
    }
    let k: usize = find_byte(t, 47);
    if k == 1 && t[0] == 46 {
        assert(t@.take(1) =~= seq![46u8]);
        return 1;
    }
    assert(t@.take(k as int) != seq![46u8]) by {
        assert(seq![46u8].len() == 1 && seq![46u8][0] == 46);
    }
    0
}

/// Where the last piece of a path starts.
fn last_start_of(t: &[u8], from: usize) -> (a: usize)
    requires
        from <= t@.len(),
    ensures
        a == last_start(t@, from as nat),
        from <= a <= t@.len(),
{
    let mut n: usize = t.len();
    assert(t@.take(n as int) =~= t@);
    while n > from && t[n - 1] != 47
        invariant
            from <= n <= t@.len(),
            last_start(t@.take(n as int), from as nat) == last_start(t@, from as nat),
        decreases n,
    {
        assert(t@.take(n as int).drop_last() =~= t@.take(n - 1));
        n = n - 1;
    }
    assert(n > from ==> t@.take(n as int).last() == 47);
    n
}

/// Cuts a path in front of its last piece and the slash before that.
fn cut_last(t: &mut Vec<u8>, from: usize)
    requires
        from < old(t)@.len(),
    ensures
        final(t)@ == old(t)@.take(cut_at(old(t)@, from as nat) as int),
        from <= final(t)@.len() < old(t)@.len(),
{
    let a: usize = last_start_of(t.as_slice(), from);
    if a > from {
        t.truncate(a - 1);
    } else {
        t.truncate(from);
    }
    assert(t@ =~= old(t)@.take(cut_at(old(t)@, from as nat) as int));
}

/// Takes away the slashes and the `.` at the end of a path.
fn trim_back(t: &mut Vec<u8>, from: usize)
    requires
        from <= old(t)@.len(),
    ensures
        final(t)@ == back_trimmed(old(t)@, from as nat),
        from <= final(t)@.len(),
{
    while t.len() > from
        invariant_except_break
            from <= t@.len(),
            back_trimmed(t@, from as nat) == back_trimmed(old(t)@, from as nat),
        ensures
            from <= t@.len(),
            t@ == back_trimmed(old(t)@, from as nat),
        decreases t@.len(),
    {
        let a: usize = last_start_of(t.as_slice(), from);
        let ghost piece = t@.skip(a as int);
        if t.len() - a > 1 || (t.len() - a == 1 && t[a] != 46) {
            assert(piece != seq![46u8]) by {
                assert(seq![46u8].len() == 1 && seq![46u8][0] == 46);
                assert(piece[0] == t@[a as int]);
            }
            assert(piece_components(piece).len() > 0);
            break ;
        }
        assert(piece.len() == 0 || piece =~= seq![46u8]);
        cut_last(t, from);
    }
}

/// Takes the last component from a path, if it has one that can be taken.
fn pop_text(t: &mut Vec<u8>) -> (done: bool)
    ensures
        match parent_text(old(t)@) {
            Some(u) => done && final(t)@ == u,
            None => !done,
        },
{
    let ghost whole = t@;
    let absolute: bool = t.len() > 0 && t[0] == 47;
    let from: usize = front_len_of(t.as_slice());
    trim_back(t, from);
    if t.len() > from {
        cut_last(t, from);
        trim_back(t, from);
        true
    } else if t.len() > 0 && !absolute {
        t.truncate(0);
        assert(t@ =~= Seq::<u8>::empty());
        true
    } else {
        false
    }
}

/// Puts a name at the end of a path.
fn push_name(t: &mut Vec<u8>, name: &[u8])
    ensures
        final(t)@ == pushed_text(old(t)@, name@),
{
    if t.len() > 0 && t[t.len() - 1] != 47 {
        t.push(47u8);
    }
    append_bytes(t, name);
}

/// A text that leads nowhere part of the way leads nowhere.
proof fn lemma_text_stuck(t: Seq<u8>, cs: Seq<ComponentView>, k: int)
    requires
        0 <= k <= cs.len(),
        text_resolve(t, cs.take(k)) is None,
    ensures
        text_resolve(t, cs) is None,
    decreases cs.len() - k,
{
    if k < cs.len() {
        assert(cs.take(k + 1).drop_last() =~= cs.take(k));
        lemma_text_stuck(t, cs, k + 1);
    } else {
        assert(cs.take(k) =~= cs);
    }
}

/// Normalize a path relative to a destination directory.
pub fn normalize_relative(dst: &[u8], p: &[u8]) -> (resolved: Option<Vec<u8>>)
    ensures
        match relative_text(dst@, p@) {
            Some(text) => resolved matches Some(v) && v@ == text,
            None => resolved is None,
        },
        match relative_target(dst@, p@) {
            Some(st) => resolved matches Some(v) && components(v@) == st,
            None => resolved is None,
        },
{
    proof {
        law_relative_text(dst@, p@);
    }
    let parts: Vec<Component> = split_components(p);
    let ghost cs = components(p@);
    let mut t: Vec<u8> = Vec::new();
    append_bytes(&mut t, dst);
    assert(t@ =~= dst@);
    let mut i: usize = 0;
    assert(cs.take(0) =~= Seq::<ComponentView>::empty());
    while i < parts.len()
        invariant
            i <= parts@.len(),
            cs == components(p@),
            cs == component_views(parts@),
            text_resolve(dst@, cs.take(i as int)) == Some(t@),
        decreases parts@.len() - i,
    {
        assert(cs.take(i + 1).drop_last() =~= cs.take(i as int));
        assert(cs.take(i + 1).last() == parts@[i as int]@);
        let on: bool = match parts[i] {
            Component::RootDir => false,
            Component::CurDir => true,
            Component::ParentDir => pop_text(&mut t),
            Component::Normal(name) => {
                push_name(&mut t, name);
                true
            },
        };
        if !on {
            proof {
                lemma_text_stuck(dst@, cs, i + 1);
                law_relative_text(dst@, p@);
            }
            return None;
        }
        i = i + 1;
    }
    assert(cs.take(parts@.len() as int) =~= cs);
    Some(t)
}

proof fn lemma_resolve_resolved(st: Seq<ComponentView>, cs: Seq<ComponentView>, rooted: bool)
    requires
        is_resolved(st) || (st.len() == 0 && cs.len() > 0 && cs[0] is RootDir && rooted),
        forall|i: int| 1 <= i < cs.len() ==> is_inner(#[trigger] cs[i]),
        cs.len() > 0 ==> cs[0] is RootDir || cs[0] is CurDir || is_inner(cs[0]),
    ensures
        resolve(st, cs, rooted) matches Some(r) ==> is_resolved(r) || cs.len() == 0,
    decreases cs.len(),
{
    if cs.len() > 1 {
        lemma_resolve_resolved(st, cs.drop_last(), rooted);
        assert(is_inner(cs[cs.len() - 1]));
    } else if cs.len() == 1 {
        assert(resolve(st, cs.drop_last(), rooted) == Some(st));
    }
}

/// An absolute path leads to an absolute path without `.` and `..`.
pub proof fn law_absolute_target_is_resolved(p: Seq<u8>)
    requires
        is_absolute(p),
    ensures
        absolute_target(p) matches Some(st) ==> is_resolved(st),
{
    lemma_components(p);
    lemma_resolve_resolved(Seq::empty(), components(p), true);
}

/// A path leads from an absolute directory without `.` and `..` to another one.
pub proof fn law_relative_target_is_resolved(dst: Seq<u8>, p: Seq<u8>)
    requires
        is_resolved(components(dst)),
    ensures
        relative_target(dst, p) matches Some(st) ==> is_resolved(st),
{
    lemma_components(p);
    lemma_resolve_resolved(components(dst), components(p), false);
}

/// The components of an absolute path without `.` and `..` are read back from
/// its text.
pub proof fn law_resolved_text(st: Seq<ComponentView>)
    requires
        is_resolved(st),
    ensures
        components(path_text(st)) == st,
        is_absolute(path_text(st)),
    decreases st.len(),
{
    let t = path_text(st);
    if st.len() == 1 {
        assert(st =~= seq![ComponentView::RootDir]);
        assert(t.skip(1) =~= Seq::<u8>::empty());
        lemma_first_of_is(Seq::<u8>::empty(), 47, 0);
        assert(inner_components(Seq::<u8>::empty()) =~= Seq::<ComponentView>::empty());
        assert(components(t) =~= st);
    } else {
        let init = st.drop_last();
        let last = st.last();
        assert(st[st.len() - 1] matches ComponentView::Normal(n) && is_name(n));
        let n = component_text(last);
        lemma_first_of(n, 47);
        assert(first_of(n, 47) == n.len());
        assert(piece_components(n) =~= seq![last]);
        assert(inner_components(n) =~= seq![last]);
        if st.len() == 2 {
            assert(t.skip(1) =~= n);
            assert(components(t) =~= st);
        } else {
            law_resolved_text(init);
            let before = path_text(init);
            lemma_inner_components_at_slash(before.skip(1), n);
            assert(t.skip(1) =~= before.skip(1).push(47) + n);
            let inner = inner_components(before.skip(1));
            assert(components(before) == seq![ComponentView::RootDir] + inner);
            assert(inner =~= init.skip(1)) by {
                assert(components(before).skip(1) =~= inner);
            }
            assert(t[0] == before[0]);
            assert(components(t) =~= st);
        }
    }
}

proof fn lemma_resolve_names(base: Seq<ComponentView>, cs: Seq<ComponentView>, rooted: bool)
    requires
        forall|i: int| 0 <= i < cs.len() ==> (#[trigger] cs[i]) is Normal,
    ensures
        resolve(base, cs, rooted) == Some(base + cs),
    decreases cs.len(),
{
    if cs.len() == 0 {
        assert(base + cs =~= base);
    } else {
        lemma_resolve_names(base, cs.drop_last(), rooted);
        assert(cs[cs.len() - 1] is Normal);
        assert((base + cs.drop_last()).push(cs.last()) =~= base + cs);
    }
}

proof fn lemma_resolve_concat(
    st: Seq<ComponentView>,
    a: Seq<ComponentView>,
    b: Seq<ComponentView>,
    rooted: bool,
)
    ensures
        resolve(st, a + b, rooted) == (match resolve(st, a, rooted) {
            Some(mid) => resolve(mid, b, rooted),
            None => None,
        }),
    decreases b.len(),
{
    if b.len() == 0 {
        assert(a + b =~= a);
    } else {
        lemma_resolve_concat(st, a, b.drop_last(), rooted);
        assert((a + b).drop_last() =~= a + b.drop_last());
    }
}

proof fn lemma_resolve_resolved_path(st: Seq<ComponentView>)
    requires
        is_resolved(st),
    ensures
        resolve(Seq::empty(), st, true) == Some(st),
{
    let root = seq![ComponentView::RootDir];
    let rest = st.skip(1);
    let none = Seq::<ComponentView>::empty();
    assert(st =~= root + rest);
    lemma_resolve_concat(none, root, rest, true);
    assert(root.drop_last() =~= none);
    assert(resolve(none, root.drop_last(), true) == Some(none));
    assert(resolve(none, root, true) == Some(root));
    assert forall|i: int| 0 <= i < rest.len() implies (#[trigger] rest[i]) is Normal by {
        assert(rest[i] == st[i + 1]);
    }
    lemma_resolve_names(root, rest, true);
}

/// Normalizing again changes nothing.
pub proof fn law_normalize_absolute_is_idempotent(p: Seq<u8>)
    requires
        is_absolute(p),
    ensures
        absolute_target(p) matches Some(st) ==> absolute_target(path_text(st)) == Some(st),
{
    law_absolute_target_is_resolved(p);
    if let Some(st) = absolute_target(p) {
        law_resolved_text(st);
        lemma_resolve_resolved_path(st);
    }
}

/// Whether components lead on does not depend on the root, where they have
/// none.
proof fn lemma_resolve_unrooted(st: Seq<ComponentView>, cs: Seq<ComponentView>)
    requires
        forall|i: int| 0 <= i < cs.len() ==> !((#[trigger] cs[i]) is RootDir),
    ensures
        resolve(st, cs, true) == resolve(st, cs, false),
    decreases cs.len(),
{
    if cs.len() > 0 {
        lemma_resolve_unrooted(st, cs.drop_last());
        assert(!(cs[cs.len() - 1] is RootDir));
    }
}

/// A relative path leads from an absolute directory without `.` and `..` to
/// where the absolute path leads that is made of the two.
pub proof fn law_relative_is_absolute_of_joined(dst: Seq<u8>, p: Seq<u8>)
    requires
        is_absolute(dst),
        is_resolved(components(dst)),
        !is_absolute(p),
    ensures
        relative_target(dst, p) == absolute_target(dst.push(47) + p),
{
    let whole = dst.push(47) + p;
    let base = components(dst);
    let tail = inner_components(p);
    let cs = components(p);
    lemma_inner_components_at_slash(dst.skip(1), p);
    assert(whole.skip(1) =~= dst.skip(1).push(47) + p);
    assert(components(whole) =~= base + tail);
    let none = Seq::<ComponentView>::empty();
    lemma_resolve_concat(none, base, tail, true);
    lemma_resolve_resolved_path(base);
    crate::path::lemma_inner_components(p);
    assert forall|i: int| 0 <= i < tail.len() implies !((#[trigger] tail[i]) is RootDir) by {
        assert(is_inner(tail[i]));
    }
    lemma_resolve_unrooted(base, tail);
    if cs != tail {
        let dot = seq![ComponentView::CurDir];
        assert(cs =~= dot + tail);
        lemma_resolve_concat(base, dot, tail, false);
        assert(dot.drop_last() =~= none);
        assert(resolve(base, dot.drop_last(), false) == Some(base));
        assert(resolve(base, dot, false) == Some(base));
    }
}

} // verus!
