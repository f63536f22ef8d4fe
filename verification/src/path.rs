//! Paths as bytes, and the components that they are made of.

use crate::bytes::{append_bytes, find_byte, first_of, lemma_first_of, lemma_first_of_is};
use crate::error::{failure, other, Error};
use vstd::prelude::*;

verus! {

/// A component of a path.
#[derive(Clone, Copy, Debug)]
pub enum Component<'a> {
    /// The slash at the front of an absolute path.
    RootDir,
    /// A `.` at the front of a relative path.
    CurDir,
    /// A `..`.
    ParentDir,
    /// A name.
    Normal(&'a [u8]),
}

/// What a [`Component`] is.
pub enum ComponentView {
    RootDir,
    CurDir,
    ParentDir,
    Normal(Seq<u8>),
}

impl<'a> View for Component<'a> {
    type V = ComponentView;

    open spec fn view(&self) -> ComponentView {
        match self {
            Component::RootDir => ComponentView::RootDir,
            Component::CurDir => ComponentView::CurDir,
            Component::ParentDir => ComponentView::ParentDir,
            Component::Normal(name) => ComponentView::Normal(name@),
        }
    }
}

/// What a sequence of components is.
pub open spec fn component_views(cs: Seq<Component>) -> Seq<ComponentView> {
    Seq::new(cs.len(), |i: int| cs[i]@)
}

/// The component that a piece of a path between slashes gives, behind the
/// front of the path: none for an empty piece and for `.`.
pub open spec fn piece_components(piece: Seq<u8>) -> Seq<ComponentView> {
    if piece.len() == 0 || piece == seq![46u8] {
        Seq::empty()
    } else if piece == seq![46u8, 46u8] {
        seq![ComponentView::ParentDir]
    } else {
        seq![ComponentView::Normal(piece)]
    }
}

/// The components of a path from behind a slash on.
pub open spec fn inner_components(p: Seq<u8>) -> Seq<ComponentView>
    decreases p.len(),
{
    let k = first_of(p, 47);
    if 0 <= k < p.len() {
        piece_components(p.take(k)) + inner_components(p.skip(k + 1))
    } else {
        piece_components(p)
    }
}

/// The components of a path. Slashes that follow each other count as one, and
/// a `.` counts only at the front of a relative path.
pub open spec fn components(p: Seq<u8>) -> Seq<ComponentView> {
    let k = first_of(p, 47);
    if is_absolute(p) {
        seq![ComponentView::RootDir] + inner_components(p.skip(1))
    } else if p.take(k) == seq![46u8] {
        seq![ComponentView::CurDir] + inner_components(p)
    } else {
        inner_components(p)
    }
}

/// Whether a path starts at the root.
pub open spec fn is_absolute(p: Seq<u8>) -> bool {
    p.len() > 0 && p[0] == 47
}

/// The names among components, in their order.
pub open spec fn names(cs: Seq<ComponentView>) -> Seq<Seq<u8>>
    decreases cs.len(),
{
    if cs.len() == 0 {
        Seq::empty()
    } else {
        match cs.last() {
            ComponentView::Normal(name) => names(cs.drop_last()).push(name),
            _ => names(cs.drop_last()),
        }
    }
}

/// Names with a slash between each two.
pub open spec fn joined(parts: Seq<Seq<u8>>) -> Seq<u8>
    decreases parts.len(),
{
    if parts.len() == 0 {
        Seq::empty()
    } else if parts.len() == 1 {
        parts[0]
    } else {
        joined(parts.drop_last()).push(47) + parts.last()
    }
}

fn push_piece<'a>(out: &mut Vec<Component<'a>>, piece: &'a [u8])
    ensures
        component_views(final(out)@) == component_views(old(out)@) + piece_components(piece@),
{
    if piece.len() == 0 {
        assert(component_views(out@) =~= component_views(old(out)@) + piece_components(piece@));
    } else if piece.len() == 1 && piece[0] == 46 {
        assert(piece@ =~= seq![46u8]);
        assert(component_views(out@) =~= component_views(old(out)@) + piece_components(piece@));
    } else if piece.len() == 2 && piece[0] == 46 && piece[1] == 46 {
        assert(piece@ =~= seq![46u8, 46u8]);
        assert(piece@ != seq![46u8]) by {
            assert(seq![46u8].len() == 1);
        }
        out.push(Component::ParentDir);
        assert(component_views(out@) =~= component_views(old(out)@) + piece_components(piece@));
    } else {
        assert(piece@ != seq![46u8]) by {
            assert(seq![46u8].len() == 1 && seq![46u8][0] == 46);
        }
        assert(piece@ != seq![46u8, 46u8]) by {
            assert(seq![46u8, 46u8].len() == 2);
            assert(seq![46u8, 46u8][0] == 46 && seq![46u8, 46u8][1] == 46);
        }
        out.push(Component::Normal(piece));
        assert(component_views(out@) =~= component_views(old(out)@) + piece_components(piece@));
    }
}

/// Splits a path into its components.
pub fn split_components<'a>(path: &'a [u8]) -> (out: Vec<Component<'a>>)
    ensures
        component_views(out@) == components(path@),
{
    let mut out: Vec<Component<'a>> = Vec::new();
    let mut at: usize = 0;
    let first: usize = find_byte(path, 47);
    proof {
        lemma_first_of(path@, 47);
    }
    if path.len() > 0 && path[0] == 47 {
        out.push(Component::RootDir);
        at = 1;
    } else if first == 1 && path[0] == 46 {
        assert(path@.take(1) =~= seq![46u8]);
        out.push(Component::CurDir);
        assert(path@.skip(0) =~= path@);
    } else {
        assert(path@.take(first as int) != seq![46u8]) by {
            assert(seq![46u8].len() == 1 && seq![46u8][0] == 46);
        }
        assert(path@.skip(0) =~= path@);
    }
    assert(component_views(out@) + inner_components(path@.skip(at as int)) =~= components(path@));
    loop
        invariant
            at <= path@.len(),
            component_views(out@) + inner_components(path@.skip(at as int)) == components(path@),
        decreases path@.len() - at,
    {
        let rest = vstd::slice::slice_subrange(path, at, path.len());
        assert(rest@ =~= path@.skip(at as int));
        let k: usize = find_byte(rest, 47);
        proof {
            lemma_first_of(rest@, 47);
        }
        let ghost before = component_views(out@);
        if k < rest.len() {
            let piece = vstd::slice::slice_subrange(path, at, at + k);
            assert(piece@ =~= rest@.take(k as int));
            push_piece(&mut out, piece);
            assert(rest@.skip(k + 1) =~= path@.skip(at + k + 1));
            assert(component_views(out@) + inner_components(path@.skip(at + k + 1))
                =~= before + inner_components(rest@));
            at = at + k + 1;
        } else {
            push_piece(&mut out, rest);
            assert(component_views(out@) =~= before + inner_components(rest@));
            return out;
        }
    }
}

/// Whether a path ends in a slash.
pub open spec fn ends_in_slash(p: Seq<u8>) -> bool {
    p.len() > 0 && p.last() == 47
}

/// The path that a member is stored under: the names of `p` with a slash
/// between each two, or `.` where `p` is nothing else, and a slash at the end
/// where `p` has one.
pub open spec fn member_path(p: Seq<u8>) -> Seq<u8> {
    let cs = components(p);
    let text = if cs == seq![ComponentView::CurDir] {
        seq![46u8]
    } else {
        joined(names(cs))
    };
    if ends_in_slash(p) {
        text.push(47)
    } else {
        text
    }
}

/// Why a path cannot be a member's: it is absolute, it has a `..`, or it has
/// no component.
pub open spec fn member_path_refusal(p: Seq<u8>) -> Option<Seq<char>> {
    let cs = components(p);
    if is_absolute(p) {
        Some("paths in archives must be relative"@)
    } else if cs.contains(ComponentView::ParentDir) {
        Some("paths in archives must not have `..`"@)
    } else if cs.len() == 0 {
        Some("paths in archives must have at least one component"@)
    } else {
        None
    }
}

/// Whether bytes can be the name of a path component.
pub open spec fn is_name(n: Seq<u8>) -> bool {
    &&& n.len() > 0
    &&& !n.contains(47)
    &&& n != seq![46u8]
    &&& n != seq![46u8, 46u8]
}

/// Whether a component can stand behind the front of a path.
pub open spec fn is_inner(c: ComponentView) -> bool {
    match c {
        ComponentView::RootDir => false,
        ComponentView::CurDir => false,
        ComponentView::ParentDir => true,
        ComponentView::Normal(n) => is_name(n),
    }
}

/// Behind the front of a path stand only names and `..`.
pub proof fn lemma_inner_components(p: Seq<u8>)
    ensures
        forall|i: int|
            0 <= i < inner_components(p).len() ==> is_inner(#[trigger] inner_components(p)[i]),
    decreases p.len(),
{
    lemma_first_of(p, 47);
    let k = first_of(p, 47);
    if k < p.len() {
        lemma_inner_components(p.skip(k + 1));
        assert(!p.take(k).contains(47));
        let all = inner_components(p);
        let front = piece_components(p.take(k));
        assert forall|i: int| 0 <= i < all.len() implies is_inner(#[trigger] all[i]) by {
            if i >= front.len() {
                assert(all[i] == inner_components(p.skip(k + 1))[i - front.len()]);
            }
        }
    } else {
        assert(!p.contains(47));
    }
}

/// At the front of a path stands the root, a `.`, or what may stand anywhere;
/// behind it only what may stand anywhere.
pub proof fn lemma_components(p: Seq<u8>)
    ensures
        forall|i: int| 1 <= i < components(p).len() ==> is_inner(#[trigger] components(p)[i]),
        is_absolute(p) <==> components(p).len() > 0 && components(p)[0] is RootDir,
        components(p).len() > 0 ==> components(p)[0] is RootDir || components(p)[0] is CurDir
            || is_inner(components(p)[0]),
{
    lemma_inner_components(p);
    if is_absolute(p) {
        lemma_inner_components(p.skip(1));
        assert forall|i: int| 1 <= i < components(p).len() implies is_inner(
            #[trigger] components(p)[i],
        ) by {
            assert(components(p)[i] == inner_components(p.skip(1))[i - 1]);
        }
    } else if p.take(first_of(p, 47)) == seq![46u8] {
        assert forall|i: int| 1 <= i < components(p).len() implies is_inner(
            #[trigger] components(p)[i],
        ) by {
            assert(components(p)[i] == inner_components(p)[i - 1]);
        }
    } else {
        assert(components(p) == inner_components(p));
    }
}

/// The components in front of a slash and those behind it make up the whole.
pub proof fn lemma_inner_components_at_slash(a: Seq<u8>, b: Seq<u8>)
    ensures
        inner_components(a.push(47) + b) == inner_components(a) + inner_components(b),
    decreases a.len(),
{
    let p = a.push(47) + b;
    lemma_first_of(a, 47);
    let k = first_of(a, 47);
    lemma_first_of_is(p, 47, k);
    if k < a.len() {
        let rest = a.skip(k + 1);
        lemma_inner_components_at_slash(rest, b);
        assert(p.take(k) =~= a.take(k));
        assert(p.skip(k + 1) =~= rest.push(47) + b);
        assert(inner_components(p) =~= inner_components(a) + inner_components(b));
    } else {
        assert(p.take(k) =~= a);
        assert(p.skip(k + 1) =~= b);
    }
}

/// Names as components.
pub open spec fn as_components(ns: Seq<Seq<u8>>) -> Seq<ComponentView> {
    Seq::new(ns.len(), |i: int| ComponentView::Normal(ns[i]))
}

/// Joined names give back the names as components, with or without a slash at
/// the end.
pub proof fn lemma_joined_components(ns: Seq<Seq<u8>>)
    requires
        ns.len() > 0,
        forall|i: int| 0 <= i < ns.len() ==> is_name(#[trigger] ns[i]),
    ensures
        components(joined(ns)) == as_components(ns),
        components(joined(ns).push(47)) == as_components(ns),
        joined(ns).len() > 0,
        joined(ns)[0] != 47,
        joined(ns).last() != 47,
    decreases ns.len(),
{
    let t = joined(ns);
    let last = ns.last();
    assert(is_name(ns[ns.len() - 1]));
    assert(!last.contains(47));
    lemma_first_of(last, 47);
    assert(first_of(last, 47) == last.len());
    assert(last[last.len() - 1] != 47) by {
        assert(last.contains(last[last.len() - 1]));
    }
    assert(piece_components(last) =~= seq![ComponentView::Normal(last)]);
    if ns.len() == 1 {
        assert(t == last);
        assert(last.contains(last[0]));
        assert(inner_components(t) =~= as_components(ns));
    } else {
        let init = ns.drop_last();
        lemma_joined_components(init);
        lemma_inner_components_at_slash(joined(init), last);
        assert(inner_components(joined(init)) == as_components(init)) by {
            lemma_relative_components(joined(init), init);
        }
        assert(inner_components(t) =~= as_components(ns));
        assert(t.last() == last.last());
    }
    assert(inner_components(Seq::<u8>::empty()) =~= Seq::<ComponentView>::empty());
    lemma_inner_components_at_slash(t, Seq::empty());
    assert(t.push(47) + Seq::<u8>::empty() =~= t.push(47));
    assert(inner_components(t.push(47)) =~= as_components(ns));
    let k = first_of(t, 47);
    lemma_first_of(t, 47);
    lemma_first_piece(ns);
    assert(t.take(k) != seq![46u8]);
    lemma_first_of_is(t.push(47), 47, k);
    assert(t.push(47).take(k) =~= t.take(k));
}

/// Where the components of a path are names, they are those behind its front
/// too.
proof fn lemma_relative_components(p: Seq<u8>, ns: Seq<Seq<u8>>)
    requires
        ns.len() > 0,
        components(p) == as_components(ns),
    ensures
        inner_components(p) == as_components(ns),
{
    assert(components(p)[0] is Normal);
}

/// Joined names start with the first of them.
proof fn lemma_first_piece(ns: Seq<Seq<u8>>)
    requires
        ns.len() > 0,
        forall|i: int| 0 <= i < ns.len() ==> is_name(#[trigger] ns[i]),
    ensures
        first_of(joined(ns), 47) == ns[0].len(),
        joined(ns).take(ns[0].len() as int) == ns[0],
        ns[0].len() <= joined(ns).len(),
    decreases ns.len(),
{
    let n = ns[0];
    assert(is_name(ns[0]));
    assert forall|j: int| 0 <= j < n.len() implies n[j] != 47 by {
        assert(n.contains(n[j]));
    }
    if ns.len() == 1 {
        lemma_first_of_is(n, 47, n.len() as int);
        assert(n.take(n.len() as int) =~= n);
    } else {
        let init = ns.drop_last();
        lemma_first_piece(init);
        let t = joined(ns);
        let head = joined(init);
        lemma_first_of(head, 47);
        assert forall|j: int| 0 <= j < n.len() implies t[j] != 47 by {
            assert(t[j] == head[j]);
            assert(head.take(n.len() as int)[j] == head[j]);
        }
        lemma_first_of_is(t, 47, n.len() as int);
        assert(t.take(n.len() as int) =~= n);
    }
}

/// The names of a path's components are names.
pub proof fn lemma_names(cs: Seq<ComponentView>)
    requires
        forall|i: int| 0 <= i < cs.len() && (#[trigger] cs[i]) is Normal ==> is_inner(cs[i]),
    ensures
        forall|i: int| 0 <= i < names(cs).len() ==> is_name(#[trigger] names(cs)[i]),
        names(cs).len() <= cs.len(),
    decreases cs.len(),
{
    if cs.len() > 0 {
        lemma_names(cs.drop_last());
        assert(is_inner(cs[cs.len() - 1]) || !(cs.last() is Normal));
    }
}

/// Every component of a path but the first is a name, where none is a `..`.
proof fn lemma_names_count(cs: Seq<ComponentView>)
    requires
        forall|i: int| 1 <= i < cs.len() ==> is_inner(#[trigger] cs[i]),
        !cs.contains(ComponentView::ParentDir),
        cs.len() > 0,
    ensures
        names(cs).len() >= cs.len() - 1,
        cs[0] is Normal ==> names(cs).len() == cs.len(),
    decreases cs.len(),
{
    assert(cs.contains(cs.last()));
    if cs.len() > 1 {
        let init = cs.drop_last();
        assert(is_inner(cs[cs.len() - 1]));
        assert forall|i: int| 1 <= i < init.len() implies is_inner(#[trigger] init[i]) by {
            assert(is_inner(cs[i]));
        }
        assert(!init.contains(ComponentView::ParentDir)) by {
            if init.contains(ComponentView::ParentDir) {
                let j = choose|j: int| 0 <= j < init.len() && init[j] is ParentDir;
                assert(cs[j] is ParentDir);
                assert(cs.contains(cs[j]));
            }
        }
        lemma_names_count(init);
        assert(cs.last() is Normal);
        assert(names(cs).len() == names(init).len() + 1);
    } else {
        assert(names(cs.drop_last()).len() == 0);
        assert(cs.last() == cs[0]);
    }
}

/// The path that a member is stored under is stored as it is: it is relative,
/// has no `..`, and is made of the same names.
pub proof fn law_member_path_is_kept(p: Seq<u8>)
    requires
        member_path_refusal(p) is None,
    ensures
        member_path_refusal(member_path(p)) is None,
        member_path(member_path(p)) == member_path(p),
        names(components(member_path(p))) == names(components(p)),
        member_path(p).len() > 0,
{
    let cs = components(p);
    let t = member_path(p);
    let dot = seq![46u8];
    lemma_components(p);
    if cs == seq![ComponentView::CurDir] {
        assert(dot.take(1) =~= dot);
        assert(dot.push(47).take(1) =~= dot);
        lemma_first_of_is(dot, 47, 1);
        lemma_first_of_is(dot.push(47), 47, 1);
        let empty = Seq::<u8>::empty();
        lemma_first_of_is(empty, 47, 0);
        assert(piece_components(dot) =~= Seq::<ComponentView>::empty());
        assert(inner_components(dot) =~= Seq::<ComponentView>::empty());
        assert(dot.push(47).skip(2) =~= empty);
        assert(inner_components(dot.push(47)) =~= Seq::<ComponentView>::empty()) by {
            assert(inner_components(empty) =~= Seq::<ComponentView>::empty());
        }
        assert(components(t) =~= cs);
        assert(!components(t).contains(ComponentView::ParentDir)) by {
            assert(components(t).len() == 1 && components(t)[0] is CurDir);
        }
    } else {
        let ns = names(cs);
        assert forall|i: int| 0 <= i < cs.len() && (#[trigger] cs[i]) is Normal implies is_inner(
            cs[i],
        ) by {
            if i == 0 {
                assert(cs[0] is RootDir || cs[0] is CurDir || is_inner(cs[0]));
            }
        }
        lemma_names(cs);
        lemma_names_count(cs);
        assert(ns.len() > 0) by {
            if cs.len() == 1 {
                assert(cs.contains(cs[0]));
                if cs[0] is CurDir {
                    assert(cs =~= seq![ComponentView::CurDir]);
                }
            }
        }
        lemma_joined_components(ns);
        assert(components(t) == as_components(ns));
        let ct = components(t);
        assert(ct != seq![ComponentView::CurDir]) by {
            assert(ct[0] is Normal);
            assert(seq![ComponentView::CurDir][0] is CurDir);
        }
        assert(!ct.contains(ComponentView::ParentDir)) by {
            if ct.contains(ComponentView::ParentDir) {
                let j = choose|j: int| 0 <= j < ct.len() && ct[j] is ParentDir;
                assert(ct[j] is Normal);
            }
        }
        assert(!is_absolute(t));
        lemma_names_of_names(ns);
    }
}

/// Joined names are the path of a member as they are.
pub proof fn lemma_joined_names_are_kept(ns: Seq<Seq<u8>>)
    requires
        ns.len() > 0,
        forall|i: int| 0 <= i < ns.len() ==> is_name(#[trigger] ns[i]),
    ensures
        member_path_refusal(joined(ns)) is None,
        member_path(joined(ns)) == joined(ns),
{
    let cs = as_components(ns);
    lemma_joined_components(ns);
    lemma_names_of_names(ns);
    assert(cs != seq![ComponentView::CurDir]) by {
        assert(cs[0] is Normal);
        assert(seq![ComponentView::CurDir][0] is CurDir);
    }
    assert(!cs.contains(ComponentView::ParentDir)) by {
        if cs.contains(ComponentView::ParentDir) {
            let j = choose|j: int| 0 <= j < cs.len() && cs[j] is ParentDir;
            assert(cs[j] is Normal);
        }
    }
}

proof fn lemma_names_of_names(ns: Seq<Seq<u8>>)
    ensures
        names(as_components(ns)) == ns,
    decreases ns.len(),
{
    if ns.len() > 0 {
        lemma_names_of_names(ns.drop_last());
        assert(as_components(ns).drop_last() =~= as_components(ns.drop_last()));
        assert(names(as_components(ns)) =~= ns);
    } else {
        assert(names(as_components(ns)) =~= ns);
    }
}

/// The path that a member is stored under.
pub(crate) fn archive_path(path: &[u8]) -> (out: Result<Vec<u8>, Error>)
    ensures
        match member_path_refusal(path@) {
            Some(message) => out matches Err(e) && e@ == failure(message),
            None => out matches Ok(text) && text@ == member_path(path@),
        },
{
    let parts: Vec<Component> = split_components(path);
    let ghost cs = components(path@);
    proof {
        lemma_components(path@);
    }
    let sole: bool = parts.len() == 1;
    let mut result: Vec<u8> = Vec::new();
    let mut i: usize = 0;
    assert(cs.take(0) =~= Seq::<ComponentView>::empty());
    while i < parts.len()
        invariant
            i <= parts@.len(),
            cs == components(path@),
            component_views(parts@) == cs,
            sole == (cs.len() == 1),
            forall|j: int| 1 <= j < cs.len() ==> is_inner(#[trigger] cs[j]),
            is_absolute(path@) <==> cs.len() > 0 && cs[0] is RootDir,
            cs.len() > 0 ==> cs[0] is RootDir || cs[0] is CurDir || is_inner(cs[0]),
            forall|j: int| 0 <= j < i ==> !(cs[j] is RootDir) && !(cs[j] is ParentDir),
            sole && i == 1 && cs[0] is CurDir ==> result@ == seq![46u8],
            !(sole && cs[0] is CurDir) ==> result@ == joined(names(cs.take(i as int))),
            result@.len() == 0 <==> names(cs.take(i as int)).len() == 0 && !(sole && i == 1
                && cs[0] is CurDir),
            i > 1 ==> result@.len() > 0,
            i == 1 ==> (cs[0] is Normal ==> result@.len() > 0),
        decreases parts@.len() - i,
    {
        assert(cs[i as int] == parts@[i as int]@);
        assert(cs.take(i + 1).drop_last() =~= cs.take(i as int));
        match parts[i] {
            Component::RootDir => {
                return Err(other("paths in archives must be relative"));
            },
            Component::ParentDir => {
                assert(cs.contains(ComponentView::ParentDir));
                return Err(other("paths in archives must not have `..`"));
            },
            Component::CurDir => {
                assert(i == 0);
                assert(names(cs.take(0)).len() == 0);
                if sole {
                    result.push(46u8);
                    assert(result@ =~= seq![46u8]);
                }
            },
            Component::Normal(name) => {
                let ghost before = names(cs.take(i as int));
                let ghost old_result = result@;
                if result.len() > 0 {
                    result.push(47u8);
                }
                append_bytes(&mut result, name);
                proof {
                    let now = names(cs.take(i + 1));
                    assert(now == before.push(name@));
                    assert(now.drop_last() =~= before);
                    if old_result.len() == 0 {
                        assert(result@ =~= name@);
                        assert(joined(now) == now[0]);
                    } else {
                        assert(joined(now) == joined(before).push(47) + name@);
                    }
                }
            },
        }
        i = i + 1;
    }
    assert(cs.take(cs.len() as int) =~= cs);
    proof {
        assert(!cs.contains(ComponentView::ParentDir));
        if cs.len() == 1 && cs[0] is CurDir {
            assert(cs =~= seq![ComponentView::CurDir]);
        } else {
            assert(cs != seq![ComponentView::CurDir]) by {
                assert(seq![ComponentView::CurDir].len() == 1);
                assert(seq![ComponentView::CurDir][0] is CurDir);
            }
        }
    }
    if result.len() == 0 {
        return Err(other("paths in archives must have at least one component"));
    }
    if path[path.len() - 1] == 47 {
        result.push(47u8);
    }
    Ok(result)
}

} // verus!
