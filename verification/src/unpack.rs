//! Where and in which order members are unpacked.

use crate::bytes::same_bytes;
use crate::entry_type::EntryType;
use crate::error::{InvalidArchive, TarError};
use crate::fs::{
    absolute_target, law_absolute_target_is_resolved, law_resolved_text, normalize_absolute,
    normalize_relative, relative_target,
};
use crate::path::{
    component_views, components, is_absolute, joined, names, split_components, Component,
    ComponentView,
};
use crate::text::{lossy, lossy_text};
use vstd::prelude::*;

verus! {

/// Whether bytes come before others in the order of dictionaries.
pub open spec fn lex_less(a: Seq<u8>, b: Seq<u8>) -> bool
    decreases a.len(),
{
    if b.len() == 0 {
        false
    } else if a.len() == 0 {
        true
    } else {
        a[0] < b[0] || a[0] == b[0] && lex_less(a.skip(1), b.skip(1))
    }
}

/// Whether the directory `i` is unpacked before the directory `j`: the later
/// path first, and of the same paths the earlier entry first.
pub open spec fn unpacked_before(paths: Seq<Seq<u8>>, i: int, j: int) -> bool {
    lex_less(paths[j], paths[i]) || paths[i] == paths[j] && i < j
}

/// Whether every directory is in `order` once, each before those that are
/// unpacked after it.
pub open spec fn is_unpack_order(paths: Seq<Seq<u8>>, order: Seq<usize>) -> bool {
    &&& forall|k: int| 0 <= k < order.len() ==> (#[trigger] order[k]) < paths.len()
    &&& forall|i: int| 0 <= i < paths.len() ==> order.contains(#[trigger] (i as usize))
    &&& forall|k: int, l: int|
        0 <= k < l < order.len() ==> unpacked_before(
            paths,
            #[trigger] order[k] as int,
            #[trigger] order[l] as int,
        )
}

/// Whether a member is unpacked as soon as it is read. A directory is not: its
/// permissions could keep what is inside it from being unpacked.
pub fn unpacks_at_once(kind: EntryType) -> (yes: bool)
    ensures
        yes == !(kind is Directory),
{
    !matches!(kind, EntryType::Directory)
}

/// The permissions that are set on what is unpacked: none at all unless they are
/// to be preserved.
pub fn mode_to_set(preserve: bool, mode: u32) -> (bits: Option<u32>)
    ensures
        bits == (if preserve {
            Some(mode & 0o7777)
        } else {
            None
        }),
{
    if preserve {
        Some(mode & 0o7777)
    } else {
        None
    }
}

/// How a member is unpacked.
#[derive(Clone, Copy, Debug, PartialEq, Eq, Structural)]
pub enum UnpackAction {
    /// As a directory.
    Directory,
    /// As a hard link.
    HardLink,
    /// As a symbolic link.
    Symlink,
    /// Not at all: the entry describes other members.
    Nothing,
    /// As a file with the member's data.
    File,
}

/// Whether an entry of a kind only describes other members.
pub open spec fn describes_others(kind: EntryType) -> bool {
    kind is XGlobalHeader || kind is XHeader || kind is GNULongName || kind is GNULongLink
}

/// How a member of a kind is unpacked: what is neither a directory nor a link is
/// a file.
pub fn unpack_action(kind: EntryType) -> (action: UnpackAction)
    ensures
        action is Directory <==> kind is Directory,
        action is HardLink <==> kind is Link,
        action is Symlink <==> kind is Symlink,
        action is Nothing <==> describes_others(kind),
{
    match kind {
        EntryType::Directory => UnpackAction::Directory,
        EntryType::Link => UnpackAction::HardLink,
        EntryType::Symlink => UnpackAction::Symlink,
        EntryType::XGlobalHeader | EntryType::XHeader => UnpackAction::Nothing,
        EntryType::GNULongName | EntryType::GNULongLink => UnpackAction::Nothing,
        _ => UnpackAction::File,
    }
}

/// What a sequence of byte vectors is.
pub open spec fn bytes_views(vs: Seq<Vec<u8>>) -> Seq<Seq<u8>> {
    Seq::new(vs.len(), |i: int| vs[i]@)
}

proof fn lemma_lex_total(a: Seq<u8>, b: Seq<u8>)
    ensures
        lex_less(a, b) || lex_less(b, a) || a == b,
        !(lex_less(a, b) && lex_less(b, a)),
        a == b ==> !lex_less(a, b),
    decreases a.len(),
{
    if a.len() > 0 && b.len() > 0 {
        lemma_lex_total(a.skip(1), b.skip(1));
        if a[0] == b[0] && a.skip(1) == b.skip(1) {
            assert(a =~= seq![a[0]] + a.skip(1));
            assert(b =~= seq![b[0]] + b.skip(1));
        }
    } else if a.len() == 0 && b.len() == 0 {
        assert(a =~= b);
    }
}

proof fn lemma_lex_transitive(a: Seq<u8>, b: Seq<u8>, c: Seq<u8>)
    requires
        lex_less(a, b),
        lex_less(b, c),
    ensures
        lex_less(a, c),
    decreases a.len(),
{
    if a.len() > 0 && b.len() > 0 && c.len() > 0 {
        if a[0] == b[0] && b[0] == c[0] {
            lemma_lex_transitive(a.skip(1), b.skip(1), c.skip(1));
        }
    }
}

proof fn lemma_before_transitive(paths: Seq<Seq<u8>>, i: int, j: int, k: int)
    requires
        unpacked_before(paths, i, j),
        unpacked_before(paths, j, k),
    ensures
        unpacked_before(paths, i, k),
{
    if lex_less(paths[k], paths[j]) && lex_less(paths[j], paths[i]) {
        lemma_lex_transitive(paths[k], paths[j], paths[i]);
    }
}

fn is_lex_less(a: &Vec<u8>, b: &Vec<u8>) -> (less: bool)
    ensures
        less == lex_less(a@, b@),
{
    let mut i: usize = 0;
    assert(a@.skip(0) =~= a@);
    assert(b@.skip(0) =~= b@);
    while i < a.len() && i < b.len()
        invariant
            i <= a@.len(),
            i <= b@.len(),
            lex_less(a@.skip(i as int), b@.skip(i as int)) == lex_less(a@, b@),
        decreases a@.len() - i,
    {
        assert(a@.skip(i as int).skip(1) =~= a@.skip(i + 1));
        assert(b@.skip(i as int).skip(1) =~= b@.skip(i + 1));
        if a[i] < b[i] {
            return true;
        }
        if a[i] > b[i] {
            return false;
        }
        i = i + 1;
    }
    i < b.len()
}

/// No directory is in the order twice.
pub proof fn lemma_order_has_no_duplicates(paths: Seq<Seq<u8>>, order: Seq<usize>)
    requires
        is_unpack_order(paths, order),
    ensures
        order.no_duplicates(),
{
    assert forall|k: int, l: int| 0 <= k < l < order.len() implies order[k] != order[l] by {
        assert(unpacked_before(paths, order[k] as int, order[l] as int));
        lemma_lex_total(paths[order[k] as int], paths[order[l] as int]);
    }
}

/// The order in which directories are unpacked: those inside others first, so
/// that the permissions of a directory do not keep those inside it from being
/// created.
pub fn order_directories(paths: &Vec<Vec<u8>>) -> (order: Vec<usize>)
    ensures
        is_unpack_order(bytes_views(paths@), order@),
        order@.len() == paths@.len(),
{
    let ghost ps = bytes_views(paths@);
    let mut order: Vec<usize> = Vec::new();
    let mut n: usize = 0;
    while n < paths.len()
        invariant
            n <= paths@.len(),
            ps == bytes_views(paths@),
            order@.len() == n,
            forall|k: int| 0 <= k < order@.len() ==> (#[trigger] order@[k]) < n,
            forall|i: int| 0 <= i < n ==> order@.contains(#[trigger] (i as usize)),
            forall|k: int, l: int|
                0 <= k < l < order@.len() ==> unpacked_before(
                    ps,
                    #[trigger] order@[k] as int,
                    #[trigger] order@[l] as int,
                ),
        decreases paths@.len() - n,
    {
        let ghost before = order@;
        let mut at: usize = order.len();
        while at > 0 && is_lex_less(&paths[order[at - 1]], &paths[n])
            invariant
                at <= order@.len(),
                order@ == before,
                n < paths@.len(),
                ps == bytes_views(paths@),
                forall|k: int| 0 <= k < before.len() ==> (#[trigger] before[k]) < n,
                forall|k: int|
                    at <= k < before.len() ==> unpacked_before(
                        ps,
                        n as int,
                        #[trigger] before[k] as int,
                    ),
            decreases at,
        {
            at = at - 1;
        }
        order.insert(at, n);
        proof {
            let after = order@;
            assert(after =~= before.insert(at as int, n));
            assert forall|k: int| 0 <= k < at implies unpacked_before(
                ps,
                #[trigger] before[k] as int,
                n as int,
            ) by {
                let last = before[at - 1] as int;
                assert(before[at - 1] < n);
                lemma_lex_total(ps[last], ps[n as int]);
                assert(unpacked_before(ps, last, n as int));
                if k < at - 1 {
                    assert(unpacked_before(ps, before[k] as int, before[at - 1] as int));
                    lemma_before_transitive(ps, before[k] as int, last, n as int);
                }
            }
            assert forall|k: int, l: int| 0 <= k < l < after.len() implies unpacked_before(
                ps,
                #[trigger] after[k] as int,
                #[trigger] after[l] as int,
            ) by {
                let k0 = if k < at {
                    k
                } else {
                    k - 1
                };
                let l0 = if l < at {
                    l
                } else {
                    l - 1
                };
                if k == at {
                    assert(after[l] == before[l0]);
                } else if l == at {
                    assert(after[k] == before[k0]);
                } else {
                    assert(after[k] == before[k0] && after[l] == before[l0]);
                }
            }
            assert forall|i: int| 0 <= i < n + 1 implies after.contains(#[trigger] (i as usize)) by {
                if i == n {
                    assert(after[at as int] == n);
                } else {
                    assert(before.contains(i as usize));
                    let k = choose|k: int| 0 <= k < before.len() && before[k] == i as usize;
                    if k < at {
                        assert(after[k] == i as usize);
                    } else {
                        assert(after[k + 1] == i as usize);
                    }
                }
            }
            assert forall|k: int| 0 <= k < after.len() implies (#[trigger] after[k]) < n + 1 by {
                if k < at {
                    assert(after[k] == before[k]);
                } else if k > at {
                    assert(after[k] == before[k - 1]);
                }
            }
        }
        n = n + 1;
    }
    order
}

/// What is inside a directory is unpacked before the directory.
pub proof fn law_inside_comes_first(
    paths: Seq<Seq<u8>>,
    order: Seq<usize>,
    outside: int,
    inside: int,
    k: int,
    l: int,
)
    requires
        is_unpack_order(paths, order),
        0 <= outside < paths.len(),
        0 <= inside < paths.len(),
        paths[outside].is_prefix_of(paths[inside]),
        paths[outside].len() < paths[inside].len(),
        0 <= k < order.len(),
        0 <= l < order.len(),
        order[k] == inside,
        order[l] == outside,
    ensures
        k < l,
{
    lemma_prefix_is_less(paths[outside], paths[inside]);
    lemma_lex_total(paths[outside], paths[inside]);
    if l < k {
        assert(unpacked_before(paths, order[l] as int, order[k] as int));
    }
}

proof fn lemma_prefix_is_less(a: Seq<u8>, b: Seq<u8>)
    requires
        a.is_prefix_of(b),
        a.len() < b.len(),
    ensures
        lex_less(a, b),
    decreases a.len(),
{
    if a.len() > 0 {
        assert(a[0] == b[0]) by {
            assert(b.subrange(0, a.len() as int)[0] == b[0]);
        }
        assert(a.skip(1) =~= b.skip(1).subrange(0, a.len() - 1)) by {
            assert forall|i: int| 0 <= i < a.len() - 1 implies a.skip(1)[i] == b.skip(1)[i] by {
                assert(a[i + 1] == b.subrange(0, a.len() as int)[i + 1]);
            }
        }
        lemma_prefix_is_less(a.skip(1), b.skip(1));
    }
}

/// Where a member goes, below the directory to unpack to: none where its path
/// has a `..` or no name at all.
pub open spec fn destination(path: Seq<u8>) -> Option<Seq<u8>> {
    let cs = components(path);
    if cs.contains(ComponentView::ParentDir) || names(cs).len() == 0 {
        None
    } else {
        Some(joined(names(cs)))
    }
}

/// Where a member goes, below the directory to unpack to. A member whose path
/// has a `..` is passed over.
pub fn member_destination(path: &[u8]) -> (place: Option<Vec<u8>>)
    ensures
        match destination(path@) {
            Some(text) => place matches Some(v) && v@ == text,
            None => place is None,
        },
{
    let parts: Vec<Component> = split_components(path);
    let ghost cs = components(path@);
    let mut text: Vec<u8> = Vec::new();
    let mut any: bool = false;
    let mut i: usize = 0;
    assert(cs.take(0) =~= Seq::<ComponentView>::empty());
    while i < parts.len()
        invariant
            i <= parts@.len(),
            cs == components(path@),
            component_views(parts@) == cs,
            forall|j: int| 0 <= j < i ==> !(#[trigger] cs[j] is ParentDir),
            text@ == joined(names(cs.take(i as int))),
            any == (names(cs.take(i as int)).len() > 0),
        decreases parts@.len() - i,
    {
        assert(cs[i as int] == parts@[i as int]@);
        assert(cs.take(i + 1).drop_last() =~= cs.take(i as int));
        match parts[i] {
            Component::ParentDir => {
                assert(cs.contains(cs[i as int]));
                return None;
            },
            Component::Normal(name) => {
                let ghost before = names(cs.take(i as int));
                let ghost so_far = text@;
                if any {
                    text.push(47u8);
                }
                crate::bytes::append_bytes(&mut text, name);
                proof {
                    let now = names(cs.take(i + 1));
                    assert(now == before.push(name@));
                    assert(now.drop_last() =~= before);
                    if any {
                        assert(joined(now) == so_far.push(47) + name@);
                    } else {
                        assert(joined(now) == now[0]);
                        assert(text@ =~= name@);
                    }
                }
                any = true;
            },
            _ => {},
        }
        i = i + 1;
    }
    assert(cs.take(cs.len() as int) =~= cs);
    proof {
        if cs.contains(ComponentView::ParentDir) {
            let j = choose|j: int| 0 <= j < cs.len() && cs[j] is ParentDir;
            assert(cs[j] is ParentDir);
        }
    }
    if any {
        Some(text)
    } else {
        None
    }
}

/// A member goes below the directory to unpack to: its place is a path of names
/// alone.
pub proof fn law_members_stay_inside(path: Seq<u8>)
    requires
        destination(path) is Some,
    ensures
        !is_absolute(destination(path)->0),
        components(destination(path)->0) == crate::path::as_components(names(components(path))),
{
    let cs = components(path);
    crate::path::lemma_components(path);
    assert forall|i: int| 0 <= i < cs.len() && (#[trigger] cs[i]) is Normal implies crate::path::is_inner(
        cs[i],
    ) by {
        if i == 0 {
            assert(cs[0] is RootDir || cs[0] is CurDir || crate::path::is_inner(cs[0]));
        }
    }
    crate::path::lemma_names(cs);
    crate::path::lemma_joined_components(names(cs));
}

/// Where a symbolic link in the directory `parent` leads to.
pub open spec fn link_end(parent: Seq<u8>, target: Seq<u8>) -> Option<Seq<ComponentView>> {
    if is_absolute(target) {
        absolute_target(target)
    } else {
        relative_target(parent, target)
    }
}

/// Whether a path with the given components is `dst` or inside it.
pub open spec fn is_inside(end: Option<Seq<ComponentView>>, dst: Seq<u8>) -> bool {
    end matches Some(cs) && components(dst).is_prefix_of(cs)
}

/// Why a symbolic link is not unpacked.
pub open spec fn symlink_refusal(
    link: Seq<u8>,
    target: Seq<u8>,
    parent: Seq<u8>,
    dst: Seq<u8>,
    allow_external: bool,
) -> Option<Seq<char>> {
    if target.len() == 0 {
        Some("symlink destination for "@ + lossy(link) + " is empty"@)
    } else if !allow_external && !is_inside(link_end(parent, target), dst) {
        Some("symlink destination for "@ + lossy(link) + " is outside of the target directory"@)
    } else {
        None
    }
}

fn same_component(a: &Component, b: &Component) -> (same: bool)
    ensures
        same == (a@ == b@),
{
    match (a, b) {
        (Component::RootDir, Component::RootDir) => true,
        (Component::CurDir, Component::CurDir) => true,
        (Component::ParentDir, Component::ParentDir) => true,
        (Component::Normal(m), Component::Normal(n)) => same_bytes(m, n),
        _ => false,
    }
}

/// Whether `path` is `dst` or inside it.
pub fn starts_with_path(path: &[u8], dst: &[u8]) -> (yes: bool)
    ensures
        yes == components(dst@).is_prefix_of(components(path@)),
{
    let inner: Vec<Component> = split_components(path);
    let outer: Vec<Component> = split_components(dst);
    let ghost ci = components(path@);
    let ghost co = components(dst@);
    if outer.len() > inner.len() {
        return false;
    }
    let mut i: usize = 0;
    while i < outer.len()
        invariant
            i <= outer@.len() <= inner@.len(),
            component_views(inner@) == ci,
            component_views(outer@) == co,
            ci == components(path@),
            co == components(dst@),
            forall|j: int| 0 <= j < i ==> co[j] == ci[j],
        decreases outer@.len() - i,
    {
        assert(co[i as int] == outer@[i as int]@ && ci[i as int] == inner@[i as int]@);
        if !same_component(&outer[i], &inner[i]) {
            assert(ci.subrange(0, co.len() as int)[i as int] == ci[i as int]);
            return false;
        }
        i = i + 1;
    }
    assert(co =~= ci.subrange(0, co.len() as int));
    true
}

/// Checks a symbolic link. `link` is its path, `parent` the directory that it is
/// in, and `dst` the directory to unpack to.
pub fn check_symlink(
    link: &[u8],
    target: &[u8],
    parent: &[u8],
    dst: &[u8],
    allow_external: bool,
) -> (done: Result<(), TarError>)
    ensures
        match symlink_refusal(link@, target@, parent@, dst@, allow_external) {
            Some(message) => done matches Err(e) && crate::error::tar_error_text(e) == message,
            None => done is Ok,
        },
{
    if target.len() == 0 {
        return Err(
            TarError::InvalidArchive(
                InvalidArchive::SymlinkDestinationEmpty { path: lossy_text(link) },
            ),
        );
    }
    if allow_external {
        return Ok(());
    }
    proof {
        if is_absolute(target@) {
            law_absolute_target_is_resolved(target@);
            if let Some(st) = absolute_target(target@) {
                law_resolved_text(st);
            }
        }
    }
    let end: Option<Vec<u8>> = if target[0] == 47 {
        normalize_absolute(target)
    } else {
        normalize_relative(parent, target)
    };
    let inside: bool = match end {
        Some(path) => starts_with_path(path.as_slice(), dst),
        None => false,
    };
    if inside {
        Ok(())
    } else {
        Err(
            TarError::InvalidArchive(
                InvalidArchive::SymlinkDestinationOutside { path: lossy_text(link) },
            ),
        )
    }
}

} // verus!
