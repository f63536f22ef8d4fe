//! The order in which a directory and its files are visited.

use vstd::prelude::*;

verus! {

/// A file that is to be visited.
#[derive(Debug)]
pub struct Visit {
    /// The path from the directory that the walk began in; empty for that
    /// directory itself.
    pub relative: Vec<u8>,
    /// Whether it is a directory.
    pub is_dir: bool,
    /// Whether it is a symbolic link.
    pub is_symlink: bool,
}

/// What a [`Visit`] is.
#[verifier::ext_equal]
pub struct VisitView {
    pub relative: Seq<u8>,
    pub is_dir: bool,
    pub is_symlink: bool,
}

impl View for Visit {
    type V = VisitView;

    open spec fn view(&self) -> VisitView {
        VisitView {
            relative: self.relative@,
            is_dir: self.is_dir,
            is_symlink: self.is_symlink,
        }
    }
}

/// What files that are to be visited are.
pub open spec fn visit_views(vs: Seq<Visit>) -> Seq<VisitView> {
    Seq::new(vs.len(), |i: int| vs[i]@)
}

/// The directory that a walk begins in.
pub open spec fn first_visit() -> VisitView {
    VisitView { relative: Seq::empty(), is_dir: true, is_symlink: false }
}

/// A walk through a directory: the files that are still to be visited, the next
/// one last.
#[derive(Debug)]
pub struct Walk {
    stack: Vec<Visit>,
}

impl View for Walk {
    type V = Seq<VisitView>;

    closed spec fn view(&self) -> Seq<VisitView> {
        visit_views(self.stack@)
    }
}

impl Walk {
    /// A walk that begins with its directory.
    pub fn new() -> (walk: Walk)
        ensures
            walk@ == seq![first_visit()],
    {
        let first = Visit { relative: Vec::new(), is_dir: true, is_symlink: false };
        assert(first@ =~= first_visit());
        let mut stack: Vec<Visit> = Vec::new();
        stack.push(first);
        let walk = Walk { stack };
        assert(walk@ =~= seq![first_visit()]);
        walk
    }

    /// The file to visit next, which is then no longer to be visited; none where
    /// the walk is over.
    pub fn next(&mut self) -> (visit: Option<Visit>)
        ensures
            match visit {
                Some(v) => old(self)@.len() > 0 && v@ == old(self)@.last() && final(self)@
                    == old(self)@.drop_last(),
                None => old(self)@.len() == 0 && final(self)@ == old(self)@,
            },
    {
        let ghost before = self@;
        let visit = self.stack.pop();
        proof {
            if before.len() > 0 {
                assert(self@ =~= before.drop_last());
            }
        }
        visit
    }

    /// Takes note of the files in the directory that was visited last: they are
    /// visited next, the last of them first.
    pub fn found(&mut self, children: Vec<Visit>)
        ensures
            final(self)@ == old(self)@ + visit_views(children@),
    {
        let mut children = children;
        let ghost before = self@;
        let ghost all = visit_views(children@);
        self.stack.append(&mut children);
        assert(self@ =~= before + all);
    }
}

/// A file on a file system and the files in it: none where it is not walked into.
pub struct Tree {
    pub visit: VisitView,
    pub children: Seq<Tree>,
}

/// How many files a tree has.
pub open spec fn tree_size(t: Tree) -> nat
    decreases t,
{
    1 + trees_size(t.children)
}

/// How many files trees have.
pub open spec fn trees_size(ts: Seq<Tree>) -> nat
    decreases ts,
{
    if ts.len() == 0 {
        0
    } else {
        tree_size(ts[ts.len() - 1]) + trees_size(ts.drop_last())
    }
}

/// The files of a tree, each once: the file itself before those in it.
pub open spec fn tree_visits(t: Tree) -> Seq<VisitView>
    decreases t,
{
    seq![t.visit] + trees_visits(t.children)
}

/// The files of trees, each once: those of the last tree first.
pub open spec fn trees_visits(ts: Seq<Tree>) -> Seq<VisitView>
    decreases ts,
{
    if ts.len() == 0 {
        Seq::empty()
    } else {
        tree_visits(ts[ts.len() - 1]) + trees_visits(ts.drop_last())
    }
}

/// The top files of trees.
pub open spec fn tops(ts: Seq<Tree>) -> Seq<VisitView> {
    Seq::new(ts.len(), |i: int| ts[i].visit)
}

/// What a walk hands out that has the tops of `ts` to visit, where each file
/// that is handed out is answered with the files in it.
pub open spec fn handed_out(ts: Seq<Tree>) -> Seq<VisitView>
    decreases trees_size(ts),
{
    if ts.len() == 0 {
        Seq::empty()
    } else {
        let t = ts[ts.len() - 1];
        proof {
            lemma_sizes_add_up(ts.drop_last(), t.children);
            assert(tree_size(t) == 1 + trees_size(t.children));
        }
        seq![tops(ts).last()] + handed_out(ts.drop_last() + t.children)
    }
}

/// The sizes of trees and of further ones add up.
pub proof fn lemma_sizes_add_up(a: Seq<Tree>, b: Seq<Tree>)
    ensures
        trees_size(a + b) == trees_size(a) + trees_size(b),
    decreases b.len(),
{
    if b.len() == 0 {
        assert(a + b =~= a);
    } else {
        lemma_sizes_add_up(a, b.drop_last());
        assert((a + b).drop_last() =~= a + b.drop_last());
    }
}

/// The files of trees and of further ones.
proof fn lemma_visits_add_up(a: Seq<Tree>, b: Seq<Tree>)
    ensures
        trees_visits(a + b) == trees_visits(b) + trees_visits(a),
    decreases b.len(),
{
    if b.len() == 0 {
        assert(a + b =~= a);
        assert(trees_visits(b) + trees_visits(a) =~= trees_visits(a));
    } else {
        lemma_visits_add_up(a, b.drop_last());
        assert((a + b).drop_last() =~= a + b.drop_last());
        assert(trees_visits(a + b) =~= trees_visits(b) + trees_visits(a));
    }
}

/// A walk hands out every file of its trees once, and a directory before what is
/// in it.
pub proof fn law_walk_visits_all_once(ts: Seq<Tree>)
    ensures
        handed_out(ts) == trees_visits(ts),
        handed_out(ts).len() == trees_size(ts),
    decreases trees_size(ts),
{
    if ts.len() > 0 {
        let t = ts[ts.len() - 1];
        let before = ts.drop_last();
        lemma_sizes_add_up(before, t.children);
        lemma_visits_add_up(before, t.children);
        assert(tree_size(t) == 1 + trees_size(t.children));
        law_walk_visits_all_once(before + t.children);
        assert(tops(ts).last() == t.visit);
        assert(tree_visits(t) == seq![t.visit] + trees_visits(t.children));
        assert(handed_out(ts) =~= trees_visits(ts));
    }
}

/// What stays to be visited after a step of a walk: the file that was handed out
/// is gone, and the files in it stand behind the others.
pub proof fn law_walk_step(ts: Seq<Tree>)
    requires
        ts.len() > 0,
    ensures
        tops(ts.drop_last() + ts[ts.len() - 1].children) == tops(ts).drop_last() + tops(
            ts[ts.len() - 1].children,
        ),
{
    let t = ts[ts.len() - 1];
    assert(tops(ts.drop_last() + t.children) =~= tops(ts).drop_last() + tops(t.children));
}

} // verus!
