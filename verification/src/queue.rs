//! The order in which the members of an archive are unpacked.

use crate::entry_type::EntryType;
use crate::unpack::{
    bytes_views, is_unpack_order, lemma_order_has_no_duplicates, order_directories, unpacks_at_once,
};
use vstd::prelude::*;

verus! {

/// A member that was read from an archive.
pub struct Offered<T> {
    pub kind: EntryType,
    pub member: T,
}

/// The members that wait until the others are unpacked: the directories.
pub open spec fn kept<T>(ms: Seq<Offered<T>>) -> Seq<Offered<T>>
    decreases ms.len(),
{
    if ms.len() == 0 {
        Seq::empty()
    } else if ms.last().kind is Directory {
        kept(ms.drop_last()).push(ms.last())
    } else {
        kept(ms.drop_last())
    }
}

/// The members that are unpacked as soon as they are read.
pub open spec fn at_once<T>(ms: Seq<Offered<T>>) -> Seq<Offered<T>>
    decreases ms.len(),
{
    if ms.len() == 0 {
        Seq::empty()
    } else if ms.last().kind is Directory {
        at_once(ms.drop_last())
    } else {
        at_once(ms.drop_last()).push(ms.last())
    }
}

/// The members themselves.
pub open spec fn members<T>(ms: Seq<Offered<T>>) -> Seq<T> {
    Seq::new(ms.len(), |i: int| ms[i].member)
}

/// What stands at the places that `order` lists.
pub open spec fn by_order<T>(ts: Seq<T>, order: Seq<usize>) -> Seq<T> {
    Seq::new(order.len(), |k: int| ts[order[k] as int])
}

/// The members in the order in which they are unpacked, where `order` is that of
/// the directories.
pub open spec fn unpacked<T>(ms: Seq<Offered<T>>, order: Seq<usize>) -> Seq<Offered<T>> {
    at_once(ms) + by_order(kept(ms), order)
}

/// Whether members stand in the order in which directories with the given paths
/// are unpacked.
pub open spec fn is_in_unpack_order<T>(ts: Seq<T>, paths: Seq<Seq<u8>>, out: Seq<T>) -> bool {
    exists|order: Seq<usize>|
        #[trigger] is_unpack_order(paths, order) && order.len() == ts.len() && out == by_order(
            ts,
            order,
        )
}

/// The members that wait to be unpacked.
#[derive(Debug)]
pub struct UnpackQueue<T> {
    waiting: Vec<T>,
}

impl<T> View for UnpackQueue<T> {
    type V = Seq<T>;

    closed spec fn view(&self) -> Seq<T> {
        self.waiting@
    }
}

impl<T> UnpackQueue<T> {
    /// A queue in which nothing waits.
    pub fn new() -> (queue: Self)
        ensures
            queue@ == Seq::<T>::empty(),
    {
        UnpackQueue { waiting: Vec::new() }
    }

    /// Takes the next member of the archive. It is handed back where it is to be
    /// unpacked now; a directory waits.
    pub fn offer(&mut self, kind: EntryType, member: T) -> (now: Option<T>)
        ensures
            if kind is Directory {
                now is None && final(self)@ == old(self)@.push(member)
            } else {
                now == Some(member) && final(self)@ == old(self)@
            },
    {
        if unpacks_at_once(kind) {
            Some(member)
        } else {
            self.waiting.push(member);
            None
        }
    }

    /// The directories that wait, in the order of the archive.
    pub fn waiting(&self) -> (waiting: &[T])
        ensures
            waiting@ == self@,
    {
        self.waiting.as_slice()
    }

    /// The directories that wait, in the order in which they are unpacked.
    /// `paths` are their paths.
    pub fn finish(self, paths: &Vec<Vec<u8>>) -> (directories: Vec<T>)
        requires
            paths@.len() == self@.len(),
        ensures
            is_in_unpack_order(self@, bytes_views(paths@), directories@),
    {
        let ghost ts = self@;
        let mut waiting: Vec<T> = self.waiting;
        let n: usize = waiting.len();
        let order: Vec<usize> = order_directories(paths);
        // The directories from the last to the first, each until it is taken.
        let mut slots: Vec<Option<T>> = Vec::new();
        while slots.len() < n
            invariant
                slots@.len() + waiting@.len() == n,
                n == ts.len(),
                waiting@ == ts.take(waiting@.len() as int),
                forall|i: int|
                    0 <= i < slots@.len() ==> #[trigger] slots@[i] == Some(ts[n - 1 - i]),
            decreases n - slots@.len(),
        {
            slots.push(waiting.pop());
            assert(waiting@ =~= ts.take(waiting@.len() as int));
        }
        let mut directories: Vec<T> = Vec::new();
        let mut k: usize = 0;
        while k < order.len()
            invariant
                k <= order@.len(),
                order@.len() == n,
                n == ts.len(),
                slots@.len() == n,
                paths@.len() == n,
                is_unpack_order(bytes_views(paths@), order@),
                directories@ == by_order(ts, order@.take(k as int)),
                forall|l: int|
                    k <= l < n ==> slots@[n - 1 - #[trigger] order@[l]] == Some(ts[order@[l] as int]),
            decreases order@.len() - k,
        {
            proof {
                lemma_order_has_no_duplicates(bytes_views(paths@), order@);
            }
            let ghost before = slots@;
            let at: usize = n - 1 - order[k];
            let mut taken: Option<T> = None;
            std::mem::swap(&mut slots[at], &mut taken);
            assert(taken == before[at as int]);
            if let Some(directory) = taken {
                directories.push(directory);
            }
            assert(directories@ =~= by_order(ts, order@.take(k + 1)));
            k = k + 1;
        }
        assert(order@.take(n as int) =~= order@);
        directories
    }
}

/// What waits, and what is unpacked now, after one more member: this is what
/// [`UnpackQueue::offer`] does.
pub proof fn law_queue_step<T>(ms: Seq<Offered<T>>, next: Offered<T>)
    ensures
        members(kept(ms.push(next))) == (if next.kind is Directory {
            members(kept(ms)).push(next.member)
        } else {
            members(kept(ms))
        }),
        at_once(ms.push(next)) == (if next.kind is Directory {
            at_once(ms)
        } else {
            at_once(ms).push(next)
        }),
{
    assert(ms.push(next).drop_last() =~= ms);
    assert(members(kept(ms).push(next)) =~= members(kept(ms)).push(next.member));
}

/// Every member is either unpacked at once or waits.
proof fn lemma_kinds<T>(ms: Seq<Offered<T>>)
    ensures
        forall|i: int| 0 <= i < kept(ms).len() ==> (#[trigger] kept(ms)[i]).kind is Directory,
        forall|i: int| 0 <= i < at_once(ms).len() ==> !((#[trigger] at_once(ms)[i]).kind is Directory),
        (at_once(ms) + kept(ms)).to_multiset() == ms.to_multiset(),
    decreases ms.len(),
{
    broadcast use vstd::seq_lib::group_to_multiset_ensures;

    if ms.len() == 0 {
        assert(at_once(ms) + kept(ms) =~= ms);
    } else {
        let before = ms.drop_last();
        let m = ms.last();
        lemma_kinds(before);
        assert(ms =~= before.push(m));
        let now = at_once(before);
        let later = kept(before);
        if m.kind is Directory {
            assert(now + later.push(m) =~= (now + later).push(m));
        } else {
            assert(now.push(m) + later =~= (now + later).insert(now.len() as int, m));
            vstd::seq_lib::to_multiset_insert(now + later, now.len() as int, m);
        }
    }
}

/// Where every place is listed once, everything comes out once.
proof fn lemma_by_order<T>(ts: Seq<T>, order: Seq<usize>)
    requires
        order.len() == ts.len(),
        ts.len() <= usize::MAX,
        order.no_duplicates(),
        forall|k: int| 0 <= k < order.len() ==> (#[trigger] order[k]) < ts.len(),
        forall|i: int| 0 <= i < ts.len() ==> order.contains(#[trigger] (i as usize)),
    ensures
        by_order(ts, order).to_multiset() == ts.to_multiset(),
    decreases ts.len(),
{
    broadcast use vstd::seq_lib::group_to_multiset_ensures;

    if ts.len() == 0 {
        assert(by_order(ts, order) =~= ts);
    } else {
        let n = ts.len() - 1;
        let t = ts.last();
        let fewer = ts.drop_last();
        assert(order.contains(n as usize));
        let k = choose|k: int| 0 <= k < order.len() && order[k] == n as usize;
        let others = order.remove(k);
        assert forall|j: int| 0 <= j < others.len() implies (#[trigger] others[j]) < fewer.len() by {
            let j0 = if j < k {
                j
            } else {
                j + 1
            };
            assert(others[j] == order[j0] && order[j0] != order[k]);
        }
        assert forall|i: int| 0 <= i < fewer.len() implies others.contains(#[trigger] (i as usize)) by {
            assert(order.contains(i as usize));
            let j = choose|j: int| 0 <= j < order.len() && order[j] == i as usize;
            if j < k {
                assert(others[j] == i as usize);
            } else {
                assert(others[j - 1] == i as usize);
            }
        }
        lemma_by_order(fewer, others);
        assert(by_order(ts, order) =~= by_order(fewer, others).insert(k, t));
        vstd::seq_lib::to_multiset_insert(by_order(fewer, others), k, t);
        assert(ts =~= fewer.push(t));
    }
}

/// Every member is unpacked once, and no directory is unpacked before a member
/// that is none.
pub proof fn law_members_are_unpacked_once<T>(
    ms: Seq<Offered<T>>,
    paths: Seq<Seq<u8>>,
    order: Seq<usize>,
)
    requires
        paths.len() == kept(ms).len(),
        paths.len() <= usize::MAX,
        order.len() == paths.len(),
        is_unpack_order(paths, order),
    ensures
        unpacked(ms, order).to_multiset() == ms.to_multiset(),
        forall|k: int, l: int|
            0 <= k < l < ms.len() && (#[trigger] unpacked(ms, order)[k]).kind is Directory ==> (
            #[trigger] unpacked(ms, order)[l]).kind is Directory,
        unpacked(ms, order).len() == ms.len(),
        members(unpacked(ms, order)) == members(at_once(ms)) + by_order(
            members(kept(ms)),
            order,
        ),
{
    broadcast use vstd::seq_lib::group_to_multiset_ensures;

    let now = at_once(ms);
    let later = kept(ms);
    let sorted = by_order(later, order);
    lemma_kinds(ms);
    lemma_order_has_no_duplicates(paths, order);
    lemma_by_order(later, order);
    vstd::seq_lib::lemma_multiset_commutative(now, later);
    vstd::seq_lib::lemma_multiset_commutative(now, sorted);
    assert(unpacked(ms, order).to_multiset().len() == ms.to_multiset().len());
    assert forall|k: int, l: int|
        0 <= k < l < ms.len() && (#[trigger] unpacked(ms, order)[k]).kind is Directory implies (
    #[trigger] unpacked(ms, order)[l]).kind is Directory by {
        if k < now.len() {
            assert(!(now[k].kind is Directory));
        } else {
            let i = order[l - now.len()] as int;
            assert(later[i].kind is Directory);
        }
    }
    assert(members(unpacked(ms, order)) =~= members(now) + by_order(members(later), order));
}

} // verus!
