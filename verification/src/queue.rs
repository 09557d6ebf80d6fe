//! Frontiers: the collections in which a search keeps the items that wait to
//! be expanded.
use binary_heap_plus::BinaryHeap;
use binary_heap_plus::MinComparator;
use crate::heap::Entry;
use crate::heap::entry_le;
use crate::heap::heap_clear;
use crate::heap::heap_entries;
use crate::heap::heap_len;
use crate::heap::heap_new;
use crate::heap::heap_pop;
use crate::heap::heap_push;
use std::collections::HashMap;
use std::collections::VecDeque;
use std::rc::Rc;
use vstd::prelude::*;

verus! {

/// A frontier of shared items.
///
/// The model of a frontier is the sequence of the items that wait in it,
/// oldest first, and the position in that sequence of the item that leaves
/// next. The two implementations differ in that position alone.
pub trait Queue<T>: Sized {
    /// Well-formedness: what every operation needs and keeps. Nothing, unless
    /// the frontier says otherwise.
    open spec fn inv(&self) -> bool {
        true
    }

    /// The items that wait, in the order in which they came. Nothing is
    /// known of them unless the frontier says what they are.
    open spec fn items(&self) -> Seq<Rc<T>> {
        arbitrary()
    }

    /// The position in `items()` of the item that `dequeue` hands out next.
    /// It has a meaning only while items wait. The oldest item leaves first
    /// unless the frontier says otherwise.
    open spec fn front(&self) -> int {
        0
    }

    /// How many more items the frontier is sure to take: none, unless the
    /// frontier says otherwise.
    open spec fn room(&self) -> nat {
        0
    }

    /// The rule by which the frontier hands out its items: whether, of the
    /// given items, the one at the given position may leave next. A frontier
    /// keeps its rule. Any item may leave unless the frontier says otherwise.
    open spec fn rule(&self) -> spec_fn(Seq<Rc<T>>, int) -> bool {
        |items: Seq<Rc<T>>, pick: int| true
    }

    fn enqueue(&mut self, item: Rc<T>)
        requires
            old(self).inv(),
            old(self).room() > 0,
        ensures
            final(self).inv(),
            final(self).items() == old(self).items().push(item),
            final(self).room() >= old(self).room() - 1,
            final(self).rule() == old(self).rule(),
    ;

    fn dequeue(&mut self) -> (item: Option<Rc<T>>)
        requires
            old(self).inv(),
        ensures
            final(self).inv(),
            final(self).room() >= old(self).room(),
            final(self).rule() == old(self).rule(),
            old(self).items().len() == 0 ==> item.is_none() && final(self).items() == old(
                self,
            ).items(),
            old(self).items().len() > 0 ==> {
                &&& 0 <= old(self).front() < old(self).items().len()
                &&& old(self).rule()(old(self).items(), old(self).front())
                &&& item == Some(old(self).items()[old(self).front()])
                &&& final(self).items() == old(self).items().remove(old(self).front())
            },
    ;

    fn is_empty(&self) -> (empty: bool)
        requires
            self.inv(),
        ensures
            empty == (self.items().len() == 0),
    ;

    fn len(&self) -> (len: usize)
        requires
            self.inv(),
        ensures
            len == self.items().len(),
    ;

    fn clear(&mut self)
        requires
            old(self).inv(),
        ensures
            final(self).inv(),
            final(self).items() == Seq::<Rc<T>>::empty(),
            final(self).room() >= old(self).room(),
            final(self).rule() == old(self).rule(),
    ;
}

/// The rule of a first-in-first-out frontier: the oldest item leaves.
pub open spec fn oldest_first<T>() -> spec_fn(Seq<Rc<T>>, int) -> bool {
    |items: Seq<Rc<T>>, pick: int| pick == 0
}

/// First in, first out.
pub struct Fifo<T> {
    queue: VecDeque<Rc<T>>,
}

impl<T> Fifo<T> {
    pub fn new() -> (fifo: Fifo<T>)
        ensures
            fifo.inv(),
            fifo.items() == Seq::<Rc<T>>::empty(),
            fifo.room() == u64::MAX,
            fifo.rule() == oldest_first::<T>(),
    {
        Fifo { queue: VecDeque::new() }
    }
}

impl<T> Queue<T> for Fifo<T> {
    open spec fn inv(&self) -> bool {
        true
    }

    closed spec fn items(&self) -> Seq<Rc<T>> {
        self.queue@
    }

    /// The oldest item leaves first.
    open spec fn front(&self) -> int {
        0
    }

    open spec fn rule(&self) -> spec_fn(Seq<Rc<T>>, int) -> bool {
        oldest_first::<T>()
    }

    open spec fn room(&self) -> nat {
        if self.items().len() <= u64::MAX {
            (u64::MAX - self.items().len()) as nat
        } else {
            0
        }
    }

    fn enqueue(&mut self, item: Rc<T>) {
        self.queue.push_back(item);
    }

    fn dequeue(&mut self) -> (item: Option<Rc<T>>) {
        let item = self.queue.pop_front();
        proof {
            if old(self).queue@.len() > 0 {
                assert(old(self).queue@.subrange(1, old(self).queue@.len() as int) =~= old(
                    self,
                ).queue@.remove(0));
            }
        }
        item
    }

    fn is_empty(&self) -> (empty: bool) {
        self.queue.len() == 0
    }

    fn len(&self) -> (len: usize) {
        self.queue.len()
    }

    fn clear(&mut self) {
        self.queue.clear();
    }
}


/// A rank: the two numbers by which a priority frontier orders its items,
/// the first one first.
pub type Rank = (i32, i32);

/// `a` does not come after `b`.
pub open spec fn rank_le(a: Rank, b: Rank) -> bool {
    a.0 < b.0 || (a.0 == b.0 && a.1 <= b.1)
}

/// Position `i` holds the item that leaves a priority frontier first: its
/// rank is the least, and among the items of that rank it is the oldest.
pub open spec fn leaves_first(ranks: Seq<Rank>, i: int) -> bool {
    &&& 0 <= i < ranks.len()
    &&& forall|j: int|
        0 <= j < ranks.len() ==> rank_le(ranks[i], #[trigger] ranks[j]) && (ranks[j] == ranks[i]
            ==> i <= j)
}

/// At most one position leaves first.
pub proof fn lemma_leaves_first_unique(ranks: Seq<Rank>, i: int, j: int)
    requires
        leaves_first(ranks, i),
        leaves_first(ranks, j),
    ensures
        i == j,
{
    assert(rank_le(ranks[i], ranks[j]));
    assert(rank_le(ranks[j], ranks[i]));
    assert(ranks[i] == ranks[j]);
}

/// Lets a ranking function over `T` rank shared items.
pub struct RcFnComparator<F>(pub F);

impl<F> RcFnComparator<F> {
    /// The ranking function accepts every item.
    pub open spec fn total<T>(&self) -> bool where F: Fn(&T) -> Rank {
        forall|x: T| call_requires(self.0, (&x,))
    }

    /// `rank` is what the ranking function may give for `item`.
    pub open spec fn ranks<T>(&self, item: Rc<T>, rank: Rank) -> bool where F: Fn(&T) -> Rank {
        call_ensures(self.0, (&*item,), rank)
    }

    pub fn rank<T>(&self, item: &Rc<T>) -> (rank: Rank) where F: Fn(&T) -> Rank
        requires
            self.total::<T>(),
        ensures
            self.ranks(*item, rank),
    {
        (self.0)(&**item)
    }
}

/// `ranks` are ranks that `ranking` gives for `items`, one for each.
pub open spec fn ranked<T, F: Fn(&T) -> Rank>(
    ranking: RcFnComparator<F>,
    items: Seq<Rc<T>>,
    ranks: Seq<Rank>,
) -> bool {
    &&& ranks.len() == items.len()
    &&& forall|i: int| 0 <= i < items.len() ==> ranking.ranks(#[trigger] items[i], ranks[i])
}

/// The rule of a priority frontier with the given ranking: under some ranks
/// that the ranking gives for the items, the item of least rank leaves, and
/// of those of least rank the oldest.
pub open spec fn by_ranking<T, F: Fn(&T) -> Rank>(ranking: RcFnComparator<F>) -> spec_fn(
    Seq<Rc<T>>,
    int,
) -> bool {
    |items: Seq<Rc<T>>, pick: int|
        exists|ranks: Seq<Rank>| #[trigger]
            ranked(ranking, items, ranks) && leaves_first(ranks, pick)
}

/// A priority frontier: the item of least rank leaves first, and of two
/// items of one rank the older one.
///
/// The ranks are kept in a binary heap together with the number under which
/// the item arrived; the items wait in a map under that number.
pub struct PriorityCmp<T, F> {
    queue: BinaryHeap<Entry, MinComparator>,
    waiting: HashMap<u64, Rc<T>>,
    arrivals: u64,
    ranking: RcFnComparator<F>,
    order: Ghost<Seq<Entry>>,
}

impl<T, F: Fn(&T) -> Rank> PriorityCmp<T, F> {
    /// The ranking function that the frontier was made with.
    pub closed spec fn ranking(&self) -> RcFnComparator<F> {
        self.ranking
    }

    /// The rank under which each item waits; `ranks()[i]` belongs to
    /// `items()[i]`.
    pub closed spec fn ranks(&self) -> Seq<Rank> {
        Seq::new(self.order@.len(), |i: int| (self.order@[i].0, self.order@[i].1))
    }

    pub fn new(cmp: F) -> (frontier: Self)
        requires
            forall|x: T| call_requires(cmp, (&x,)),
        ensures
            frontier.inv(),
            frontier.items() == Seq::<Rc<T>>::empty(),
            frontier.ranks() == Seq::<Rank>::empty(),
            frontier.room() == u64::MAX,
            frontier.ranking() == RcFnComparator(cmp),
    {
        let frontier = PriorityCmp {
            queue: heap_new(),
            waiting: HashMap::new(),
            arrivals: 0,
            ranking: RcFnComparator(cmp),
            order: Ghost(Seq::empty()),
        };
        proof {
            broadcast use vstd::seq_lib::group_to_multiset_ensures;

            assert(frontier.order@.to_multiset() =~= vstd::multiset::Multiset::<Entry>::empty());
            assert(frontier.items() =~= Seq::<Rc<T>>::empty());
            assert(frontier.ranks() =~= Seq::<Rank>::empty());
        }
        frontier
    }

    /// Every waiting item has a rank, and that rank is one that the ranking
    /// function gives for it.
    pub proof fn lemma_ranked(&self)
        requires
            self.inv(),
        ensures
            self.ranks().len() == self.items().len(),
            forall|i: int|
                0 <= i < self.items().len() ==> self.ranking().ranks(
                    #[trigger] self.items()[i],
                    self.ranks()[i],
                ),
    {
    }

    /// While items wait, `front()` is the position that leaves first.
    pub proof fn lemma_front(&self)
        requires
            self.inv(),
            self.items().len() > 0,
        ensures
            leaves_first(self.ranks(), self.front()),
    {
        let ranks = self.ranks();
        let i = Self::least(ranks, ranks.len() as int);
        Self::lemma_least(ranks, ranks.len() as int);
        assert(ranks.take(ranks.len() as int) =~= ranks);
    }

    /// The first position among the `n` oldest that holds their least rank.
    spec fn least(ranks: Seq<Rank>, n: int) -> int
        decreases n,
    {
        if n <= 1 {
            0
        } else {
            let j = Self::least(ranks, n - 1);
            if rank_le(ranks[j], ranks[n - 1]) {
                j
            } else {
                n - 1
            }
        }
    }

    proof fn lemma_least(ranks: Seq<Rank>, n: int)
        requires
            1 <= n <= ranks.len(),
        ensures
            leaves_first(ranks.take(n), Self::least(ranks, n)),
        decreases n,
    {
        if n > 1 {
            Self::lemma_least(ranks, n - 1);
            let j = Self::least(ranks, n - 1);
            assert forall|k: int| 0 <= k < n - 1 implies ranks.take(n - 1)[k] == ranks.take(n)[k] by {}
            assert(forall|k: int| 0 <= k < n - 1 ==> rank_le(ranks[j], #[trigger] ranks.take(n - 1)[k]));
        }
    }
}

impl<T, F: Fn(&T) -> Rank> Queue<T> for PriorityCmp<T, F> {
    closed spec fn inv(&self) -> bool {
        &&& heap_entries(self.queue) == self.order@.to_multiset()
        &&& self.ranking.total::<T>()
        &&& forall|i: int, j: int|
            0 <= i < j < self.order@.len() ==> (#[trigger] self.order@[i]).2 < (
            #[trigger] self.order@[j]).2
        &&& forall|i: int| 0 <= i < self.order@.len() ==> (#[trigger] self.order@[i]).2 < self.arrivals
        &&& forall|i: int|
            0 <= i < self.order@.len() ==> self.waiting@.contains_key((#[trigger] self.order@[i]).2)
        &&& forall|k: u64|
            self.waiting@.contains_key(k) ==> exists|i: int|
                0 <= i < self.order@.len() && (#[trigger] self.order@[i]).2 == k
        &&& forall|i: int|
            0 <= i < self.order@.len() ==> self.ranking.ranks(
                self.waiting@[(#[trigger] self.order@[i]).2],
                (self.order@[i].0, self.order@[i].1),
            )
    }

    closed spec fn items(&self) -> Seq<Rc<T>> {
        Seq::new(self.order@.len(), |i: int| self.waiting@[self.order@[i].2])
    }

    closed spec fn front(&self) -> int {
        Self::least(self.ranks(), self.ranks().len() as int)
    }

    closed spec fn room(&self) -> nat {
        (u64::MAX - self.arrivals) as nat
    }

    open spec fn rule(&self) -> spec_fn(Seq<Rc<T>>, int) -> bool {
        by_ranking(self.ranking())
    }

    fn enqueue(&mut self, item: Rc<T>)
        ensures
            final(self).ranking() == old(self).ranking(),
            final(self).ranks().len() == old(self).ranks().len() + 1,
            final(self).ranks().drop_last() == old(self).ranks(),
            final(self).ranking().ranks(item, final(self).ranks().last()),
    {
        let rank = self.ranking.rank(&item);
        let arrival = self.arrivals;
        let entry: Entry = (rank.0, rank.1, arrival);
        heap_push(&mut self.queue, entry);
        self.waiting.insert(arrival, item);
        self.arrivals = arrival + 1;
        proof {
            broadcast use vstd::seq_lib::group_to_multiset_ensures;

            let before = old(self).order@;
            let after = before.push(entry);
            self.order = Ghost(after);
            assert forall|i: int| 0 <= i < after.len() implies self.waiting@.contains_key(
                (#[trigger] after[i]).2,
            ) && self.ranking.ranks(self.waiting@[after[i].2], (after[i].0, after[i].1)) by {
                if i < before.len() {
                    assert(after[i] == before[i]);
                }
            }
            assert forall|k: u64| self.waiting@.contains_key(k) implies exists|i: int|
                0 <= i < after.len() && (#[trigger] after[i]).2 == k by {
                if k == arrival {
                    assert(after[before.len() as int].2 == k);
                } else {
                    let i = choose|i: int| 0 <= i < before.len() && (#[trigger] before[i]).2 == k;
                    assert(after[i].2 == k);
                }
            }
            assert(self.items() =~= old(self).items().push(item));
            assert(self.ranks().drop_last() =~= old(self).ranks());
        }
    }

    fn dequeue(&mut self) -> (item: Option<Rc<T>>)
        ensures
            final(self).ranking() == old(self).ranking(),
            old(self).items().len() > 0 ==> leaves_first(old(self).ranks(), old(self).front())
                && final(self).ranks() == old(self).ranks().remove(old(self).front()),
    {
        proof {
            broadcast use vstd::seq_lib::group_to_multiset_ensures;

        }
        match heap_pop(&mut self.queue) {
            None => {
                proof {
                    assert(old(self).order@.len() == 0);
                }
                None
            },
            Some(entry) => {
                let item = self.waiting.remove(&entry.2);
                proof {
                    let before = old(self).order@;
                    assert(before.to_multiset().count(entry) > 0);
                    assert(before.contains(entry));
                    let i = choose|i: int| 0 <= i < before.len() && before[i] == entry;
                    let ranks = old(self).ranks();
                    assert forall|j: int| 0 <= j < ranks.len() implies rank_le(
                        ranks[i],
                        #[trigger] ranks[j],
                    ) && (ranks[j] == ranks[i] ==> i <= j) by {
                        assert(before.contains(before[j]));
                        assert(heap_entries(old(self).queue).contains(before[j]));
                        assert(entry_le(entry, before[j]));
                        if j < i {
                            assert(before[j].2 < before[i].2);
                        }
                    }
                    assert(leaves_first(ranks, i));
                    old(self).lemma_front();
                    lemma_leaves_first_unique(ranks, i, old(self).front());
                    let after = before.remove(i);
                    self.order = Ghost(after);
                    assert forall|a: int| 0 <= a < after.len() implies after[a] == before[if a < i {
                        a
                    } else {
                        a + 1
                    }] by {}
                    assert forall|a: int| 0 <= a < after.len() implies (#[trigger] after[a]).2
                        != entry.2 by {
                        if a < i {
                            assert(before[a].2 < before[i].2);
                        } else {
                            assert(before[i].2 < before[a + 1].2);
                        }
                    }
                    assert forall|k: u64| self.waiting@.contains_key(k) implies exists|a: int|
                        0 <= a < after.len() && (#[trigger] after[a]).2 == k by {
                        let b = choose|b: int| 0 <= b < before.len() && (#[trigger] before[b]).2 == k;
                        if b < i {
                            assert(after[b].2 == k);
                        } else {
                            assert(after[b - 1].2 == k);
                        }
                    }
                    assert(self.items() =~= old(self).items().remove(i));
                    assert(self.ranks() =~= ranks.remove(i));
                    old(self).lemma_ranked();
                    assert(ranked(old(self).ranking(), old(self).items(), ranks));
                }
                item
            },
        }
    }

    fn is_empty(&self) -> (empty: bool) {
        proof {
            broadcast use vstd::seq_lib::group_to_multiset_ensures;

        }
        heap_len(&self.queue) == 0
    }

    fn len(&self) -> (len: usize) {
        proof {
            broadcast use vstd::seq_lib::group_to_multiset_ensures;

        }
        heap_len(&self.queue)
    }

    fn clear(&mut self)
        ensures
            final(self).ranking() == old(self).ranking(),
            final(self).ranks() == Seq::<Rank>::empty(),
    {
        heap_clear(&mut self.queue);
        self.waiting.clear();
        proof {
            broadcast use vstd::seq_lib::group_to_multiset_ensures;

            self.order = Ghost(Seq::empty());
            assert(self.order@.to_multiset() =~= vstd::multiset::Multiset::<Entry>::empty());
            assert(self.items() =~= Seq::<Rc<T>>::empty());
            assert(self.ranks() =~= Seq::<Rank>::empty());
        }
    }
}

} // verus!
