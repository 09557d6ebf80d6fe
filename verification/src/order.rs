//! The order in which steepest-ascent hill climbing meets the successors of a
//! state: by rising estimate, and among equal estimates as the domain listed
//! them.
use crate::transition::State;
use vstd::prelude::*;

verus! {

/// `sorted` with `item` put behind the last entry whose estimate is not
/// larger than its own.
pub open spec fn placed<S>(sorted: Seq<(i32, S)>, item: (i32, S)) -> Seq<(i32, S)>
    decreases sorted.len(),
{
    if sorted.len() > 0 && sorted.last().0 > item.0 {
        placed(sorted.drop_last(), item).push(sorted.last())
    } else {
        sorted.push(item)
    }
}

/// The entries of `items` by rising estimate; entries of one estimate keep
/// their order.
pub open spec fn arranged<S>(items: Seq<(i32, S)>) -> Seq<(i32, S)>
    decreases items.len(),
{
    if items.len() == 0 {
        items
    } else {
        placed(arranged(items.drop_last()), items.last())
    }
}

/// No entry has a larger estimate than one behind it.
pub open spec fn rising<S>(items: Seq<(i32, S)>) -> bool {
    forall|i: int, j: int| 0 <= i < j < items.len() ==> items[i].0 <= items[j].0
}

/// Putting an entry in place is inserting it where the larger estimates
/// begin.
pub proof fn lemma_placed_at<S>(sorted: Seq<(i32, S)>, item: (i32, S), at: int)
    requires
        0 <= at <= sorted.len(),
        forall|i: int| at <= i < sorted.len() ==> sorted[i].0 > item.0,
        at > 0 ==> sorted[at - 1].0 <= item.0,
    ensures
        placed(sorted, item) == sorted.insert(at, item),
    decreases sorted.len() - at,
{
    if at == sorted.len() {
        assert(sorted.insert(at, item) =~= sorted.push(item));
    } else {
        let shorter = sorted.drop_last();
        lemma_placed_at(shorter, item, at);
        assert(shorter.insert(at, item).push(sorted.last()) =~= sorted.insert(at, item));
    }
}

/// Putting an entry in place keeps every entry, adds the new one, and keeps
/// a rising sequence rising.
pub proof fn lemma_placed<S>(sorted: Seq<(i32, S)>, item: (i32, S))
    ensures
        placed(sorted, item).to_multiset() == sorted.to_multiset().insert(item),
        placed(sorted, item).len() == sorted.len() + 1,
        rising(sorted) ==> rising(placed(sorted, item)),
        forall|i: int|
            0 <= i < placed(sorted, item).len() ==> (#[trigger] placed(sorted, item)[i]) == item
                || sorted.contains(placed(sorted, item)[i]),
    decreases sorted.len(),
{
    broadcast use vstd::seq_lib::group_to_multiset_ensures;

    let result = placed(sorted, item);
    if sorted.len() > 0 && sorted.last().0 > item.0 {
        let shorter = sorted.drop_last();
        let inner = placed(shorter, item);
        lemma_placed(shorter, item);
        assert(sorted =~= shorter.push(sorted.last()));
        assert(result.to_multiset() =~= sorted.to_multiset().insert(item));
        assert forall|i: int| 0 <= i < result.len() implies (#[trigger] result[i]) == item
            || sorted.contains(result[i]) by {
            if i < inner.len() {
                assert(result[i] == inner[i]);
                if inner[i] != item {
                    assert(shorter.contains(inner[i]));
                    let at = choose|at: int| 0 <= at < shorter.len() && shorter[at] == inner[i];
                    assert(sorted[at] == inner[i]);
                }
            } else {
                assert(result[i] == sorted[sorted.len() - 1]);
            }
        }
        if rising(sorted) {
            assert forall|i: int, j: int| 0 <= i < j < shorter.len() implies shorter[i].0
                <= shorter[j].0 by {
                assert(sorted[i].0 <= sorted[j].0);
            }
            assert forall|i: int, j: int| 0 <= i < j < result.len() implies result[i].0
                <= result[j].0 by {
                if j < inner.len() {
                    assert(result[i] == inner[i] && result[j] == inner[j]);
                } else {
                    assert(result[j] == sorted.last());
                    assert(result[i] == inner[i]);
                    if inner[i] != item {
                        let at = choose|at: int| 0 <= at < shorter.len() && shorter[at] == inner[i];
                        assert(sorted[at].0 <= sorted[sorted.len() - 1].0);
                    }
                }
            }
        }
    } else {
        assert forall|i: int| 0 <= i < result.len() implies (#[trigger] result[i]) == item
            || sorted.contains(result[i]) by {
            if i < sorted.len() {
                assert(sorted[i] == result[i]);
            }
        }
        if rising(sorted) {
            assert forall|i: int, j: int| 0 <= i < j < result.len() implies result[i].0
                <= result[j].0 by {
                if j < sorted.len() {
                    assert(sorted[i].0 <= sorted[j].0);
                } else if sorted.len() > 0 {
                    assert(sorted[i].0 <= sorted[sorted.len() - 1].0);
                }
            }
        }
    }
}

/// Arranging keeps every entry as often as it occurs, and the result rises.
pub proof fn lemma_arranged<S>(items: Seq<(i32, S)>)
    ensures
        arranged(items).to_multiset() == items.to_multiset(),
        arranged(items).len() == items.len(),
        rising(arranged(items)),
    decreases items.len(),
{
    broadcast use vstd::seq_lib::group_to_multiset_ensures;

    if items.len() > 0 {
        lemma_arranged(items.drop_last());
        lemma_placed(arranged(items.drop_last()), items.last());
        assert(items =~= items.drop_last().push(items.last()));
    }
}

/// Puts `items` in the order of `arranged`.
pub fn arrange<S: Copy>(items: Vec<(i32, S)>) -> (sorted: Vec<(i32, S)>)
    ensures
        sorted@ == arranged(items@),
{
    let mut sorted: Vec<(i32, S)> = Vec::new();
    let mut next: usize = 0;
    while next < items.len()
        invariant
            next <= items.len(),
            sorted@ == arranged(items@.take(next as int)),
        decreases items.len() - next,
    {
        let item = items[next];
        let mut at: usize = sorted.len();
        while at > 0 && sorted[at - 1].0 > item.0
            invariant
                at <= sorted.len(),
                forall|i: int| at <= i < sorted.len() ==> sorted@[i].0 > item.0,
            decreases at,
        {
            at = at - 1;
        }
        proof {
            lemma_placed_at(sorted@, item, at as int);
            assert(items@.take(next + 1).drop_last() =~= items@.take(next as int));
        }
        sorted.insert(at, item);
        next = next + 1;
    }
    assert(items@.take(items.len() as int) =~= items@);
    sorted
}

/// The states of the pairs, in their order.
pub open spec fn states_of<S>(pairs: Seq<(i32, S)>) -> Seq<S> {
    pairs.map_values(|pair: (i32, S)| pair.1)
}

/// `estimated` pairs each state of `survivors` with an estimate that
/// `heuristic` gives for it.
pub open spec fn estimates_of<S, H: Fn(&S) -> i32>(
    heuristic: H,
    survivors: Seq<S>,
    estimated: Seq<(i32, S)>,
) -> bool {
    &&& estimated.len() == survivors.len()
    &&& forall|i: int|
        0 <= i < estimated.len() ==> (#[trigger] estimated[i]).1 == survivors[i] && call_ensures(
            heuristic,
            (&survivors[i],),
            estimated[i].0,
        )
}

/// `sorted` holds the states of `survivors` by rising estimate, states of
/// one estimate in the order of `survivors`.
pub open spec fn by_estimate<S, H: Fn(&S) -> i32>(
    heuristic: H,
    survivors: Seq<S>,
    sorted: Seq<S>,
) -> bool {
    exists|estimated: Seq<(i32, S)>| #[trigger]
        estimates_of(heuristic, survivors, estimated) && sorted == states_of(arranged(estimated))
}

/// The states of `survivors` in the order in which steepest ascent tries
/// them: each is paired with an estimate that `heuristic` gives for it, the
/// pairs are arranged by rising estimate, and the states are read off.
pub fn sort_by_estimate<S: State, H: Fn(&S) -> i32>(survivors: Vec<S>, heuristic: &H) -> (sorted:
    Vec<S>)
    requires
        forall|i: int| 0 <= i < survivors@.len() ==> call_requires(*heuristic, (&survivors@[i],)),
    ensures
        by_estimate(*heuristic, survivors@, sorted@),
        sorted@.to_multiset() == survivors@.to_multiset(),
{
    let mut estimated: Vec<(i32, S)> = Vec::new();
    let mut next: usize = 0;
    while next < survivors.len()
        invariant
            next <= survivors.len(),
            estimated@.len() == next,
            forall|i: int| 0 <= i < survivors@.len() ==> call_requires(*heuristic, (&survivors@[i],)),
            forall|i: int|
                0 <= i < next ==> (#[trigger] estimated@[i]).1 == survivors@[i] && call_ensures(
                    *heuristic,
                    (&survivors@[i],),
                    estimated@[i].0,
                ),
        decreases survivors.len() - next,
    {
        let state = survivors[next];
        let estimate = heuristic(&state);
        estimated.push((estimate, state));
        next = next + 1;
    }
    let pairs = arrange(estimated);
    let mut sorted: Vec<S> = Vec::new();
    let mut at: usize = 0;
    while at < pairs.len()
        invariant
            at <= pairs.len(),
            sorted@ == states_of(pairs@.take(at as int)),
        decreases pairs.len() - at,
    {
        sorted.push(pairs[at].1);
        proof {
            assert(states_of(pairs@.take(at + 1)) =~= states_of(pairs@.take(at as int)).push(
                pairs@[at as int].1,
            ));
        }
        at = at + 1;
    }
    proof {
        assert(pairs@.take(pairs.len() as int) =~= pairs@);
        lemma_arranged(estimated@);
        assert(states_of(estimated@) =~= survivors@);
        lemma_map_multiset(pairs@, estimated@);
        assert(estimates_of(*heuristic, survivors@, estimated@));
    }
    sorted
}

/// Sequences that hold the same pairs hold the same states.
pub proof fn lemma_map_multiset<S>(a: Seq<(i32, S)>, b: Seq<(i32, S)>)
    requires
        a.to_multiset() == b.to_multiset(),
    ensures
        states_of(a).to_multiset() == states_of(b).to_multiset(),
    decreases a.len(),
{
    broadcast use vstd::seq_lib::group_to_multiset_ensures;

    if a.len() == 0 {
        assert(a.to_multiset().len() == a.len());
        assert(b.to_multiset().len() == b.len());
        assert(states_of(a) =~= states_of(b));
    } else {
        let last = a.last();
        assert(a.contains(last));
        assert(b.to_multiset().count(last) > 0);
        assert(b.contains(last));
        let at = choose|at: int| 0 <= at < b.len() && b[at] == last;
        let rest = b.remove(at);
        assert(a.drop_last() =~= a.remove(a.len() - 1));
        assert(a.drop_last().to_multiset() =~= rest.to_multiset());
        lemma_map_multiset(a.drop_last(), rest);
        assert(states_of(a) =~= states_of(a.drop_last()).push(last.1));
        assert(states_of(rest) =~= states_of(b).remove(at));
        assert(states_of(b)[at] == last.1);
        assert(states_of(a).to_multiset() =~= states_of(b).to_multiset());
    }
}

} // verus!
