//! What a search keeps between two of its steps, and what follows from it.
//!
//! The driver states its loop invariants in the words of this module; the
//! lemmas say how each step of the driver keeps them.
use crate::closed::Explored;
use crate::closed::spec_seen_and_better;
use crate::queue::Queue;
use crate::run::born;
use crate::run::child;
use crate::run::estimated;
use crate::run::expansion;
use crate::run::lemma_lowest;
use crate::run::lowest;
use crate::run::recorded;
use crate::run::tried;
use crate::search::SearchConfig;
use crate::search::no_goal_in_reach;
use crate::transition::State;
use crate::transition::Transition;
use crate::transition::distinct_successors;
use crate::transition::is_path_from;
use crate::transition::lawful;
use crate::transition::lemma_path_valid;
use crate::transition::lemma_same_key;
use crate::transition::reachable;
use std::rc::Rc;
use vstd::prelude::*;

verus! {

/// Every waiting transition is one that the search created.
pub open spec fn known<S: State>(explored: &Explored<S>, open: Seq<Rc<Transition<S>>>) -> bool {
    forall|j: int| 0 <= j < open.len() ==> explored.member(#[trigger] open[j])
}

/// A transition to `state` waits in `open`.
pub open spec fn waits<S: State>(open: Seq<Rc<Transition<S>>>, state: S) -> bool {
    exists|j: int| 0 <= j < open.len() && (#[trigger] open[j]).spec_state() == state
}

/// `goal` refused every state of `done`.
pub open spec fn refuted<S: State, G: Fn(&S) -> bool>(goal: G, done: Set<S>) -> bool {
    forall|state: S| #[trigger]
        done.contains(state) ==> state.valid() && call_ensures(goal, (&state,), false)
}

/// The closed set holds every successor of every state of `done`.
#[verifier::opaque]
pub open spec fn closed_under_steps<S: State>(
    seen: Map<u64, Rc<Transition<S>>>,
    done: Set<S>,
) -> bool {
    forall|state: S, m: int|
        #![trigger done.contains(state), state.spec_successors()[m]]
        done.contains(state) && 0 <= m < state.spec_successors().len() ==> seen.contains_key(
            state.spec_successors()[m].spec_key(),
        )
}

/// Every state of the closed set is expanded, or being expanded, or waits.
#[verifier::opaque]
pub open spec fn accounted<S: State>(
    seen: Map<u64, Rc<Transition<S>>>,
    open: Seq<Rc<Transition<S>>>,
    done: Set<S>,
    current: Option<S>,
) -> bool {
    forall|k: u64| #[trigger]
        seen.contains_key(k) ==> {
            ||| done.contains(seen[k].spec_state())
            ||| current == Some(seen[k].spec_state())
            ||| waits(open, seen[k].spec_state())
        }
}

/// Where every state of the closed set is expanded, `goal` has refused every
/// state in reach.
pub proof fn lemma_exhausted<S: State, G: Fn(&S) -> bool>(
    explored: &Explored<S>,
    goal: G,
    done: Set<S>,
    initial: S,
)
    requires
        explored.wf(),
        explored.history()[0].spec_state() == initial,
        refuted(goal, done),
        closed_under_steps(explored.seen(), done),
        accounted(explored.seen(), Seq::<Rc<Transition<S>>>::empty(), done, None),
    ensures
        no_goal_in_reach(initial, goal),
{
    reveal(closed_under_steps);
    reveal(accounted);
    assert forall|state: S| #[trigger] reachable(initial, state) implies call_ensures(
        goal,
        (&state,),
        false,
    ) by {
        let path = choose|path: Seq<S>| #[trigger]
            is_path_from(initial, path) && path.last() == state;
        lemma_path_done(explored, done, path, path.len() - 1);
    }
}

/// Where every state of the closed set is expanded, so is every state of a
/// path from the root.
pub proof fn lemma_path_done<S: State>(explored: &Explored<S>, done: Set<S>, path: Seq<S>, i: int)
    requires
        explored.wf(),
        is_path_from(explored.history()[0].spec_state(), path),
        closed_under_steps(explored.seen(), done),
        accounted(explored.seen(), Seq::<Rc<Transition<S>>>::empty(), done, None),
        0 <= i < path.len(),
    ensures
        done.contains(path[i]),
    decreases i,
{
    reveal(closed_under_steps);
    reveal(accounted);
    let seen = explored.seen();
    if i == 0 {
        explored.lemma_best(0);
        assert(seen.contains_key(path[0].spec_key()));
    } else {
        lemma_path_done(explored, done, path, i - 1);
        let before = path[i - 1];
        assert(before.valid());
        let next = before.spec_successors();
        let m = choose|m: int| 0 <= m < next.len() && #[trigger] next[m] == path[i];
        assert(next[m].valid());
        assert(seen.contains_key(next[m].spec_key()));
        explored.lemma_seen_state(path[i]);
    }
    let k = path[i].spec_key();
    assert(seen.contains_key(k));
    assert(!waits(Seq::<Rc<Transition<S>>>::empty(), seen[k].spec_state()));
}

/// The frontier hands out its oldest item first, whatever it holds.
pub open spec fn first_in_first_out<S: State, Q: Queue<Transition<S>>>() -> bool {
    forall|queue: Q| #[trigger] queue.front() == 0
}

/// What a breadth-first search keeps while it works on the states `level`
/// steps from the root.
///
/// The waiting transitions have `level` or `level + 1` steps, the shorter
/// ones ahead, and each has as many steps as the closed set knows for its
/// state. The closed set knows no state by more than `level + 1` steps, and
/// every state that it knows by fewer than `level` is expanded. From an
/// expanded state to a successor the closed set counts at most one step
/// more.
#[verifier::opaque]
pub open spec fn layered<S: State>(
    seen: Map<u64, Rc<Transition<S>>>,
    open: Seq<Rc<Transition<S>>>,
    done: Set<S>,
    level: nat,
) -> bool {
    &&& forall|j: int| 0 <= j < open.len() ==> level <= (#[trigger] open[j]).spec_g() <= level + 1
    &&& forall|i: int, j: int|
        0 <= i < j < open.len() ==> (#[trigger] open[i]).spec_g() <= (#[trigger] open[j]).spec_g()
    &&& forall|j: int|
        0 <= j < open.len() ==> seen.contains_key((#[trigger] open[j]).spec_state().spec_key())
            && seen[open[j].spec_state().spec_key()].spec_g() == open[j].spec_g()
    &&& forall|k: u64| #[trigger]
        seen.contains_key(k) ==> seen[k].spec_g() <= level + 1 && (seen[k].spec_g() < level
            ==> done.contains(seen[k].spec_state()))
    &&& forall|state: S| #[trigger] done.contains(state) ==> seen.contains_key(state.spec_key())
    &&& forall|state: S, m: int|
        #![trigger done.contains(state), state.spec_successors()[m]]
        done.contains(state) && 0 <= m < state.spec_successors().len() ==> seen.contains_key(
            state.spec_successors()[m].spec_key(),
        ) && seen[state.spec_successors()[m].spec_key()].spec_g() <= seen[state.spec_key()].spec_g()
            + 1
}

/// The closed set knows `state` by `level` steps.
pub open spec fn expanding<S: State>(
    seen: Map<u64, Rc<Transition<S>>>,
    state: S,
    level: nat,
) -> bool {
    seen.contains_key(state.spec_key()) && seen[state.spec_key()].spec_g() == level
}

/// Taking the oldest transition from the frontier of a breadth-first search
/// moves the search on to the layer of that transition.
pub proof fn lemma_layered_pop<S: State>(
    explored: &Explored<S>,
    open: Seq<Rc<Transition<S>>>,
    done: Set<S>,
    level: nat,
)
    requires
        explored.wf(),
        layered(explored.seen(), open, done, level),
        accounted(explored.seen(), open, done, None),
        open.len() > 0,
    ensures
        layered(explored.seen(), open.remove(0), done, open[0].spec_g() as nat),
        expanding(explored.seen(), open[0].spec_state(), open[0].spec_g() as nat),
{
    reveal(accounted);
    reveal(layered);
    let seen = explored.seen();
    let rest = open.remove(0);
    let next = open[0].spec_g() as nat;
    assert(level <= next <= level + 1);
    assert forall|j: int| 0 <= j < rest.len() implies next <= (#[trigger] rest[j]).spec_g() <= next
        + 1 && seen.contains_key(rest[j].spec_state().spec_key())
        && seen[rest[j].spec_state().spec_key()].spec_g() == rest[j].spec_g() by {
        assert(rest[j] == open[j + 1]);
        assert(open[0].spec_g() <= open[j + 1].spec_g());
    }
    assert forall|i: int, j: int| 0 <= i < j < rest.len() implies (#[trigger] rest[i]).spec_g() <= (
    #[trigger] rest[j]).spec_g() by {
        assert(rest[i] == open[i + 1]);
        assert(rest[j] == open[j + 1]);
    }
    assert forall|k: u64| #[trigger] seen.contains_key(k) implies seen[k].spec_g() <= next + 1 && (
    seen[k].spec_g() < next ==> done.contains(seen[k].spec_state())) by {
        if seen[k].spec_g() < next && !done.contains(seen[k].spec_state()) {
            assert(waits(open, seen[k].spec_state()));
            let j = choose|j: int|
                0 <= j < open.len() && (#[trigger] open[j]).spec_state() == seen[k].spec_state();
            assert(open[j].spec_state().spec_key() == k);
            if j > 0 {
                assert(open[0].spec_g() <= open[j].spec_g());
            }
        }
    }
}

/// Recording a transition one layer down and queueing it keeps the layers.
pub proof fn lemma_layered_grows<S: State>(
    seen: Map<u64, Rc<Transition<S>>>,
    open: Seq<Rc<Transition<S>>>,
    done: Set<S>,
    level: nat,
    transition: Rc<Transition<S>>,
)
    requires
        layered(seen, open, done, level),
        transition.spec_g() == level + 1,
        seen.contains_key(transition.spec_state().spec_key())
            ==> seen[transition.spec_state().spec_key()].spec_g() > level,
    ensures
        layered(
            seen.insert(transition.spec_state().spec_key(), transition),
            open.push(transition),
            done,
            level,
        ),
{
    reveal(layered);
    let key = transition.spec_state().spec_key();
    let seen2 = seen.insert(key, transition);
    let open2 = open.push(transition);
    if seen.contains_key(key) {
        assert(seen[key].spec_g() == level + 1);
    }
    assert forall|j: int| 0 <= j < open2.len() implies level <= (#[trigger] open2[j]).spec_g()
        <= level + 1 && seen2.contains_key(open2[j].spec_state().spec_key())
        && seen2[open2[j].spec_state().spec_key()].spec_g() == open2[j].spec_g() by {
        if j < open.len() {
            assert(open2[j] == open[j]);
        }
    }
    assert forall|i: int, j: int| 0 <= i < j < open2.len() implies (#[trigger] open2[i]).spec_g()
        <= (#[trigger] open2[j]).spec_g() by {
        assert(open2[i] == open[i]);
        if j < open.len() {
            assert(open2[j] == open[j]);
        }
    }
    assert forall|k: u64| #[trigger] seen2.contains_key(k) implies seen2[k].spec_g() <= level + 1
        && (seen2[k].spec_g() < level ==> done.contains(seen2[k].spec_state())) by {
        if k != key {
            assert(seen.contains_key(k));
        }
    }
    assert forall|state: S, m: int|
        #![trigger done.contains(state), state.spec_successors()[m]]
        done.contains(state) && 0 <= m < state.spec_successors().len() implies seen2.contains_key(
        state.spec_successors()[m].spec_key(),
    ) && seen2[state.spec_successors()[m].spec_key()].spec_g() <= seen2[state.spec_key()].spec_g()
        + 1 by {
        let from = state.spec_key();
        let to = state.spec_successors()[m].spec_key();
        assert(seen.contains_key(from) && seen.contains_key(to));
        assert(seen[to].spec_g() <= seen[from].spec_g() + 1);
        assert(seen[to].spec_g() <= level + 1);
    }
}

/// Once every successor of the state being expanded is in the closed set,
/// the state counts as expanded, and the layers stay.
pub proof fn lemma_layered_done<S: State>(
    seen: Map<u64, Rc<Transition<S>>>,
    open: Seq<Rc<Transition<S>>>,
    done: Set<S>,
    level: nat,
    state: S,
)
    requires
        layered(seen, open, done, level),
        expanding(seen, state, level),
        forall|m: int|
            0 <= m < state.spec_successors().len() ==> seen.contains_key(
                (#[trigger] state.spec_successors()[m]).spec_key(),
            ),
    ensures
        layered(seen, open, done.insert(state), level),
{
    reveal(layered);
    let more = done.insert(state);
    assert forall|other: S, m: int|
        #![trigger more.contains(other), other.spec_successors()[m]]
        more.contains(other) && 0 <= m < other.spec_successors().len() implies seen.contains_key(
        other.spec_successors()[m].spec_key(),
    ) && seen[other.spec_successors()[m].spec_key()].spec_g() <= seen[other.spec_key()].spec_g()
        + 1 by {
        if other != state {
            assert(done.contains(other));
        } else {
            assert(seen.contains_key(state.spec_successors()[m].spec_key()));
        }
    }
}

/// In a breadth-first search, the state that a path from the root reaches
/// in fewer steps than the layer being worked on is expanded.
pub proof fn lemma_layer_done<S: State>(
    explored: &Explored<S>,
    open: Seq<Rc<Transition<S>>>,
    done: Set<S>,
    level: nat,
    path: Seq<S>,
    i: int,
)
    requires
        explored.wf(),
        layered(explored.seen(), open, done, level),
        is_path_from(explored.history()[0].spec_state(), path),
        0 <= i < path.len(),
        i < level,
    ensures
        done.contains(path[i]),
        explored.seen().contains_key(path[i].spec_key()),
        explored.seen()[path[i].spec_key()].spec_g() <= i,
    decreases i,
{
    reveal(layered);
    let seen = explored.seen();
    assert(explored.history()[0].wf());
    lemma_path_valid(path, i);
    if i == 0 {
        explored.lemma_best(0);
    } else {
        lemma_layer_done(explored, open, done, level, path, i - 1);
        let before = path[i - 1];
        let next = before.spec_successors();
        let m = choose|m: int| 0 <= m < next.len() && #[trigger] next[m] == path[i];
        assert(done.contains(before));
        assert(seen.contains_key(next[m].spec_key()));
    }
    explored.lemma_seen_state(path[i]);
}

/// A sequence without duplicates has none after filtering.
pub proof fn lemma_filter_distinct<A>(items: Seq<A>, pred: spec_fn(A) -> bool)
    requires
        items.no_duplicates(),
    ensures
        items.filter(pred).no_duplicates(),
    decreases items.len(),
{
    reveal(Seq::filter);
    if items.len() > 0 {
        let rest = items.drop_last();
        lemma_filter_distinct(rest, pred);
        if pred(items.last()) {
            let kept = rest.filter(pred);
            if kept.contains(items.last()) {
                rest.lemma_filter_contains_rev(pred, items.last());
                let at = choose|at: int| 0 <= at < rest.len() && rest[at] == items.last();
                assert(items[at] == items[items.len() - 1]);
            }
            assert forall|i: int, j: int|
                0 <= i < kept.push(items.last()).len() && 0 <= j < kept.push(items.last()).len()
                    && i != j implies kept.push(items.last())[i] != kept.push(items.last())[j] by {
                if i < kept.len() && j < kept.len() {
                } else if i < kept.len() {
                    assert(kept.contains(kept[i]));
                } else {
                    assert(kept.contains(kept[j]));
                }
            }
        }
    }
}

/// A sequence that holds the items of a sequence without duplicates, each
/// as often, has none either.
pub proof fn lemma_permuted_distinct<A>(items: Seq<A>, permuted: Seq<A>)
    requires
        items.no_duplicates(),
        permuted.to_multiset() == items.to_multiset(),
    ensures
        permuted.no_duplicates(),
{
    items.lemma_multiset_has_no_duplicates();
    permuted.lemma_multiset_has_no_duplicates_conv();
}

/// The test that a successor passes when the closed set does not rule it
/// out: the closed set knows no way to it of `g` steps or fewer.
pub open spec fn passes<S: State>(seen: Map<u64, Rc<Transition<S>>>, g: u32) -> spec_fn(S) -> bool {
    |state: S| !spec_seen_and_better(seen, state, g)
}

/// `state` is among the candidates from position `from` on.
pub open spec fn pending<S>(candidates: Seq<S>, from: int, state: S) -> bool {
    exists|i: int| from <= i < candidates.len() && #[trigger] candidates[i] == state
}

/// What a search that clears no frontier keeps: the closed set holds the
/// successors of what was expanded, and nothing in it is lost from sight.
pub open spec fn thorough<S: State>(
    seen: Map<u64, Rc<Transition<S>>>,
    open: Seq<Rc<Transition<S>>>,
    done: Set<S>,
    current: Option<S>,
) -> bool {
    &&& closed_under_steps(seen, done)
    &&& accounted(seen, open, done, current)
}

/// A successor that was kept is a valid successor that the closed set did
/// not rule out.
pub proof fn lemma_kept<S: State>(
    next: Seq<S>,
    seen: Map<u64, Rc<Transition<S>>>,
    g: u32,
    state: S,
)
    requires
        forall|i: int| 0 <= i < next.len() ==> (#[trigger] next[i]).valid(),
        next.filter(passes(seen, g)).to_multiset().count(state) > 0,
    ensures
        next.contains(state),
        state.valid(),
        !spec_seen_and_better(seen, state, g),
{
    broadcast use vstd::seq_lib::group_to_multiset_ensures;

    let kept = next.filter(passes(seen, g));
    assert(kept.contains(state));
    let i = choose|i: int| 0 <= i < kept.len() && kept[i] == state;
    next.lemma_filter_pred(passes(seen, g), i);
    next.lemma_filter_contains_rev(passes(seen, g), state);
    let m = choose|m: int| 0 <= m < next.len() && next[m] == state;
    assert(next[m].valid());
}

/// What waited stays known when the record grows.
pub proof fn lemma_known_grows<S: State>(
    before: &Explored<S>,
    after: &Explored<S>,
    open: Seq<Rc<Transition<S>>>,
)
    requires
        known(before, open),
        after.history().len() == before.history().len() + 1,
        after.history().drop_last() == before.history(),
    ensures
        known(after, open),
        forall|t: Rc<Transition<S>>| before.member(t) ==> after.member(t),
{
    assert forall|t: Rc<Transition<S>>| before.member(t) implies after.member(t) by {
        assert(after.history().drop_last()[t.spec_index() as int] == after.history()[t.spec_index() as int]);
    }
}

/// Recording a transition and queueing it keeps a search thorough.
pub proof fn lemma_thorough_grows<S: State>(
    seen: Map<u64, Rc<Transition<S>>>,
    open: Seq<Rc<Transition<S>>>,
    done: Set<S>,
    current: Option<S>,
    transition: Rc<Transition<S>>,
)
    requires
        thorough(seen, open, done, current),
    ensures
        thorough(
            seen.insert(transition.spec_state().spec_key(), transition),
            open.push(transition),
            done,
            current,
        ),
{
    reveal(closed_under_steps);
    reveal(accounted);
    let key = transition.spec_state().spec_key();
    let seen2 = seen.insert(key, transition);
    let open2 = open.push(transition);
    assert forall|k: u64| #[trigger] seen2.contains_key(k) implies {
        ||| done.contains(seen2[k].spec_state())
        ||| current == Some(seen2[k].spec_state())
        ||| waits(open2, seen2[k].spec_state())
    } by {
        if k == key {
            assert(open2[open.len() as int].spec_state() == transition.spec_state());
        } else {
            assert(seen.contains_key(k));
            if waits(open, seen[k].spec_state()) {
                let j = choose|j: int|
                    0 <= j < open.len() && (#[trigger] open[j]).spec_state() == seen[k].spec_state();
                assert(open2[j] == open[j]);
            }
        }
    }
    assert forall|state: S, m: int|
        #![trigger done.contains(state), state.spec_successors()[m]]
        done.contains(state) && 0 <= m < state.spec_successors().len() implies seen2.contains_key(
        state.spec_successors()[m].spec_key(),
    ) by {
        assert(seen.contains_key(state.spec_successors()[m].spec_key()));
    }
}

/// Taking a transition from the frontier loses sight of nothing: its state
/// is the one being expanded.
pub proof fn lemma_thorough_pop<S: State>(
    seen: Map<u64, Rc<Transition<S>>>,
    open: Seq<Rc<Transition<S>>>,
    done: Set<S>,
    front: int,
)
    requires
        thorough(seen, open, done, None),
        0 <= front < open.len(),
    ensures
        thorough(seen, open.remove(front), done, Some(open[front].spec_state())),
{
    reveal(closed_under_steps);
    reveal(accounted);
    let rest = open.remove(front);
    assert forall|k: u64| #[trigger] seen.contains_key(k) implies {
        ||| done.contains(seen[k].spec_state())
        ||| Some(open[front].spec_state()) == Some(seen[k].spec_state())
        ||| waits(rest, seen[k].spec_state())
    } by {
        if waits(open, seen[k].spec_state()) {
            let j = choose|j: int|
                0 <= j < open.len() && (#[trigger] open[j]).spec_state() == seen[k].spec_state();
            if j < front {
                assert(rest[j] == open[j]);
            } else if j > front {
                assert(rest[j - 1] == open[j]);
            }
        }
    }
}

/// Once every successor of the state being expanded is in the closed set,
/// the state counts as expanded.
pub proof fn lemma_thorough_done<S: State>(
    seen: Map<u64, Rc<Transition<S>>>,
    open: Seq<Rc<Transition<S>>>,
    done: Set<S>,
    state: S,
)
    requires
        thorough(seen, open, done, Some(state)),
        forall|m: int|
            0 <= m < state.spec_successors().len() ==> seen.contains_key(
                (#[trigger] state.spec_successors()[m]).spec_key(),
            ),
    ensures
        thorough(seen, open, done.insert(state), None),
{
    reveal(closed_under_steps);
    reveal(accounted);
    let more = done.insert(state);
    assert forall|other: S, m: int|
        #![trigger more.contains(other), other.spec_successors()[m]]
        more.contains(other) && 0 <= m < other.spec_successors().len() implies seen.contains_key(
        other.spec_successors()[m].spec_key(),
    ) by {
        if other != state {
            assert(done.contains(other));
        }
    }
}

/// What a search keeps watch over beyond its record while it expands
/// `current`: a search that climbs no hills loses sight of nothing, and a
/// breadth-first search keeps its layers.
pub open spec fn watched<S: State>(
    ehc: bool,
    fifo: bool,
    seen: Map<u64, Rc<Transition<S>>>,
    open: Seq<Rc<Transition<S>>>,
    current: Rc<Transition<S>>,
    done: Set<S>,
    level: nat,
) -> bool {
    &&& !ehc ==> thorough(seen, open, done, Some(current.spec_state()))
    &&& !ehc && fifo ==> {
        &&& layered(seen, open, done, level)
        &&& expanding(seen, current.spec_state(), level)
        &&& current.spec_g() == level
    }
}

/// Recording a transition one step below the one being expanded, and
/// queueing it, keeps what a search keeps watch over.
pub proof fn lemma_watched_step<S: State>(
    ehc: bool,
    fifo: bool,
    seen: Map<u64, Rc<Transition<S>>>,
    open: Seq<Rc<Transition<S>>>,
    current: Rc<Transition<S>>,
    done: Set<S>,
    level: nat,
    made: Rc<Transition<S>>,
)
    requires
        watched(ehc, fifo, seen, open, current, done, level),
        made.spec_g() == current.spec_g() + 1,
        seen.contains_key(made.spec_state().spec_key())
            ==> seen[made.spec_state().spec_key()].spec_g() > current.spec_g(),
    ensures
        !ehc ==> watched(
            ehc,
            fifo,
            seen.insert(made.spec_state().spec_key(), made),
            open.push(made),
            current,
            done,
            level,
        ),
{
    if !ehc {
        lemma_thorough_grows(seen, open, done, Some(current.spec_state()), made);
        if fifo {
            lemma_layered_grows(seen, open, done, level, made);
        }
    }
}

/// A search that climbs hills keeps watch over nothing.
pub proof fn lemma_watched_climbing<S: State>(
    fifo: bool,
    seen: Map<u64, Rc<Transition<S>>>,
    open: Seq<Rc<Transition<S>>>,
    current: Rc<Transition<S>>,
    done: Set<S>,
    level: nat,
)
    ensures
        watched(true, fifo, seen, open, current, done, level),
{
}

/// What was known stays known when one transition is recorded and queued,
/// behind what waited or alone.
pub proof fn lemma_known_push<S: State>(
    before: &Explored<S>,
    after: &Explored<S>,
    open: Seq<Rc<Transition<S>>>,
    cleared: Seq<Rc<Transition<S>>>,
    made: Rc<Transition<S>>,
)
    requires
        known(before, open),
        after.history() == before.history().push(made),
        before.history().len() == made.spec_index(),
        cleared == open || cleared == Seq::<Rc<Transition<S>>>::empty(),
    ensures
        known(after, cleared.push(made)),
        after.member(made),
        forall|t: Rc<Transition<S>>| before.member(t) ==> after.member(t),
{
    assert(after.history().drop_last() =~= before.history());
    lemma_known_grows(before, after, open);
    let queued = cleared.push(made);
    assert forall|j: int| 0 <= j < queued.len() implies after.member(#[trigger] queued[j]) by {
        if j < cleared.len() {
            assert(queued[j] == cleared[j]);
            assert(cleared == open);
        }
    }
}

/// What holds of the candidates of an expansion from position `at` on: the
/// closed set knows none of them by as few steps as the transition being
/// expanded has, and every successor that the closed set does not hold is
/// among them.
#[verifier::opaque]
pub open spec fn remaining<S: State>(
    seen: Map<u64, Rc<Transition<S>>>,
    parent: Rc<Transition<S>>,
    candidates: Seq<S>,
    at: int,
    ehc: bool,
) -> bool {
    let next = parent.spec_state().spec_successors();
    let g = (parent.spec_g() + 1) as u32;
    &&& forall|i: int|
        0 <= i < candidates.len() ==> next.contains(#[trigger] candidates[i])
            && candidates[i].valid()
    &&& distinct_successors::<S>() ==> candidates.no_duplicates()
    &&& forall|i: int|
        at <= i < candidates.len() ==> (seen.contains_key((#[trigger] candidates[i]).spec_key())
            ==> seen[candidates[i].spec_key()].spec_g() > parent.spec_g())
    &&& !ehc ==> forall|m: int|
        0 <= m < next.len() ==> seen.contains_key((#[trigger] next[m]).spec_key()) || pending(
            candidates,
            at,
            next[m],
        )
    &&& distinct_successors::<S>() ==> forall|i: int|
        at <= i < candidates.len() ==> !spec_seen_and_better(seen, #[trigger] candidates[i], g)
}

/// What the candidates of an expansion are, whatever their order: valid
/// successors of the state of `parent` that the closed set does not rule
/// out, and every such successor is among them. Where the domain lists no
/// successor twice, no candidate occurs twice.
pub open spec fn fresh<S: State>(
    seen: Map<u64, Rc<Transition<S>>>,
    parent: Rc<Transition<S>>,
    candidates: Seq<S>,
) -> bool {
    let next = parent.spec_state().spec_successors();
    let g = (parent.spec_g() + 1) as u32;
    &&& forall|i: int|
        0 <= i < candidates.len() ==> {
            &&& next.contains(#[trigger] candidates[i])
            &&& candidates[i].valid()
            &&& !spec_seen_and_better(seen, candidates[i], g)
        }
    &&& forall|m: int|
        0 <= m < next.len() ==> spec_seen_and_better(seen, #[trigger] next[m], g) || pending(
            candidates,
            0,
            next[m],
        )
    &&& distinct_successors::<S>() ==> candidates.no_duplicates()
}

/// Fresh candidates are what remains before the first is tried.
pub proof fn lemma_remaining_start<S: State>(
    seen: Map<u64, Rc<Transition<S>>>,
    parent: Rc<Transition<S>>,
    candidates: Seq<S>,
    ehc: bool,
)
    requires
        fresh(seen, parent, candidates),
        parent.spec_g() < u32::MAX,
    ensures
        remaining(seen, parent, candidates, 0, ehc),
{
    reveal(remaining);
}

/// The candidate at `at` can be recorded.
pub proof fn lemma_remaining_head<S: State>(
    seen: Map<u64, Rc<Transition<S>>>,
    parent: Rc<Transition<S>>,
    candidates: Seq<S>,
    at: int,
    ehc: bool,
)
    requires
        remaining(seen, parent, candidates, at, ehc),
        0 <= at < candidates.len(),
    ensures
        candidates[at].valid(),
        parent.spec_state().spec_successors().contains(candidates[at]),
        seen.contains_key(candidates[at].spec_key()) ==> seen[candidates[at].spec_key()].spec_g()
            > parent.spec_g(),
        distinct_successors::<S>() ==> !spec_seen_and_better(
            seen,
            candidates[at],
            (parent.spec_g() + 1) as u32,
        ),
{
    reveal(remaining);
}

/// Recording the candidate at `at` leaves what remains behind it.
pub proof fn lemma_remaining_step<S: State>(
    seen: Map<u64, Rc<Transition<S>>>,
    parent: Rc<Transition<S>>,
    candidates: Seq<S>,
    at: int,
    ehc: bool,
    made: Rc<Transition<S>>,
)
    requires
        lawful::<S>(),
        remaining(seen, parent, candidates, at, ehc),
        0 <= at < candidates.len(),
        made.spec_state() == candidates[at],
        made.spec_g() == parent.spec_g() + 1,
    ensures
        remaining(seen.insert(candidates[at].spec_key(), made), parent, candidates, at + 1, ehc),
{
    reveal(remaining);
    let key = candidates[at].spec_key();
    let after = seen.insert(key, made);
    let next = parent.spec_state().spec_successors();
    assert forall|i: int|
        at + 1 <= i < candidates.len() && after.contains_key(
            (#[trigger] candidates[i]).spec_key(),
        ) implies after[candidates[i].spec_key()].spec_g() > parent.spec_g() by {
        if candidates[i].spec_key() != key {
            assert(seen.contains_key(candidates[i].spec_key()));
        }
    }
    if distinct_successors::<S>() {
        assert forall|i: int| at + 1 <= i < candidates.len() implies !spec_seen_and_better(
            after,
            #[trigger] candidates[i],
            (parent.spec_g() + 1) as u32,
        ) by {
            assert(!spec_seen_and_better(seen, candidates[i], (parent.spec_g() + 1) as u32));
            if candidates[i].spec_key() == key {
                lemma_same_key(candidates[i], candidates[at]);
            }
        }
    }
    if !ehc {
        assert forall|m: int| 0 <= m < next.len() implies after.contains_key(
            (#[trigger] next[m]).spec_key(),
        ) || pending(candidates, at + 1, next[m]) by {
            if !seen.contains_key(next[m].spec_key()) {
                let i = choose|i: int|
                    at <= i < candidates.len() && #[trigger] candidates[i] == next[m];
                if i > at {
                    assert(pending(candidates, at + 1, next[m]));
                }
            }
        }
    }
}

/// Once every candidate is recorded, the closed set holds every successor.
pub proof fn lemma_remaining_end<S: State>(
    seen: Map<u64, Rc<Transition<S>>>,
    parent: Rc<Transition<S>>,
    candidates: Seq<S>,
)
    requires
        remaining(seen, parent, candidates, candidates.len() as int, false),
    ensures
        forall|m: int|
            0 <= m < parent.spec_state().spec_successors().len() ==> seen.contains_key(
                (#[trigger] parent.spec_state().spec_successors()[m]).spec_key(),
            ),
{
    reveal(remaining);
    let next = parent.spec_state().spec_successors();
    assert forall|m: int| 0 <= m < next.len() implies seen.contains_key(
        (#[trigger] next[m]).spec_key(),
    ) by {
        assert(!pending(candidates, candidates.len() as int, next[m]));
    }
}

/// What an expansion has done once it has estimates for the first
/// candidates: `expansion` without its end.
#[verifier::opaque]
pub open spec fn partly<S: State, H: Fn(&S) -> i32>(
    heuristic: H,
    config: SearchConfig,
    parent: Rc<Transition<S>>,
    candidates: Seq<S>,
    estimates: Seq<i32>,
    restarted: bool,
    best_before: i32,
    history_before: Seq<Rc<Transition<S>>>,
    seen_before: Map<u64, Rc<Transition<S>>>,
    open_before: Seq<Rc<Transition<S>>>,
    best_after: i32,
    history_after: Seq<Rc<Transition<S>>>,
    seen_after: Map<u64, Rc<Transition<S>>>,
    open_after: Seq<Rc<Transition<S>>>,
) -> bool {
    let first = history_before.len() as int;
    let made = born(parent, candidates, estimates, first);
    &&& first <= u32::MAX ==> tried(heuristic, config, parent, seen_before, candidates)
    &&& estimated(heuristic, config.compute_heuristic, candidates, estimates)
    &&& restarted == (config.ehc && estimates.len() > 0 && estimates.last() < best_before)
    &&& config.ehc ==> forall|i: int|
        0 <= i < estimates.len() - 1 ==> #[trigger] estimates[i] >= best_before
    &&& history_after == history_before + made
    &&& seen_after == recorded(seen_before, made)
    &&& open_after == (if restarted {
        seq![made.last()]
    } else {
        open_before + made
    })
    &&& best_after == lowest(best_before, estimates)
}

/// Before the first candidate nothing is done.
pub proof fn lemma_partly_start<S: State, H: Fn(&S) -> i32>(
    heuristic: H,
    config: SearchConfig,
    parent: Rc<Transition<S>>,
    candidates: Seq<S>,
    best: i32,
    history: Seq<Rc<Transition<S>>>,
    seen: Map<u64, Rc<Transition<S>>>,
    open: Seq<Rc<Transition<S>>>,
)
    requires
        history.len() <= u32::MAX ==> tried(heuristic, config, parent, seen, candidates),
    ensures
        partly(
            heuristic,
            config,
            parent,
            candidates,
            Seq::<i32>::empty(),
            false,
            best,
            history,
            seen,
            open,
            best,
            history,
            seen,
            open,
        ),
{
    reveal(partly);
    let made = born(parent, candidates, Seq::<i32>::empty(), history.len() as int);
    assert(history + made =~= history);
    assert(open + made =~= open);
}

/// One more candidate: its transition is recorded, and queued behind what
/// waits or, where it improves on the best estimate of a search that climbs
/// hills, alone.
pub proof fn lemma_partly_step<S: State, H: Fn(&S) -> i32>(
    heuristic: H,
    config: SearchConfig,
    parent: Rc<Transition<S>>,
    candidates: Seq<S>,
    estimates: Seq<i32>,
    h: i32,
    best_before: i32,
    history_before: Seq<Rc<Transition<S>>>,
    seen_before: Map<u64, Rc<Transition<S>>>,
    open_before: Seq<Rc<Transition<S>>>,
    best: i32,
    history: Seq<Rc<Transition<S>>>,
    seen: Map<u64, Rc<Transition<S>>>,
    open: Seq<Rc<Transition<S>>>,
    made: Rc<Transition<S>>,
)
    requires
        partly(
            heuristic,
            config,
            parent,
            candidates,
            estimates,
            false,
            best_before,
            history_before,
            seen_before,
            open_before,
            best,
            history,
            seen,
            open,
        ),
        estimates.len() < candidates.len(),
        if config.compute_heuristic {
            call_ensures(heuristic, (&candidates[estimates.len() as int],), h)
        } else {
            h == 0
        },
        made == child(parent, candidates[estimates.len() as int], history.len() as int, h),
    ensures
        partly(
            heuristic,
            config,
            parent,
            candidates,
            estimates.push(h),
            config.ehc && h < best,
            best_before,
            history_before,
            seen_before,
            open_before,
            if h < best {
                h
            } else {
                best
            },
            history.push(made),
            seen.insert(candidates[estimates.len() as int].spec_key(), made),
            if config.ehc && h < best {
                seq![made]
            } else {
                open.push(made)
            },
        ),
{
    reveal(partly);
    let first = history_before.len() as int;
    let before = born(parent, candidates, estimates, first);
    let more = estimates.push(h);
    let after = born(parent, candidates, more, first);
    assert(after =~= before.push(made));
    assert(after.drop_last() =~= before);
    assert(more.drop_last() =~= estimates);
    assert(history_before + after =~= (history_before + before).push(made));
    assert(open_before + after =~= (open_before + before).push(made));
    lemma_lowest(best_before, estimates);
    if config.ehc {
        if estimates.len() > 0 {
            assert(estimates.last() >= best_before);
        }
        assert forall|i: int| 0 <= i < estimates.len() implies estimates[i] >= best_before by {
            if i < estimates.len() - 1 {
            } else {
                assert(estimates[i] == estimates.last());
            }
        }
        assert(best == best_before);
        assert forall|i: int| 0 <= i < more.len() - 1 implies #[trigger] more[i] >= best_before by {
            assert(more[i] == estimates[i]);
        }
    }
    assert forall|i: int| 0 <= i < more.len() implies if config.compute_heuristic {
        call_ensures(heuristic, (&candidates[i],), #[trigger] more[i])
    } else {
        more[i] == 0
    } by {
        if i < estimates.len() {
            assert(more[i] == estimates[i]);
        }
    }
}

/// An expansion that has done its part has done what `expansion` says.
pub proof fn lemma_partly_end<S: State, H: Fn(&S) -> i32>(
    heuristic: H,
    config: SearchConfig,
    parent: Rc<Transition<S>>,
    candidates: Seq<S>,
    estimates: Seq<i32>,
    restarted: bool,
    best_before: i32,
    history_before: Seq<Rc<Transition<S>>>,
    seen_before: Map<u64, Rc<Transition<S>>>,
    open_before: Seq<Rc<Transition<S>>>,
    best_after: i32,
    history_after: Seq<Rc<Transition<S>>>,
    seen_after: Map<u64, Rc<Transition<S>>>,
    open_after: Seq<Rc<Transition<S>>>,
    finished: bool,
)
    requires
        partly(
            heuristic,
            config,
            parent,
            candidates,
            estimates,
            restarted,
            best_before,
            history_before,
            seen_before,
            open_before,
            best_after,
            history_after,
            seen_after,
            open_after,
        ),
        history_before.len() + estimates.len() <= u32::MAX + 1,
        finished == (restarted || (estimates.len() == candidates.len() && history_before.len()
            <= u32::MAX)),
        !finished ==> history_before.len() + estimates.len() == u32::MAX + 1,
    ensures
        expansion(
            heuristic,
            config,
            parent,
            candidates,
            estimates,
            best_before,
            history_before,
            seen_before,
            open_before,
            best_after,
            history_after,
            seen_after,
            open_after,
            finished,
        ),
{
    reveal(partly);
}

} // verus!
