//! What a search does, told step by step.
//!
//! A search goes through moments. At each it takes a transition from the
//! frontier; it ends where the goal accepts the state of that transition,
//! and otherwise expands the transition, which leads to the next moment.
use crate::closed::spec_seen_and_better;
use crate::closed::Explored;
use crate::closed::MAX_TRANSITIONS;
use crate::progress::known;
use crate::transition::distinct_successors;
use crate::order::by_estimate;
use crate::progress::passes;
use crate::queue::Rank;
use crate::queue::leaves_first;
use crate::search::SearchConfig;
use crate::search::SearchResult;
use crate::transition::State;
use crate::transition::Transition;
use std::rc::Rc;
use vstd::prelude::*;

verus! {

/// The transition that an expansion creates for `state`, a successor of the
/// state of `parent`.
pub open spec fn child<S: State>(parent: Rc<Transition<S>>, state: S, index: int, h: i32) -> Rc<
    Transition<S>,
> {
    Rc::new(
        Transition::Intermediate {
            state: Rc::new(state),
            parent,
            g: (parent.spec_g() + 1) as u32,
            index: index as u32,
            h,
        },
    )
}

/// The transitions that an expansion creates: one for each candidate that it
/// has an estimate for, under the indices from `first` on.
pub open spec fn born<S: State>(
    parent: Rc<Transition<S>>,
    candidates: Seq<S>,
    estimates: Seq<i32>,
    first: int,
) -> Seq<Rc<Transition<S>>> {
    Seq::new(estimates.len(), |i: int| child(parent, candidates[i], first + i, estimates[i]))
}

/// The closed set after `made` were recorded, one after the other: each is
/// the entry of its state, whatever the entry was.
pub open spec fn recorded<S: State>(
    seen: Map<u64, Rc<Transition<S>>>,
    made: Seq<Rc<Transition<S>>>,
) -> Map<u64, Rc<Transition<S>>>
    decreases made.len(),
{
    if made.len() == 0 {
        seen
    } else {
        recorded(seen, made.drop_last()).insert(made.last().spec_state().spec_key(), made.last())
    }
}

/// The least of `best` and the estimates.
pub open spec fn lowest(best: i32, estimates: Seq<i32>) -> i32
    decreases estimates.len(),
{
    if estimates.len() == 0 {
        best
    } else {
        let rest = lowest(best, estimates.drop_last());
        if estimates.last() < rest {
            estimates.last()
        } else {
            rest
        }
    }
}

/// The estimates belong to the first candidates: each is one that
/// `heuristic` gives for its candidate, or 0 where the heuristic means
/// nothing.
pub open spec fn estimated<S: State, H: Fn(&S) -> i32>(
    heuristic: H,
    compute: bool,
    candidates: Seq<S>,
    estimates: Seq<i32>,
) -> bool {
    &&& estimates.len() <= candidates.len()
    &&& forall|i: int|
        0 <= i < estimates.len() ==> if compute {
            call_ensures(heuristic, (&candidates[i],), #[trigger] estimates[i])
        } else {
            estimates[i] == 0
        }
}

/// The candidates of an expansion: the successors of the state of `parent`
/// that the closed set does not rule out, in the order of the domain or, for
/// steepest ascent, by rising estimate.
pub open spec fn tried<S: State, H: Fn(&S) -> i32>(
    heuristic: H,
    config: SearchConfig,
    parent: Rc<Transition<S>>,
    seen: Map<u64, Rc<Transition<S>>>,
    candidates: Seq<S>,
) -> bool {
    let kept = parent.spec_state().spec_successors().filter(
        passes(seen, (parent.spec_g() + 1) as u32),
    );
    if config.compute_heuristic && config.best_first_successors {
        by_estimate(heuristic, kept, candidates)
    } else {
        candidates == kept
    }
}

/// What one expansion does.
///
/// It goes through the candidates in their order. For each it gets an
/// estimate, creates the transition under the next index, records it in the
/// closed set and queues it. With enforced hill climbing, a candidate whose
/// estimate is below the best one seen ends the expansion: the frontier is
/// dropped before that candidate is queued, so that it holds this candidate
/// alone. The best estimate seen falls to the least estimate met. The
/// expansion is unfinished where a candidate is left and no index is.
pub open spec fn expansion<S: State, H: Fn(&S) -> i32>(
    heuristic: H,
    config: SearchConfig,
    parent: Rc<Transition<S>>,
    candidates: Seq<S>,
    estimates: Seq<i32>,
    best_before: i32,
    history_before: Seq<Rc<Transition<S>>>,
    seen_before: Map<u64, Rc<Transition<S>>>,
    open_before: Seq<Rc<Transition<S>>>,
    best_after: i32,
    history_after: Seq<Rc<Transition<S>>>,
    seen_after: Map<u64, Rc<Transition<S>>>,
    open_after: Seq<Rc<Transition<S>>>,
    finished: bool,
) -> bool {
    let first = history_before.len() as int;
    let made = born(parent, candidates, estimates, first);
    let restart = config.ehc && estimates.len() > 0 && estimates.last() < best_before;
    &&& first <= u32::MAX ==> tried(heuristic, config, parent, seen_before, candidates)
    &&& estimated(heuristic, config.compute_heuristic, candidates, estimates)
    &&& config.ehc ==> forall|i: int|
        0 <= i < estimates.len() - 1 ==> #[trigger] estimates[i] >= best_before
    &&& history_after == history_before + made
    &&& seen_after == recorded(seen_before, made)
    &&& open_after == (if restart {
        seq![made.last()]
    } else {
        open_before + made
    })
    &&& best_after == lowest(best_before, estimates)
    &&& first + estimates.len() <= u32::MAX + 1
    &&& finished == (restart || (estimates.len() == candidates.len() && first <= u32::MAX))
    &&& !finished ==> first + estimates.len() == u32::MAX + 1
}

/// The best estimate seen is no higher than it was, and as it was where no
/// estimate is below it.
pub proof fn lemma_lowest(best: i32, estimates: Seq<i32>)
    ensures
        lowest(best, estimates) <= best,
        (forall|i: int| 0 <= i < estimates.len() ==> estimates[i] >= best) ==> lowest(
            best,
            estimates,
        ) == best,
    decreases estimates.len(),
{
    if estimates.len() > 0 {
        lemma_lowest(best, estimates.drop_last());
        if forall|i: int| 0 <= i < estimates.len() ==> estimates[i] >= best {
            assert forall|i: int| 0 <= i < estimates.drop_last().len() implies estimates.drop_last()[i]
                >= best by {
                assert(estimates[i] >= best);
            }
        }
    }
}

/// What a search holds when it is about to take a transition from the
/// frontier.
pub struct Moment<S: State> {
    /// The frontier, oldest transition first.
    pub open: Seq<Rc<Transition<S>>>,
    /// The position in `open` of the transition that is taken.
    pub pick: int,
    /// The closed set.
    pub seen: Map<u64, Rc<Transition<S>>>,
    /// Every transition created so far, in the order of creation.
    pub history: Seq<Rc<Transition<S>>>,
    /// The best estimate seen.
    pub best: i32,
}

/// The ranks of the waiting transitions under `rank`.
pub open spec fn ranks_of<S: State>(
    rank: spec_fn(Transition<S>) -> Rank,
    open: Seq<Rc<Transition<S>>>,
) -> Seq<Rank> {
    open.map_values(|transition: Rc<Transition<S>>| rank(*transition))
}

/// What a search keeps at every moment.
///
/// Every transition created sits in the record at its index, so that no two
/// share an index, and counts its steps from the root. The closed set holds
/// every state that a transition was created for, with a transition of
/// that state that has the fewest steps of all that were created for it.
/// What waits was created. Where the domain lists no successor of a state
/// twice, a state for which a transition was created got no transition of
/// as many steps or more later.
pub open spec fn sound<S: State>(moment: Moment<S>) -> bool {
    &&& forall|i: int|
        0 <= i < moment.history.len() ==> (#[trigger] moment.history[i]).wf()
            && moment.history[i].spec_index() == i
    &&& forall|i: int|
        0 <= i < moment.history.len() ==> spec_seen_and_better(
            moment.seen,
            (#[trigger] moment.history[i]).spec_state(),
            moment.history[i].spec_g(),
        )
    &&& forall|k: u64| #[trigger]
        moment.seen.contains_key(k) ==> {
            &&& moment.seen[k].spec_state().spec_key() == k
            &&& moment.seen[k].spec_index() < moment.history.len()
            &&& moment.history[moment.seen[k].spec_index() as int] == moment.seen[k]
        }
    &&& forall|j: int|
        0 <= j < moment.open.len() ==> (#[trigger] moment.open[j]).spec_index()
            < moment.history.len() && moment.history[moment.open[j].spec_index() as int]
            == moment.open[j]
    &&& distinct_successors::<S>() ==> forall|i: int, j: int|
        0 <= i < j < moment.history.len() && (#[trigger] moment.history[i]).spec_state() == (
        #[trigger] moment.history[j]).spec_state() ==> moment.history[j].spec_g()
            < moment.history[i].spec_g()
}

/// No two transitions of a search share an index.
pub proof fn lemma_distinct_indices<S: State>(moment: Moment<S>, i: int, j: int)
    requires
        sound(moment),
        0 <= i < moment.history.len(),
        0 <= j < moment.history.len(),
        i != j,
    ensures
        moment.history[i].spec_index() != moment.history[j].spec_index(),
{
}

/// Where the domain lists no successor of a state twice, a state that the
/// closed set took with `k` steps is not queued again with `k` steps or
/// more: of two transitions to one state the later has the fewer steps.
pub proof fn lemma_no_worse_reentry<S: State>(moment: Moment<S>, i: int, j: int)
    requires
        sound(moment),
        distinct_successors::<S>(),
        0 <= i < j < moment.history.len(),
        moment.history[i].spec_state() == moment.history[j].spec_state(),
    ensures
        moment.history[j].spec_g() < moment.history[i].spec_g(),
{
}

/// What the record of a search holds is sound.
pub proof fn lemma_sound<S: State>(explored: &Explored<S>, open: Seq<Rc<Transition<S>>>, pick: int, best: i32)
    requires
        explored.wf(),
        known(explored, open),
        distinct_successors::<S>() ==> explored.no_worse_reentry(),
    ensures
        sound(Moment { open, pick, seen: explored.seen(), history: explored.history(), best }),
{
    let moment = Moment { open, pick, seen: explored.seen(), history: explored.history(), best };
    assert forall|j: int| 0 <= j < moment.open.len() implies (#[trigger] moment.open[j]).spec_index()
        < moment.history.len() && moment.history[moment.open[j].spec_index() as int]
        == moment.open[j] by {
        assert(explored.member(open[j]));
    }
}

/// The rule of a priority frontier: the transition of least rank leaves,
/// and of those of least rank the oldest.
pub open spec fn least_rank_first<S: State>(rank: spec_fn(Transition<S>) -> Rank) -> spec_fn(
    Seq<Rc<Transition<S>>>,
    int,
) -> bool {
    |open: Seq<Rc<Transition<S>>>, pick: int| leaves_first(ranks_of(rank, open), pick)
}

/// The first moment of a search from `initial`: the root is created, with
/// an estimate that `heuristic` gives for `initial`, or 0 where the
/// heuristic means nothing; it is the only transition, it is the closed
/// set's entry for `initial`, and it waits alone.
pub open spec fn begins<S: State, H: Fn(&S) -> i32>(
    heuristic: H,
    config: SearchConfig,
    initial: S,
    moment: Moment<S>,
) -> bool {
    let root = Rc::new(Transition::Initial { state: Rc::new(initial), h: moment.best });
    &&& if config.compute_heuristic {
        call_ensures(heuristic, (&initial,), moment.best)
    } else {
        moment.best == 0
    }
    &&& moment.open == seq![root]
    &&& moment.history == seq![root]
    &&& moment.seen == Map::<u64, Rc<Transition<S>>>::empty().insert(initial.spec_key(), root)
}

/// The frontier hands out the transition at `moment.pick`.
pub open spec fn takes<S: State>(
    leaves: spec_fn(Seq<Rc<Transition<S>>>, int) -> bool,
    moment: Moment<S>,
) -> bool {
    &&& 0 <= moment.pick < moment.open.len()
    &&& leaves(moment.open, moment.pick)
}

/// The transition that is taken at `moment`.
pub open spec fn taken<S: State>(moment: Moment<S>) -> Rc<Transition<S>> {
    moment.open[moment.pick]
}

/// From `before` the search gets to `after`: the goal refuses the state of
/// the transition taken at `before`, and the expansion of that transition,
/// which finishes, leaves what `after` holds.
pub open spec fn leads<S: State, H: Fn(&S) -> i32, G: Fn(&S) -> bool>(
    heuristic: H,
    goal: G,
    config: SearchConfig,
    leaves: spec_fn(Seq<Rc<Transition<S>>>, int) -> bool,
    before: Moment<S>,
    after: Moment<S>,
) -> bool {
    &&& takes(leaves, before)
    &&& call_ensures(goal, (&taken(before).spec_state(),), false)
    &&& exists|candidates: Seq<S>, estimates: Seq<i32>| #[trigger]
        expansion(
            heuristic,
            config,
            taken(before),
            candidates,
            estimates,
            before.best,
            before.history,
            before.seen,
            before.open.remove(before.pick),
            after.best,
            after.history,
            after.seen,
            after.open,
            true,
        )
}

/// The moment at `i` leads to the next one.
pub open spec fn linked<S: State, H: Fn(&S) -> i32, G: Fn(&S) -> bool>(
    heuristic: H,
    goal: G,
    config: SearchConfig,
    leaves: spec_fn(Seq<Rc<Transition<S>>>, int) -> bool,
    moments: Seq<Moment<S>>,
    i: int,
) -> bool {
    leads(heuristic, goal, config, leaves, moments[i], moments[i + 1])
}

/// The search ends at `last`, after `before` moments, with `result`.
///
/// Where the frontier is empty there is no plan. Where the goal accepts the
/// state of the transition taken, the plan is the path to it. Where the
/// expansion of that transition stops for want of an index, there is no
/// plan. The counters say how many transitions were created and how many
/// expanded.
pub open spec fn ends<S: State, H: Fn(&S) -> i32, G: Fn(&S) -> bool>(
    heuristic: H,
    goal: G,
    config: SearchConfig,
    leaves: spec_fn(Seq<Rc<Transition<S>>>, int) -> bool,
    last: Moment<S>,
    before: nat,
    result: SearchResult<S>,
) -> bool {
    &&& result.statistics.spec_queued() == result.statistics.spec_created()
    &&& if last.open.len() == 0 {
        &&& result.plan.is_none()
        &&& result.statistics.spec_created() == last.history.len()
        &&& result.statistics.spec_expanded() == before
    } else {
        &&& takes(leaves, last)
        &&& if result.plan.is_some() {
            &&& call_ensures(goal, (&taken(last).spec_state(),), true)
            &&& result.plan->Some_0@ == taken(last).path()
            &&& result.statistics.spec_created() == last.history.len()
            &&& result.statistics.spec_expanded() == before
        } else {
            &&& call_ensures(goal, (&taken(last).spec_state(),), false)
            &&& result.statistics.spec_created() == MAX_TRANSITIONS
            &&& result.statistics.spec_expanded() == before + 1
            &&& exists|
                candidates: Seq<S>,
                estimates: Seq<i32>,
                best: i32,
                history: Seq<Rc<Transition<S>>>,
                seen: Map<u64, Rc<Transition<S>>>,
                open: Seq<Rc<Transition<S>>>,
            | #[trigger]
                expansion(
                    heuristic,
                    config,
                    taken(last),
                    candidates,
                    estimates,
                    last.best,
                    last.history,
                    last.seen,
                    last.open.remove(last.pick),
                    best,
                    history,
                    seen,
                    open,
                    false,
                )
        }
    }
}

/// `moments` are the moments of a search from `initial` that returns
/// `result`: the first is the beginning, each leads to the next, and the
/// search ends at the last.
pub open spec fn run<S: State, H: Fn(&S) -> i32, G: Fn(&S) -> bool>(
    heuristic: H,
    goal: G,
    config: SearchConfig,
    leaves: spec_fn(Seq<Rc<Transition<S>>>, int) -> bool,
    initial: S,
    moments: Seq<Moment<S>>,
    result: SearchResult<S>,
) -> bool {
    &&& moments.len() > 0
    &&& begins(heuristic, config, initial, moments[0])
    &&& forall|i: int|
        0 <= i < moments.len() - 1 ==> #[trigger] linked(heuristic, goal, config, leaves, moments, i)
    &&& forall|i: int| 0 <= i < moments.len() ==> sound(#[trigger] moments[i])
    &&& ends(heuristic, goal, config, leaves, moments.last(), (moments.len() - 1) as nat, result)
}

/// `moments` are moments of a search from `initial`, one after the other:
/// the first is the beginning, and each leads to the next.
pub open spec fn reached<S: State, H: Fn(&S) -> i32, G: Fn(&S) -> bool>(
    heuristic: H,
    goal: G,
    config: SearchConfig,
    leaves: spec_fn(Seq<Rc<Transition<S>>>, int) -> bool,
    initial: S,
    moments: Seq<Moment<S>>,
) -> bool {
    &&& moments.len() > 0
    &&& begins(heuristic, config, initial, moments[0])
    &&& forall|i: int|
        0 <= i < moments.len() - 1 ==> #[trigger] linked(heuristic, goal, config, leaves, moments, i)
    &&& forall|i: int| 0 <= i < moments.len() ==> sound(#[trigger] moments[i])
}

/// A search from `initial` that has gone through `moments` holds what `now`
/// holds, whatever it takes from the frontier next.
#[verifier::opaque]
pub open spec fn underway<S: State, H: Fn(&S) -> i32, G: Fn(&S) -> bool>(
    heuristic: H,
    goal: G,
    config: SearchConfig,
    leaves: spec_fn(Seq<Rc<Transition<S>>>, int) -> bool,
    initial: S,
    moments: Seq<Moment<S>>,
    now: Moment<S>,
) -> bool {
    if moments.len() == 0 {
        begins(heuristic, config, initial, now)
    } else {
        &&& reached(heuristic, goal, config, leaves, initial, moments)
        &&& leads(heuristic, goal, config, leaves, moments.last(), now)
    }
}

/// A search is under way once the root waits alone.
pub proof fn lemma_underway_start<S: State, H: Fn(&S) -> i32, G: Fn(&S) -> bool>(
    heuristic: H,
    goal: G,
    config: SearchConfig,
    leaves: spec_fn(Seq<Rc<Transition<S>>>, int) -> bool,
    initial: S,
    now: Moment<S>,
)
    requires
        begins(heuristic, config, initial, now),
    ensures
        underway(heuristic, goal, config, leaves, initial, Seq::<Moment<S>>::empty(), now),
{
    reveal(underway);
}

/// Whatever a search takes from the frontier next, what it holds is one
/// more moment.
pub proof fn lemma_underway_takes<S: State, H: Fn(&S) -> i32, G: Fn(&S) -> bool>(
    heuristic: H,
    goal: G,
    config: SearchConfig,
    leaves: spec_fn(Seq<Rc<Transition<S>>>, int) -> bool,
    initial: S,
    moments: Seq<Moment<S>>,
    now: Moment<S>,
    pick: int,
)
    requires
        underway(heuristic, goal, config, leaves, initial, moments, now),
        sound(Moment { pick, ..now }),
    ensures
        reached(
            heuristic,
            goal,
            config,
            leaves,
            initial,
            moments.push(Moment { pick, ..now }),
        ),
{
    reveal(underway);
    let moment = Moment { pick, ..now };
    let more = moments.push(moment);
    assert forall|i: int| 0 <= i < more.len() implies sound(#[trigger] more[i]) by {
        if i < moments.len() {
            assert(more[i] == moments[i]);
            assert(sound(moments[i]));
        }
    }
    assert forall|i: int| 0 <= i < more.len() - 1 implies #[trigger] linked(
        heuristic,
        goal,
        config,
        leaves,
        more,
        i,
    ) by {
        if i < moments.len() - 1 {
            assert(linked(heuristic, goal, config, leaves, moments, i));
            assert(more[i] == moments[i] && more[i + 1] == moments[i + 1]);
        } else {
            let last = moments.last();
            assert(more[i] == last);
            assert(more[i + 1] == moment);
            let (candidates, estimates) = choose|candidates: Seq<S>, estimates: Seq<i32>| #[trigger]
                expansion(
                    heuristic,
                    config,
                    taken(last),
                    candidates,
                    estimates,
                    last.best,
                    last.history,
                    last.seen,
                    last.open.remove(last.pick),
                    now.best,
                    now.history,
                    now.seen,
                    now.open,
                    true,
                );
            assert(moment.best == now.best && moment.history == now.history && moment.seen
                == now.seen && moment.open == now.open);
            assert(expansion(
                heuristic,
                config,
                taken(last),
                candidates,
                estimates,
                last.best,
                last.history,
                last.seen,
                last.open.remove(last.pick),
                moment.best,
                moment.history,
                moment.seen,
                moment.open,
                true,
            ));
            assert(leads(heuristic, goal, config, leaves, last, moment));
        }
    }
}

/// After a finished expansion of the transition taken at the last moment
/// that the goal refused, the search is under way with what the expansion
/// left.
pub proof fn lemma_underway_leads<S: State, H: Fn(&S) -> i32, G: Fn(&S) -> bool>(
    heuristic: H,
    goal: G,
    config: SearchConfig,
    leaves: spec_fn(Seq<Rc<Transition<S>>>, int) -> bool,
    initial: S,
    moments: Seq<Moment<S>>,
    candidates: Seq<S>,
    estimates: Seq<i32>,
    now: Moment<S>,
)
    requires
        reached(heuristic, goal, config, leaves, initial, moments),
        takes(leaves, moments.last()),
        call_ensures(goal, (&taken(moments.last()).spec_state(),), false),
        expansion(
            heuristic,
            config,
            taken(moments.last()),
            candidates,
            estimates,
            moments.last().best,
            moments.last().history,
            moments.last().seen,
            moments.last().open.remove(moments.last().pick),
            now.best,
            now.history,
            now.seen,
            now.open,
            true,
        ),
    ensures
        underway(heuristic, goal, config, leaves, initial, moments, now),
{
    reveal(underway);
}

/// The moments that a search has reached, the last of which is its end,
/// are a run.
pub proof fn lemma_run<S: State, H: Fn(&S) -> i32, G: Fn(&S) -> bool>(
    heuristic: H,
    goal: G,
    config: SearchConfig,
    leaves: spec_fn(Seq<Rc<Transition<S>>>, int) -> bool,
    initial: S,
    moments: Seq<Moment<S>>,
    result: SearchResult<S>,
)
    requires
        reached(heuristic, goal, config, leaves, initial, moments),
        ends(heuristic, goal, config, leaves, moments.last(), (moments.len() - 1) as nat, result),
    ensures
        run(heuristic, goal, config, leaves, initial, moments, result),
{
}

/// The counters of a search never fall: a later moment has seen as many
/// expansions as an earlier one and more, and holds every transition that
/// the earlier one held, at its place.
pub proof fn lemma_record_grows<S: State, H: Fn(&S) -> i32, G: Fn(&S) -> bool>(
    heuristic: H,
    goal: G,
    config: SearchConfig,
    leaves: spec_fn(Seq<Rc<Transition<S>>>, int) -> bool,
    initial: S,
    moments: Seq<Moment<S>>,
    result: SearchResult<S>,
    earlier: int,
    later: int,
)
    requires
        run(heuristic, goal, config, leaves, initial, moments, result),
        0 <= earlier <= later < moments.len(),
    ensures
        moments[earlier].history.len() <= moments[later].history.len(),
        moments[later].history.take(moments[earlier].history.len() as int)
            == moments[earlier].history,
    decreases later - earlier,
{
    if earlier < later {
        lemma_record_grows(
            heuristic,
            goal,
            config,
            leaves,
            initial,
            moments,
            result,
            earlier,
            later - 1,
        );
        assert(linked(heuristic, goal, config, leaves, moments, later - 1));
        let before = moments[later - 1];
        let after = moments[later];
        let (candidates, estimates) = choose|candidates: Seq<S>, estimates: Seq<i32>| #[trigger]
            expansion(
                heuristic,
                config,
                taken(before),
                candidates,
                estimates,
                before.best,
                before.history,
                before.seen,
                before.open.remove(before.pick),
                after.best,
                after.history,
                after.seen,
                after.open,
                true,
            );
        assert(after.history.take(moments[earlier].history.len() as int)
            =~= before.history.take(moments[earlier].history.len() as int));
    } else {
        assert(moments[later].history.take(moments[earlier].history.len() as int)
            =~= moments[earlier].history);
    }
}

/// A run under one rule for the frontier is a run under any rule that
/// allows as much.
pub proof fn lemma_run_weaker<S: State, H: Fn(&S) -> i32, G: Fn(&S) -> bool>(
    heuristic: H,
    goal: G,
    config: SearchConfig,
    leaves: spec_fn(Seq<Rc<Transition<S>>>, int) -> bool,
    weaker: spec_fn(Seq<Rc<Transition<S>>>, int) -> bool,
    initial: S,
    moments: Seq<Moment<S>>,
    result: SearchResult<S>,
)
    requires
        run(heuristic, goal, config, leaves, initial, moments, result),
        forall|open: Seq<Rc<Transition<S>>>, pick: int|
            0 <= pick < open.len() && #[trigger] leaves(open, pick) ==> weaker(open, pick),
    ensures
        run(heuristic, goal, config, weaker, initial, moments, result),
{
    assert forall|i: int| 0 <= i < moments.len() - 1 implies #[trigger] linked(
        heuristic,
        goal,
        config,
        weaker,
        moments,
        i,
    ) by {
        assert(linked(heuristic, goal, config, leaves, moments, i));
    }
}

} // verus!
