//! The search engine: one driver, and the strategies that configure it.
use crate::clock::clock_elapsed;
use crate::clock::clock_start;
use crate::clock::no_time;
use crate::closed::Explored;
use crate::closed::MAX_TRANSITIONS;
use crate::closed::seen_and_better;
use crate::closed::spec_seen_and_better;
use crate::order::sort_by_estimate;
use crate::progress::accounted;
use crate::progress::closed_under_steps;
use crate::progress::first_in_first_out;
use crate::progress::fresh;
use crate::progress::known;
use crate::progress::layered;
use crate::progress::lemma_exhausted;
use crate::progress::lemma_filter_distinct;
use crate::progress::lemma_kept;
use crate::progress::lemma_known_push;
use crate::progress::lemma_layer_done;
use crate::progress::lemma_layered_done;
use crate::progress::lemma_layered_pop;
use crate::progress::lemma_partly_end;
use crate::progress::lemma_partly_start;
use crate::progress::lemma_partly_step;
use crate::progress::lemma_permuted_distinct;
use crate::progress::lemma_remaining_end;
use crate::progress::lemma_remaining_head;
use crate::progress::lemma_remaining_start;
use crate::progress::lemma_remaining_step;
use crate::progress::lemma_thorough_done;
use crate::progress::lemma_thorough_pop;
use crate::progress::lemma_watched_climbing;
use crate::progress::lemma_watched_step;
use crate::progress::partly;
use crate::progress::passes;
use crate::progress::pending;
use crate::progress::refuted;
use crate::progress::remaining;
use crate::progress::thorough;
use crate::progress::watched;
use crate::queue::Fifo;
use crate::queue::PriorityCmp;
use crate::queue::Queue;
use crate::queue::Rank;
use crate::queue::RcFnComparator;
use crate::queue::by_ranking;
use crate::queue::leaves_first;
use crate::queue::oldest_first;
use crate::queue::ranked;
use crate::run::Moment;
use crate::run::begins;
use crate::run::expansion;
use crate::run::least_rank_first;
use crate::run::lemma_run;
use crate::run::lemma_sound;
use crate::run::lemma_run_weaker;
use crate::run::lemma_underway_leads;
use crate::run::lemma_underway_start;
use crate::run::lemma_underway_takes;
use crate::run::ranks_of;
use crate::run::run;
use crate::run::taken;
use crate::run::takes;
use crate::run::tried;
use crate::run::underway;
pub use crate::transition::State;
pub use crate::transition::Transition;
use crate::transition::a_star_eval;
use crate::transition::distinct_successors;
use crate::transition::is_path_from;
use crate::transition::lawful;
use crate::transition::reachable;
use crate::transition::spec_a_star_eval;
use std::collections::HashMap;
use std::collections::VecDeque;
use std::rc::Rc;
use std::time::Duration;
use vstd::prelude::*;

verus! {

/// What tells the strategies apart, besides the frontier.
#[derive(Debug)]
pub struct SearchConfig {
    /// Whether the heuristic means anything; without it every estimate is 0.
    pub compute_heuristic: bool,
    /// Enforced hill climbing: restart from a successor that improves on the
    /// best estimate seen.
    pub ehc: bool,
    /// Steepest ascent: try the successors by rising estimate.
    pub best_first_successors: bool,
}

impl SearchConfig {
    /// The configuration of the best-first strategies.
    pub open spec fn spec_default() -> SearchConfig {
        SearchConfig { compute_heuristic: true, ehc: false, best_first_successors: false }
    }

    /// The configuration of breadth-first search.
    pub open spec fn spec_blind() -> SearchConfig {
        SearchConfig { compute_heuristic: false, ehc: false, best_first_successors: false }
    }

    /// The configuration of enforced hill climbing.
    pub open spec fn spec_ehc() -> SearchConfig {
        SearchConfig { compute_heuristic: true, ehc: true, best_first_successors: false }
    }

    /// The configuration of steepest-ascent hill climbing.
    pub open spec fn spec_ehc_steepest_ascent() -> SearchConfig {
        SearchConfig { compute_heuristic: true, ehc: true, best_first_successors: true }
    }

    #[verifier::when_used_as_spec(spec_default)]
    pub fn default() -> (config: SearchConfig)
        ensures
            config == Self::spec_default(),
            config.compute_heuristic,
            !config.ehc,
            !config.best_first_successors,
    {
        SearchConfig { compute_heuristic: true, ehc: false, best_first_successors: false }
    }

    #[verifier::when_used_as_spec(spec_blind)]
    pub fn blind() -> (config: SearchConfig)
        ensures
            config == Self::spec_blind(),
            !config.compute_heuristic,
            !config.ehc,
            !config.best_first_successors,
    {
        SearchConfig { compute_heuristic: false, ehc: false, best_first_successors: false }
    }

    #[verifier::when_used_as_spec(spec_ehc)]
    pub fn ehc() -> (config: SearchConfig)
        ensures
            config == Self::spec_ehc(),
            config.compute_heuristic,
            config.ehc,
            !config.best_first_successors,
    {
        SearchConfig { compute_heuristic: true, ehc: true, best_first_successors: false }
    }

    #[verifier::when_used_as_spec(spec_ehc_steepest_ascent)]
    pub fn ehc_steepest_ascent() -> (config: SearchConfig)
        ensures
            config == Self::spec_ehc_steepest_ascent(),
            config.compute_heuristic,
            config.ehc,
            config.best_first_successors,
    {
        SearchConfig { compute_heuristic: true, ehc: true, best_first_successors: true }
    }
}

/// What a search observed of itself.
#[derive(Debug)]
pub struct Statistics {
    created: u64,
    queued: u64,
    expanded: u64,
    duration: Duration,
}

impl Statistics {
    pub closed spec fn spec_created(&self) -> u64 {
        self.created
    }

    pub closed spec fn spec_queued(&self) -> u64 {
        self.queued
    }

    pub closed spec fn spec_expanded(&self) -> u64 {
        self.expanded
    }

    /// The time that was measured when the search ended.
    pub closed spec fn spec_duration(&self) -> Duration {
        self.duration
    }

    /// No more was queued than created, and no more expanded than queued.
    pub open spec fn wf(&self) -> bool {
        &&& self.spec_queued() <= self.spec_created()
        &&& self.spec_expanded() <= self.spec_queued()
    }

    /// No counter of `self` is below that of `earlier`.
    pub open spec fn extends(&self, earlier: &Statistics) -> bool {
        &&& earlier.spec_created() <= self.spec_created()
        &&& earlier.spec_queued() <= self.spec_queued()
        &&& earlier.spec_expanded() <= self.spec_expanded()
    }

    /// The transitions constructed, the root among them.
    #[verifier::when_used_as_spec(spec_created)]
    pub fn created(&self) -> (created: u64)
        ensures
            created == self.spec_created(),
    {
        self.created
    }

    /// The transitions put into the frontier, the root among them.
    #[verifier::when_used_as_spec(spec_queued)]
    pub fn queued(&self) -> (queued: u64)
        ensures
            queued == self.spec_queued(),
    {
        self.queued
    }

    /// The transitions taken from the frontier that did not reach the goal.
    #[verifier::when_used_as_spec(spec_expanded)]
    pub fn expanded(&self) -> (expanded: u64)
        ensures
            expanded == self.spec_expanded(),
    {
        self.expanded
    }

    /// The time that the search took.
    #[verifier::when_used_as_spec(spec_duration)]
    pub fn duration(&self) -> (duration: Duration)
        ensures
            duration == self.spec_duration(),
    {
        self.duration
    }

    /// The counters of a search that has created and queued the root.
    fn begin() -> (statistics: Statistics)
        ensures
            statistics.spec_created() == 1,
            statistics.spec_queued() == 1,
            statistics.spec_expanded() == 0,
    {
        Statistics { created: 1, queued: 1, expanded: 0, duration: no_time() }
    }

    /// One more transition was created and queued.
    fn count_queued(&mut self)
        requires
            old(self).spec_created() < u64::MAX,
            old(self).spec_queued() < u64::MAX,
        ensures
            final(self).spec_created() == old(self).spec_created() + 1,
            final(self).spec_queued() == old(self).spec_queued() + 1,
            final(self).spec_expanded() == old(self).spec_expanded(),
    {
        self.created = self.created + 1;
        self.queued = self.queued + 1;
    }

    /// One more transition was expanded.
    fn count_expanded(&mut self)
        requires
            old(self).spec_expanded() < u64::MAX,
        ensures
            final(self).spec_created() == old(self).spec_created(),
            final(self).spec_queued() == old(self).spec_queued(),
            final(self).spec_expanded() == old(self).spec_expanded() + 1,
    {
        self.expanded = self.expanded + 1;
    }

    /// The search is over: the counters stay, and the time that it took is
    /// `duration`.
    fn finish(&mut self, duration: Duration)
        ensures
            final(self).spec_created() == old(self).spec_created(),
            final(self).spec_queued() == old(self).spec_queued(),
            final(self).spec_expanded() == old(self).spec_expanded(),
            final(self).spec_duration() == duration,
    {
        self.duration = duration;
    }
}

/// What a search returns: the plan, if it found one, and what it observed.
#[derive(Debug)]
pub struct SearchResult<S: State> {
    pub plan: Option<VecDeque<S>>,
    pub statistics: Statistics,
}

/// `plan` leads from `initial`, step by step, to a state that `goal` accepts.
pub open spec fn is_plan<S: State, G: Fn(&S) -> bool>(initial: S, goal: G, plan: Seq<S>) -> bool {
    &&& is_path_from(initial, plan)
    &&& call_ensures(goal, (&plan.last(),), true)
}

/// `goal` was asked about every state that can be reached from `initial`, and
/// accepted none.
pub open spec fn no_goal_in_reach<S: State, G: Fn(&S) -> bool>(initial: S, goal: G) -> bool {
    forall|state: S| #[trigger] reachable(initial, state) ==> call_ensures(goal, (&state,), false)
}

/// `goal` was asked about the last state of every path from `initial` that
/// is shorter than `length`, and accepted none.
pub open spec fn no_shorter_plan<S: State, G: Fn(&S) -> bool>(
    initial: S,
    goal: G,
    length: nat,
) -> bool {
    forall|path: Seq<S>| #[trigger]
        is_path_from(initial, path) && path.len() < length ==> call_ensures(
            goal,
            (&path.last(),),
            false,
        )
}

/// What every strategy promises of its result.
///
/// A plan, where one is returned, is a plan. Where `goal` accepts the initial
/// state whenever it is asked, the plan is that state alone and nothing was
/// expanded. A search that does not climb hills and returns no plan has
/// either asked `goal` about every state in reach, or has used up the
/// indices that transitions can have.
pub open spec fn outcome<S: State, G: Fn(&S) -> bool>(
    initial: S,
    goal: G,
    ehc: bool,
    result: SearchResult<S>,
) -> bool {
    &&& result.statistics.wf()
    &&& 1 <= result.statistics.spec_created() <= MAX_TRANSITIONS
    &&& result.statistics.spec_queued() == result.statistics.spec_created()
    &&& match result.plan {
        Some(plan) => is_plan(initial, goal, plan@),
        None => result.statistics.spec_created() < MAX_TRANSITIONS && !ehc ==> no_goal_in_reach(
            initial,
            goal,
        ),
    }
    &&& (forall|accepted: bool| call_ensures(goal, (&initial,), accepted) ==> accepted) ==> {
        &&& result.plan matches Some(plan)
        &&& plan@ == seq![initial]
        &&& result.statistics.spec_expanded() == 0
        &&& result.statistics.spec_created() == 1
    }
}

/// Where `goal` accepts no state in reach, no search returns a plan.
pub proof fn lemma_no_plan_without_goal<S: State, G: Fn(&S) -> bool>(
    initial: S,
    goal: G,
    ehc: bool,
    result: SearchResult<S>,
)
    requires
        outcome(initial, goal, ehc, result),
        forall|state: S| reachable(initial, state) ==> !call_ensures(goal, (&state,), true),
    ensures
        result.plan.is_none(),
{
    if let Some(plan) = result.plan {
        assert(is_path_from(initial, plan@) && plan@.last() == plan@.last());
        assert(reachable(initial, plan@.last()));
    }
}

/// A plan starts at the initial state, ends in a state that `goal` accepts,
/// and each of its states but the last has the next one among its
/// successors.
pub proof fn lemma_plan<S: State, G: Fn(&S) -> bool>(initial: S, goal: G, plan: Seq<S>, i: int)
    requires
        is_plan(initial, goal, plan),
        0 <= i < plan.len() - 1,
    ensures
        plan.first() == initial,
        call_ensures(goal, (&plan.last(),), true),
        plan[i].spec_successors().contains(plan[i + 1]),
{
}

/// The heuristic of a search that has none: every estimate is 0.
#[inline(always)]
pub fn blind_heuristic<S: State>(_state: &S) -> (h: i32)
    ensures
        h == 0,
{
    0
}

/// The states from the root of the tree to `goal_transition`, in that order.
pub fn extract_plan<S: State>(goal_transition: &Transition<S>) -> (plan: VecDeque<S>)
    ensures
        plan@ == goal_transition.path(),
{
    let mut plan = VecDeque::new();
    plan.push_front(*goal_transition.state());
    let mut current = goal_transition;
    assert(current.path().drop_last() + plan@ =~= goal_transition.path());
    loop
        invariant
            current.path().drop_last() + plan@ == goal_transition.path(),
            plan@.len() > 0,
            plan@[0] == current.spec_state(),
        ensures
            plan@ == goal_transition.path(),
        decreases current.path().len(),
    {
        match current.parent() {
            Some(previous) => {
                plan.push_front(*previous.state());
                proof {
                    assert(current.path().drop_last() =~= previous.path());
                    assert(previous.path().len() > 0) by {
                        lemma_path_len(previous);
                    }
                    assert(previous.path().last() == previous.spec_state()) by {
                        lemma_path_len(previous);
                    }
                    assert(previous.path().drop_last() + plan@ =~= goal_transition.path());
                }
                current = previous;
            },
            None => {
                assert(current.path().drop_last() =~= Seq::<S>::empty());
                assert(plan@ =~= goal_transition.path());
                break ;
            },
        }
    }
    plan
}

/// A path has its transition's state at the end.
proof fn lemma_path_len<S: State>(transition: &Transition<S>)
    ensures
        transition.path().len() > 0,
        transition.path().last() == transition.spec_state(),
{
    match transition {
        Transition::Initial { .. } => {},
        Transition::Intermediate { .. } => {},
    }
}

/// The successors that the closed set does not rule out, in their order.
pub fn survivors<S: State>(
    successors: Vec<S>,
    seen: &HashMap<u64, Rc<Transition<S>>>,
    g: u32,
) -> (kept: Vec<S>)
    requires
        forall|i: int| 0 <= i < successors@.len() ==> (#[trigger] successors@[i]).valid(),
    ensures
        kept@ == successors@.filter(passes(seen@, g)),
{
    let mut kept: Vec<S> = Vec::new();
    let mut next: usize = 0;
    proof {
        reveal(Seq::filter);
    }
    while next < successors.len()
        invariant
            next <= successors.len(),
            forall|i: int| 0 <= i < successors@.len() ==> (#[trigger] successors@[i]).valid(),
            kept@ == successors@.take(next as int).filter(passes(seen@, g)),
        decreases successors.len() - next,
    {
        let successor = successors[next];
        proof {
            reveal(Seq::filter);
            assert(successors@.take(next + 1).drop_last() =~= successors@.take(next as int));
        }
        if !seen_and_better(seen, &successor, g) {
            kept.push(successor);
        }
        next = next + 1;
    }
    assert(successors@.take(successors.len() as int) =~= successors@);
    kept
}

/// What holds of the record, the frontier and the counters between two
/// steps of a search.
pub open spec fn steady<S: State, Q: Queue<Transition<S>>>(
    explored: &Explored<S>,
    queue: &Q,
    statistics: &Statistics,
) -> bool {
    &&& explored.wf()
    &&& queue.inv()
    &&& known(explored, queue.items())
    &&& statistics.spec_created() == explored.spec_last_index() + 1
    &&& statistics.spec_queued() == statistics.spec_created()
    &&& statistics.spec_expanded() + queue.items().len() <= statistics.spec_queued()
    &&& queue.room() + statistics.spec_created() >= MAX_TRANSITIONS
}

/// The successors of the state of `transition` that an expansion tries, in
/// the order in which it tries them.
pub fn candidates<S, H>(
    explored: &Explored<S>,
    transition: &Rc<Transition<S>>,
    heuristic: &H,
    config: &SearchConfig,
) -> (candidates: Vec<S>) where S: State, H: Fn(&S) -> i32
    requires
        explored.wf(),
        explored.member(*transition),
        explored.spec_last_index() < u32::MAX,
        forall|state: S| state.valid() ==> call_requires(*heuristic, (&state,)),
    ensures
        tried(*heuristic, *config, *transition, explored.seen(), candidates@),
        fresh(explored.seen(), *transition, candidates@),
{
    let ghost next = transition.spec_state().spec_successors();
    let ghost seen = explored.seen();
    proof {
        assert(explored.history()[transition.spec_index() as int].wf());
        transition.lemma_path();
    }
    let g = transition.g() + 1;
    let successors = transition.state().successors();
    proof {
        assert forall|i: int| 0 <= i < successors@.len() implies (#[trigger] successors@[i]).valid() by {
            assert(next[i].valid());
        }
    }
    let mut candidates = survivors(successors, explored.closed(), g);
    let ghost kept = candidates@;
    if config.compute_heuristic && config.best_first_successors {
        proof {
            assert forall|i: int| 0 <= i < kept.len() implies call_requires(
                *heuristic,
                (&kept[i],),
            ) by {
                broadcast use vstd::seq_lib::group_to_multiset_ensures;

                assert(kept.contains(kept[i]));
                lemma_kept(next, seen, g, kept[i]);
            }
        }
        candidates = sort_by_estimate(candidates, heuristic);
    }
    proof {
        broadcast use vstd::seq_lib::group_to_multiset_ensures;

        assert forall|i: int| 0 <= i < candidates@.len() implies {
            &&& next.contains(#[trigger] candidates@[i])
            &&& candidates@[i].valid()
            &&& !spec_seen_and_better(seen, candidates@[i], g)
        } by {
            assert(candidates@.contains(candidates@[i]));
            assert(kept.to_multiset().count(candidates@[i]) > 0);
            lemma_kept(next, seen, g, candidates@[i]);
        }
        if distinct_successors::<S>() {
            assert(next.no_duplicates());
            lemma_filter_distinct(next, passes(seen, g));
            lemma_permuted_distinct(kept, candidates@);
        }
        assert forall|m: int| 0 <= m < next.len() implies spec_seen_and_better(
            seen,
            #[trigger] next[m],
            g,
        ) || pending(candidates@, 0, next[m]) by {
            if !spec_seen_and_better(seen, next[m], g) {
                next.lemma_filter_contains(passes(seen, g), m);
                assert(kept.to_multiset().count(next[m]) > 0);
                assert(candidates@.contains(next[m]));
            }
        }
    }
    candidates
}

/// Expands `transition`: records and queues the successors of its state that
/// the closed set does not rule out, as `expansion` says. Returns `false`
/// where the search had to stop because no index was left for a transition.
pub(crate) fn expand<S, H, Q>(
    explored: &mut Explored<S>,
    queue: &mut Q,
    statistics: &mut Statistics,
    best_h: &mut i32,
    transition: &Rc<Transition<S>>,
    heuristic: &H,
    config: &SearchConfig,
    Ghost(done): Ghost<Set<S>>,
    Ghost(level): Ghost<nat>,
) -> (finished: bool) where S: State, H: Fn(&S) -> i32, Q: Queue<Transition<S>>
    requires
        steady(old(explored), old(queue), old(statistics)),
        old(explored).member(*transition),
        watched(
            config.ehc,
            first_in_first_out::<S, Q>(),
            old(explored).seen(),
            old(queue).items(),
            *transition,
            done,
            level,
        ),
        distinct_successors::<S>() ==> old(explored).no_worse_reentry(),
        forall|state: S| state.valid() ==> call_requires(*heuristic, (&state,)),
    ensures
        exists|candidates: Seq<S>, estimates: Seq<i32>| #[trigger]
            expansion(
                *heuristic,
                *config,
                *transition,
                candidates,
                estimates,
                *old(best_h),
                old(explored).history(),
                old(explored).seen(),
                old(queue).items(),
                *final(best_h),
                final(explored).history(),
                final(explored).seen(),
                final(queue).items(),
                finished,
            ),
        steady(final(explored), final(queue), final(statistics)),
        final(queue).rule() == old(queue).rule(),
        final(explored).member(*transition),
        watched(
            config.ehc,
            first_in_first_out::<S, Q>(),
            final(explored).seen(),
            final(queue).items(),
            *transition,
            done,
            level,
        ),
        distinct_successors::<S>() ==> final(explored).no_worse_reentry(),
        final(statistics).extends(old(statistics)),
        final(statistics).spec_expanded() == old(statistics).spec_expanded(),
        !finished ==> final(statistics).spec_created() == MAX_TRANSITIONS,
        !config.ehc && finished ==> forall|m: int|
            0 <= m < transition.spec_state().spec_successors().len() ==> final(explored).seen().contains_key(
                (#[trigger] transition.spec_state().spec_successors()[m]).spec_key(),
            ),
{
    let ghost best0 = *best_h;
    let ghost history0 = explored.history();
    let ghost seen0 = explored.seen();
    let ghost open0 = queue.items();
    let ghost created0 = statistics.spec_created();
    let ghost expanded0 = statistics.spec_expanded();
    let ghost fifo = first_in_first_out::<S, Q>();
    let ghost rule = queue.rule();
    if explored.last_index() == u32::MAX {
        proof {
            lemma_partly_start(*heuristic, *config, *transition, Seq::<S>::empty(), best0, history0, seen0, open0);
            lemma_partly_end(
                *heuristic,
                *config,
                *transition,
                Seq::<S>::empty(),
                Seq::<i32>::empty(),
                false,
                best0,
                history0,
                seen0,
                open0,
                best0,
                history0,
                seen0,
                open0,
                false,
            );
        }
        return false;
    }
    let candidates = candidates(explored, transition, heuristic, config);
    let ghost mut hs: Seq<i32> = Seq::empty();
    proof {
        assert(explored.history()[transition.spec_index() as int].wf());
        transition.lemma_path();
        lemma_partly_start(*heuristic, *config, *transition, candidates@, best0, history0, seen0, open0);
        lemma_remaining_start(seen0, *transition, candidates@, config.ehc);
    }
    let mut at: usize = 0;
    let mut gave_up = false;
    let mut restarted = false;
    while at < candidates.len() && !gave_up && !restarted
        invariant
            forall|state: S| state.valid() ==> call_requires(*heuristic, (&state,)),
            history0.len() <= u32::MAX,
            explored.history().len() == history0.len() + at,
            transition.spec_g() < u32::MAX,
            fifo == first_in_first_out::<S, Q>(),
            queue.rule() == rule,
            at <= candidates.len(),
            hs.len() == at,
            !(gave_up && restarted),
            restarted ==> config.ehc,
            partly(
                *heuristic,
                *config,
                *transition,
                candidates@,
                hs,
                restarted,
                best0,
                history0,
                seen0,
                open0,
                *best_h,
                explored.history(),
                explored.seen(),
                queue.items(),
            ),
            remaining(explored.seen(), *transition, candidates@, at as int, config.ehc),
            steady(explored, queue, statistics),
            explored.member(*transition),
            watched(config.ehc, fifo, explored.seen(), queue.items(), *transition, done, level),
            distinct_successors::<S>() ==> explored.no_worse_reentry(),
            statistics.spec_expanded() == expanded0,
            statistics.spec_created() == created0 + at,
            gave_up ==> explored.spec_last_index() == u32::MAX && at < candidates.len(),
        decreases
                (if gave_up || restarted {
                    0
                } else {
                    1 + candidates.len() - at
                }),
    {
        if explored.last_index() == u32::MAX {
            gave_up = true;
        } else {
            let successor_state = candidates[at];
            proof {
                lemma_remaining_head(explored.seen(), *transition, candidates@, at as int, config.ehc);
            }
            let current_h = if config.compute_heuristic {
                heuristic(&successor_state)
            } else {
                0
            };
            let ghost before = *explored;
            let ghost open = queue.items();
            let ghost best_now = *best_h;
            let succ_transition = explored.record(successor_state, transition, current_h);
            if current_h < *best_h {
                *best_h = current_h;
                if config.ehc {
                    queue.clear();
                    restarted = true;
                }
            }
            let ghost cleared = queue.items();
            queue.enqueue(Rc::clone(&succ_transition));
            statistics.count_queued();
            proof {
                lemma_known_push(&before, explored, open, cleared, succ_transition);
                lemma_partly_step(
                    *heuristic,
                    *config,
                    *transition,
                    candidates@,
                    hs,
                    current_h,
                    best0,
                    history0,
                    seen0,
                    open0,
                    best_now,
                    before.history(),
                    before.seen(),
                    open,
                    succ_transition,
                );
                lemma_remaining_step(
                    before.seen(),
                    *transition,
                    candidates@,
                    at as int,
                    config.ehc,
                    succ_transition,
                );
                lemma_watched_step(
                    config.ehc,
                    fifo,
                    before.seen(),
                    open,
                    *transition,
                    done,
                    level,
                    succ_transition,
                );
                if restarted {
                    assert(cleared =~= Seq::<Rc<Transition<S>>>::empty());
                    assert(queue.items() =~= seq![succ_transition]);
                    lemma_watched_climbing(
                        fifo,
                        explored.seen(),
                        queue.items(),
                        *transition,
                        done,
                        level,
                    );
                } else {
                    assert(cleared == open);
                }
                hs = hs.push(current_h);
            }
            at = at + 1;
        }
    }
    proof {
        lemma_partly_end(
            *heuristic,
            *config,
            *transition,
            candidates@,
            hs,
            restarted,
            best0,
            history0,
            seen0,
            open0,
            *best_h,
            explored.history(),
            explored.seen(),
            queue.items(),
            !gave_up,
        );
        if !config.ehc && !gave_up {
            lemma_remaining_end(explored.seen(), *transition, candidates@);
        }
    }
    !gave_up
}

/// The driver of every strategy.
///
/// It takes the next transition from the frontier until the frontier is
/// empty. A transition whose state `goal` accepts ends the search with the
/// path to it. Any other is expanded: the successors of its state that the
/// closed set does not rule out are recorded and queued, in the order of the
/// domain or, for steepest ascent, by rising estimate. With enforced hill
/// climbing, a successor whose estimate improves on the best one seen makes
/// the search drop the frontier and the successors after it, and go on from
/// that successor alone.
pub fn search<S, H, G, Q>(
    initial: &S,
    heuristic: H,
    goal: G,
    queue: &mut Q,
    config: SearchConfig,
) -> (result: SearchResult<S>) where
    S: State,
    H: Fn(&S) -> i32,
    G: Fn(&S) -> bool,
    Q: Queue<Transition<S>>,

    requires
        lawful::<S>(),
        initial.valid(),
        forall|state: S| state.valid() ==> call_requires(heuristic, (&state,)),
        forall|state: S| state.valid() ==> call_requires(goal, (&state,)),
        old(queue).inv(),
        old(queue).items().len() == 0,
        old(queue).room() >= MAX_TRANSITIONS,
    ensures
        final(queue).inv(),
        outcome(*initial, goal, config.ehc, result),
        !config.ehc && first_in_first_out::<S, Q>() ==> (result.plan matches Some(plan)
            ==> no_shorter_plan(*initial, goal, plan@.len())),
        exists|moments: Seq<Moment<S>>| #[trigger]
            run(heuristic, goal, config, old(queue).rule(), *initial, moments, result),
{
    // the initial state
    let mut statistics = Statistics::begin();
    let start = clock_start();
    let initial_h = if config.compute_heuristic {
        heuristic(initial)
    } else {
        0
    };
    let initial_transition = Rc::new(Transition::new(Rc::new(*initial), initial_h));
    let ghost root = initial_transition;
    let mut best_h = initial_h;
    let mut explored = Explored::start(Rc::clone(&initial_transition));
    queue.enqueue(initial_transition);
    let ghost mut done: Set<S> = Set::empty();
    let ghost mut level: nat = 0;
    let ghost mut moments: Seq<Moment<S>> = Seq::empty();
    let ghost leaves = queue.rule();
    proof {
        let now = Moment {
            open: queue.items(),
            pick: 0,
            seen: explored.seen(),
            history: explored.history(),
            best: best_h,
        };
        assert(root == Rc::new(Transition::Initial { state: Rc::new(*initial), h: now.best }));
        assert(now.open =~= seq![root]);
        assert(now.history =~= seq![root]);
        assert(now.seen =~= Map::<u64, Rc<Transition<S>>>::empty().insert(
            initial.spec_key(),
            root,
        ));
        assert(begins(heuristic, config, *initial, now));
        lemma_underway_start(
            heuristic,
            goal,
            config,
            leaves,
            *initial,
            Moment {
                open: queue.items(),
                pick: 0,
                seen: explored.seen(),
                history: explored.history(),
                best: best_h,
            },
        );
        reveal(closed_under_steps);
        reveal(accounted);
        reveal(layered);
        assert(queue.items() =~= seq![explored.history()[0]]);
        assert(explored.seen().dom() =~= set![initial.spec_key()]);
        assert(queue.items()[0].spec_state() == *initial);
    }
    loop
        invariant
            initial.valid(),
            forall|state: S| state.valid() ==> call_requires(heuristic, (&state,)),
            forall|state: S| state.valid() ==> call_requires(goal, (&state,)),
            steady(&explored, queue, &statistics),
            explored.history()[0].spec_state() == *initial,
            1 <= statistics.spec_created() <= MAX_TRANSITIONS,
            !config.ehc ==> refuted(goal, done) && thorough(
                explored.seen(),
                queue.items(),
                done,
                None,
            ),
            statistics.spec_expanded() == 0 ==> statistics.spec_created() == 1 && queue.items()
                == seq![explored.history()[0]],
            statistics.spec_expanded() > 0 ==> call_ensures(goal, (initial,), false),
            !config.ehc && first_in_first_out::<S, Q>() ==> layered(
                explored.seen(),
                queue.items(),
                done,
                level,
            ),
            distinct_successors::<S>() ==> explored.no_worse_reentry(),
            leaves == queue.rule(),
            leaves == old(queue).rule(),
            moments.len() == statistics.spec_expanded(),
            underway(
                heuristic,
                goal,
                config,
                leaves,
                *initial,
                moments,
                (Moment {
                    open: queue.items(),
                    pick: 0,
                    seen: explored.seen(),
                    history: explored.history(),
                    best: best_h,
                }),
            ),
        ensures
            leaves == queue.rule(),
            leaves == old(queue).rule(),
            moments.len() == statistics.spec_expanded(),
            underway(
                heuristic,
                goal,
                config,
                leaves,
                *initial,
                moments,
                (Moment {
                    open: queue.items(),
                    pick: 0,
                    seen: explored.seen(),
                    history: explored.history(),
                    best: best_h,
                }),
            ),
            steady(&explored, queue, &statistics),
            explored.history()[0].spec_state() == *initial,
            1 <= statistics.spec_created() <= MAX_TRANSITIONS,
            statistics.spec_expanded() > 0,
            call_ensures(goal, (initial,), false),
            queue.items().len() == 0,
            !config.ehc ==> refuted(goal, done) && thorough(
                explored.seen(),
                queue.items(),
                done,
                None,
            ),
        decreases MAX_TRANSITIONS - statistics.spec_created(), queue.items().len(),
    {
        let ghost open = queue.items();
        let ghost front = queue.front();
        let ghost moment = Moment {
            open,
            pick: front,
            seen: explored.seen(),
            history: explored.history(),
            best: best_h,
        };
        match queue.dequeue() {
            None => {
                break ;
            },
            Some(transition) => {
                let ghost state = transition.spec_state();
                proof {
                    assert(leaves(open, front));
                    lemma_sound(&explored, open, front, best_h);
                    lemma_underway_takes(
                        heuristic,
                        goal,
                        config,
                        leaves,
                        *initial,
                        moments,
                        Moment { pick: 0, ..moment },
                        front,
                    );
                    moments = moments.push(moment);
                    assert(moments.last() == moment);
                    assert(takes(leaves, moment));
                    assert(taken(moment) == transition);
                    assert(explored.member(open[front]));
                    assert(explored.history()[transition.spec_index() as int].wf());
                    transition.lemma_path();
                    assert forall|j: int| 0 <= j < queue.items().len() implies explored.member(
                        #[trigger] queue.items()[j],
                    ) by {
                        if j < front {
                            assert(queue.items()[j] == open[j]);
                        } else {
                            assert(queue.items()[j] == open[j + 1]);
                        }
                    }
                    if !config.ehc && first_in_first_out::<S, Q>() {
                        assert(front == 0);
                        lemma_layered_pop(&explored, open, done, level);
                        level = transition.spec_g() as nat;
                    }
                    if !config.ehc {
                        lemma_thorough_pop(explored.seen(), open, done, front);
                    }
                }
                if goal(transition.state()) {
                    let plan = extract_plan(&transition);
                    proof {
                        assert(explored.history().len() == explored.spec_last_index() + 1);
                        if !config.ehc && first_in_first_out::<S, Q>() {
                            assert forall|path: Seq<S>| #[trigger]
                                is_path_from(*initial, path) && path.len()
                                    < plan@.len() implies call_ensures(
                                goal,
                                (&path.last(),),
                                false,
                            ) by {
                                lemma_layer_done(
                                    &explored,
                                    queue.items(),
                                    done,
                                    level,
                                    path,
                                    path.len() - 1,
                                );
                            }
                        }
                    }
                    statistics.finish(clock_elapsed(&start));
                    let result = SearchResult { plan: Some(plan), statistics };
                    proof {
                        lemma_run(heuristic, goal, config, leaves, *initial, moments, result);
                    }
                    return result;
                }
                statistics.count_expanded();
                let ghost rest = queue.items();
                let ghost best_then = best_h;
                let ghost history_then = explored.history();
                let ghost seen_then = explored.seen();
                proof {
                    assert(best_then == moment.best);
                    assert(history_then == moment.history);
                    assert(seen_then == moment.seen);
                    assert(rest == moment.open.remove(moment.pick));
                }
                let finished = expand(
                    &mut explored,
                    queue,
                    &mut statistics,
                    &mut best_h,
                    &transition,
                    &heuristic,
                    &config,
                    Ghost(done),
                    Ghost(level),
                );
                let ghost (candidates, estimates) = choose|candidates: Seq<S>, estimates: Seq<i32>| #[trigger]
                    expansion(
                        heuristic,
                        config,
                        transition,
                        candidates,
                        estimates,
                        best_then,
                        history_then,
                        seen_then,
                        rest,
                        best_h,
                        explored.history(),
                        explored.seen(),
                        queue.items(),
                        finished,
                    );
                if !finished {
                    statistics.finish(clock_elapsed(&start));
                    let result = SearchResult { plan: None, statistics };
                    proof {
                        assert(expansion(
                            heuristic,
                            config,
                            taken(moment),
                            candidates,
                            estimates,
                            moment.best,
                            moment.history,
                            moment.seen,
                            moment.open.remove(moment.pick),
                            best_h,
                            explored.history(),
                            explored.seen(),
                            queue.items(),
                            false,
                        ));
                        lemma_run(heuristic, goal, config, leaves, *initial, moments, result);
                    }
                    return result;
                }
                proof {
                    lemma_underway_leads(
                        heuristic,
                        goal,
                        config,
                        leaves,
                        *initial,
                        moments,
                        candidates,
                        estimates,
                        Moment {
                            open: queue.items(),
                            pick: 0,
                            seen: explored.seen(),
                            history: explored.history(),
                            best: best_h,
                        },
                    );
                    if !config.ehc && first_in_first_out::<S, Q>() {
                        lemma_layered_done(explored.seen(), queue.items(), done, level, state);
                    }
                    if !config.ehc {
                        lemma_thorough_done(explored.seen(), queue.items(), done, state);
                        done = done.insert(state);
                    }
                }
            },
        }
    }
    statistics.finish(clock_elapsed(&start));
    let result = SearchResult { plan: None, statistics };
    proof {
        if !config.ehc {
            assert(queue.items() =~= Seq::<Rc<Transition<S>>>::empty());
            lemma_exhausted(&explored, goal, done, *initial);
        }
        let now = Moment {
            open: queue.items(),
            pick: 0,
            seen: explored.seen(),
            history: explored.history(),
            best: best_h,
        };
        lemma_sound(&explored, queue.items(), 0, best_h);
        lemma_underway_takes(heuristic, goal, config, leaves, *initial, moments, now, 0);
        moments = moments.push(now);
        assert(moments.last() == now);
        assert(explored.history().len() == explored.spec_last_index() + 1);
        lemma_run(heuristic, goal, config, leaves, *initial, moments, result);
    }
    result
}

/// A search with a first-in-first-out frontier.
fn queued_search<S, H, G>(initial: &S, heuristic: H, goal: G, config: SearchConfig) -> (result:
    SearchResult<S>) where S: State, H: Fn(&S) -> i32, G: Fn(&S) -> bool
    requires
        lawful::<S>(),
        initial.valid(),
        forall|state: S| state.valid() ==> call_requires(heuristic, (&state,)),
        forall|state: S| state.valid() ==> call_requires(goal, (&state,)),
    ensures
        outcome(*initial, goal, config.ehc, result),
        !config.ehc ==> (result.plan matches Some(plan) ==> no_shorter_plan(
            *initial,
            goal,
            plan@.len(),
        )),
        exists|moments: Seq<Moment<S>>| #[trigger]
            run(
                heuristic,
                goal,
                config,
                oldest_first::<Transition<S>>(),
                *initial,
                moments,
                result,
            ),
{
    let mut queue = Fifo::new();
    assert(first_in_first_out::<S, Fifo<Transition<S>>>());
    search(initial, heuristic, goal, &mut queue, config)
}

/// A search with a priority frontier that ranks transitions by `order`.
fn ranked_search<S, H, G, F>(
    initial: &S,
    heuristic: H,
    goal: G,
    order: F,
    Ghost(rank): Ghost<spec_fn(Transition<S>) -> Rank>,
) -> (result: SearchResult<S>) where
    S: State,
    H: Fn(&S) -> i32,
    G: Fn(&S) -> bool,
    F: Fn(&Transition<S>) -> Rank,

    requires
        lawful::<S>(),
        initial.valid(),
        forall|state: S| state.valid() ==> call_requires(heuristic, (&state,)),
        forall|state: S| state.valid() ==> call_requires(goal, (&state,)),
        forall|transition: Transition<S>| call_requires(order, (&transition,)),
        forall|transition: Transition<S>, given: Rank|
            call_ensures(order, (&transition,), given) ==> given == rank(transition),
    ensures
        outcome(*initial, goal, false, result),
        exists|moments: Seq<Moment<S>>| #[trigger]
            run(
                heuristic,
                goal,
                SearchConfig::default(),
                least_rank_first(rank),
                *initial,
                moments,
                result,
            ),
{
    let mut queue = PriorityCmp::new(order);
    let result = search(initial, heuristic, goal, &mut queue, SearchConfig::default());
    proof {
        let config = SearchConfig::default();
        let rule = by_ranking::<Transition<S>, F>(RcFnComparator(order));
        let moments = choose|moments: Seq<Moment<S>>| #[trigger]
            run(heuristic, goal, config, rule, *initial, moments, result);
        assert forall|open: Seq<Rc<Transition<S>>>, pick: int|
            0 <= pick < open.len() && #[trigger] rule(open, pick) implies least_rank_first(rank)(
            open,
            pick,
        ) by {
            let ranks = choose|ranks: Seq<Rank>| #[trigger]
                ranked(RcFnComparator(order), open, ranks) && leaves_first(ranks, pick);
            assert forall|i: int| 0 <= i < open.len() implies ranks[i] == rank(*open[i]) by {
                assert(RcFnComparator(order).ranks(open[i], ranks[i]));
            }
            assert(ranks =~= ranks_of(rank, open));
        }
        lemma_run_weaker(
            heuristic,
            goal,
            config,
            rule,
            least_rank_first(rank),
            *initial,
            moments,
            result,
        );
    }
    result
}

/// Breadth-first search: a first-in-first-out frontier and no heuristic.
/// The plan that it returns is a shortest one.
pub fn breadth_first_search<S: State, G: Fn(&S) -> bool>(initial: &S, goal: G) -> (result:
    SearchResult<S>)
    requires
        lawful::<S>(),
        initial.valid(),
        forall|state: S| state.valid() ==> call_requires(goal, (&state,)),
    ensures
        outcome(*initial, goal, false, result),
        result.plan matches Some(plan) ==> no_shorter_plan(*initial, goal, plan@.len()),
        exists|moments: Seq<Moment<S>>| #[trigger]
            run(
                blind_heuristic::<S>,
                goal,
                SearchConfig::blind(),
                oldest_first::<Transition<S>>(),
                *initial,
                moments,
                result,
            ),
{
    queued_search(initial, blind_heuristic, goal, SearchConfig::blind())
}

/// Enforced hill climbing: a first-in-first-out frontier that is dropped
/// whenever a successor improves on the best estimate seen.
pub fn ehc_search<S, H, G>(initial: &S, heuristic: H, goal: G) -> (result: SearchResult<S>) where
    S: State,
    H: Fn(&S) -> i32,
    G: Fn(&S) -> bool,

    requires
        lawful::<S>(),
        initial.valid(),
        forall|state: S| state.valid() ==> call_requires(heuristic, (&state,)),
        forall|state: S| state.valid() ==> call_requires(goal, (&state,)),
    ensures
        outcome(*initial, goal, true, result),
        exists|moments: Seq<Moment<S>>| #[trigger]
            run(
                heuristic,
                goal,
                SearchConfig::ehc(),
                oldest_first::<Transition<S>>(),
                *initial,
                moments,
                result,
            ),
{
    queued_search(initial, heuristic, goal, SearchConfig::ehc())
}

/// Enforced hill climbing that tries the successors of a state by rising
/// estimate.
pub fn ehc_steepest_search<S, H, G>(initial: &S, heuristic: H, goal: G) -> (result: SearchResult<
    S,
>) where S: State, H: Fn(&S) -> i32, G: Fn(&S) -> bool
    requires
        lawful::<S>(),
        initial.valid(),
        forall|state: S| state.valid() ==> call_requires(heuristic, (&state,)),
        forall|state: S| state.valid() ==> call_requires(goal, (&state,)),
    ensures
        outcome(*initial, goal, true, result),
        exists|moments: Seq<Moment<S>>| #[trigger]
            run(
                heuristic,
                goal,
                SearchConfig::ehc_steepest_ascent(),
                oldest_first::<Transition<S>>(),
                *initial,
                moments,
                result,
            ),
{
    queued_search(initial, heuristic, goal, SearchConfig::ehc_steepest_ascent())
}

/// The rank by which greedy best-first search orders its frontier: the
/// estimate alone.
pub open spec fn greedy_rank<S: State>(transition: Transition<S>) -> Rank {
    (transition.spec_h(), 0i32)
}

/// The rank by which A* orders its frontier: the steps taken and the
/// estimate added up, then the estimate.
pub open spec fn a_star_rank<S: State>(transition: Transition<S>) -> Rank {
    (spec_a_star_eval(transition.spec_g(), transition.spec_h()), transition.spec_h())
}

/// The ranking of greedy best-first search.
pub open spec fn greedy_ranking<S: State>() -> spec_fn(Transition<S>) -> Rank {
    |transition: Transition<S>| greedy_rank(transition)
}

/// The ranking of A*.
pub open spec fn a_star_ranking<S: State>() -> spec_fn(Transition<S>) -> Rank {
    |transition: Transition<S>| a_star_rank(transition)
}

/// The rule by which the frontier of greedy best-first search hands out
/// transitions: the least estimate first, and of equal estimates the
/// oldest.
pub open spec fn greedy_rule<S: State>() -> spec_fn(Seq<Rc<Transition<S>>>, int) -> bool {
    least_rank_first(greedy_ranking::<S>())
}

/// The rule by which the frontier of A* hands out transitions: the least
/// sum of steps and estimate first, of equal sums the least estimate, and
/// of equal estimates the oldest.
pub open spec fn a_star_rule<S: State>() -> spec_fn(Seq<Rc<Transition<S>>>, int) -> bool {
    least_rank_first(a_star_ranking::<S>())
}

/// Ranks a transition for greedy best-first search.
pub fn greedy_order<S: State>(state_transition: &Transition<S>) -> (rank: Rank)
    ensures
        rank == greedy_rank(*state_transition),
{
    (state_transition.h(), 0)
}

/// Ranks a transition for A*.
pub fn a_star_order<S: State>(state_transition: &Transition<S>) -> (rank: Rank)
    ensures
        rank == a_star_rank(*state_transition),
{
    (a_star_eval(state_transition), state_transition.h())
}

/// Greedy best-first search: the transition of least estimate leaves the
/// frontier first, and among equal estimates the oldest.
pub fn greedy_best_first_search<S, H, G>(initial: &S, heuristic: H, goal: G) -> (result:
    SearchResult<S>) where S: State, H: Fn(&S) -> i32, G: Fn(&S) -> bool
    requires
        lawful::<S>(),
        initial.valid(),
        forall|state: S| state.valid() ==> call_requires(heuristic, (&state,)),
        forall|state: S| state.valid() ==> call_requires(goal, (&state,)),
    ensures
        outcome(*initial, goal, false, result),
        exists|moments: Seq<Moment<S>>| #[trigger]
            run(
                heuristic,
                goal,
                SearchConfig::default(),
                greedy_rule::<S>(),
                *initial,
                moments,
                result,
            ),
{
    //greedy best first search only considers the heuristic value (h)
    let result = ranked_search(
        initial,
        heuristic,
        goal,
        greedy_order,
        Ghost(greedy_ranking::<S>()),
    );
    proof {
        let moments = choose|moments: Seq<Moment<S>>| #[trigger]
            run(
                heuristic,
                goal,
                SearchConfig::default(),
                least_rank_first(greedy_ranking::<S>()),
                *initial,
                moments,
                result,
            );
        assert(greedy_rule::<S>() == least_rank_first(greedy_ranking::<S>()));
        assert(run(
            heuristic,
            goal,
            SearchConfig::default(),
            greedy_rule::<S>(),
            *initial,
            moments,
            result,
        ));
    }
    result
}

/// A*: the transition of least `g + h` leaves the frontier first, among
/// those the one of least estimate, and among those the oldest.
pub fn a_star_search<S, H, G>(initial: &S, heuristic: H, goal: G) -> (result: SearchResult<
    S,
>) where S: State, H: Fn(&S) -> i32, G: Fn(&S) -> bool
    requires
        lawful::<S>(),
        initial.valid(),
        forall|state: S| state.valid() ==> call_requires(heuristic, (&state,)),
        forall|state: S| state.valid() ==> call_requires(goal, (&state,)),
    ensures
        outcome(*initial, goal, false, result),
        exists|moments: Seq<Moment<S>>| #[trigger]
            run(
                heuristic,
                goal,
                SearchConfig::default(),
                a_star_rule::<S>(),
                *initial,
                moments,
                result,
            ),
{
    let result = ranked_search(
        initial,
        heuristic,
        goal,
        a_star_order,
        Ghost(a_star_ranking::<S>()),
    );
    proof {
        let moments = choose|moments: Seq<Moment<S>>| #[trigger]
            run(
                heuristic,
                goal,
                SearchConfig::default(),
                least_rank_first(a_star_ranking::<S>()),
                *initial,
                moments,
                result,
            );
        assert(a_star_rule::<S>() == least_rank_first(a_star_ranking::<S>()));
        assert(run(
            heuristic,
            goal,
            SearchConfig::default(),
            a_star_rule::<S>(),
            *initial,
            moments,
            result,
        ));
    }
    result
}

} // verus!
