//! The closed set: the best transition known for each state that a search
//! has met, together with the record of every transition it has created.
use crate::transition::State;
use crate::transition::Transition;
use crate::transition::lawful;
use crate::transition::lemma_same_key;
use std::collections::HashMap;
use std::rc::Rc;
use vstd::prelude::*;

verus! {

/// The largest number of transitions that one search creates: each has an
/// index of its own, and the indices are `u32`.
pub const MAX_TRANSITIONS: u64 = 4294967296;

/// `seen` knows `state` by a transition of at most `g` steps.
pub open spec fn spec_seen_and_better<S: State>(
    seen: Map<u64, Rc<Transition<S>>>,
    state: S,
    g: u32,
) -> bool {
    seen.contains_key(state.spec_key()) && seen[state.spec_key()].spec_g() <= g
}

/// Whether the closed set already holds `state` with a path of at most `g`
/// steps: a longer way to a state leads to no shorter plan.
pub fn seen_and_better<S: State>(
    seen: &HashMap<u64, Rc<Transition<S>>>,
    state: &S,
    g: u32,
) -> (pruned: bool)
    requires
        state.valid(),
    ensures
        pruned == spec_seen_and_better(seen@, *state, g),
{
    match seen.get(&state.key()) {
        Some(seen_transition) => seen_transition.g() <= g,
        None => false,
    }
}

/// The closed set of one search and the record of the transitions that the
/// search has created, in the order of their creation.
pub struct Explored<S: State> {
    seen: HashMap<u64, Rc<Transition<S>>>,
    index: u32,
    history: Ghost<Seq<Rc<Transition<S>>>>,
}

impl<S: State> Explored<S> {
    /// The closed set: from the key of a state to the best transition known
    /// for it.
    pub closed spec fn seen(&self) -> Map<u64, Rc<Transition<S>>> {
        self.seen@
    }

    /// Every transition created so far, oldest first.
    pub closed spec fn history(&self) -> Seq<Rc<Transition<S>>> {
        self.history@
    }

    /// The index that the youngest transition has.
    pub closed spec fn spec_last_index(&self) -> u32 {
        self.index
    }

    /// `transition` is one of those that this search created.
    pub open spec fn member(&self, transition: Rc<Transition<S>>) -> bool {
        &&& transition.spec_index() < self.history().len()
        &&& self.history()[transition.spec_index() as int] == transition
    }

    /// What holds between two steps of a search.
    pub open spec fn wf(&self) -> bool {
        &&& lawful::<S>()
        &&& self.history().len() == self.spec_last_index() + 1
        &&& *self.history()[0] is Initial
        &&& forall|i: int|
            0 <= i < self.history().len() ==> {
                &&& (#[trigger] self.history()[i]).wf()
                &&& self.history()[i].spec_index() == i
                &&& self.history()[i].root() == self.history()[0].spec_state()
            }
        &&& forall|k: u64| #[trigger]
            self.seen().contains_key(k) ==> self.member(self.seen()[k])
                && self.seen()[k].spec_state().spec_key() == k
        &&& forall|i: int|
            0 <= i < self.history().len() ==> spec_seen_and_better(
                self.seen(),
                (#[trigger] self.history()[i]).spec_state(),
                self.history()[i].spec_g(),
            )
    }

    /// A state that was recorded with `g` steps was not recorded again with
    /// as many or more.
    pub open spec fn no_worse_reentry(&self) -> bool {
        forall|i: int, j: int|
            0 <= i < j < self.history().len() && (#[trigger] self.history()[i]).spec_state() == (
            #[trigger] self.history()[j]).spec_state() ==> self.history()[j].spec_g()
                < self.history()[i].spec_g()
    }

    /// No two transitions of one search share an index.
    pub proof fn lemma_distinct_indices(&self, i: int, j: int)
        requires
            self.wf(),
            0 <= i < self.history().len(),
            0 <= j < self.history().len(),
            i != j,
        ensures
            self.history()[i].spec_index() != self.history()[j].spec_index(),
    {
    }

    /// Where no state was recorded again with as many steps or more, the
    /// later of two transitions to one state has the fewer steps.
    pub proof fn lemma_reentry(&self, i: int, j: int)
        requires
            self.no_worse_reentry(),
            0 <= i < j < self.history().len(),
            self.history()[i].spec_state() == self.history()[j].spec_state(),
        ensures
            self.history()[j].spec_g() < self.history()[i].spec_g(),
    {
    }

    /// The closed set holds every state that was recorded, with the least
    /// number of steps that it was recorded with.
    pub proof fn lemma_best(&self, i: int)
        requires
            self.wf(),
            0 <= i < self.history().len(),
        ensures
            self.seen().contains_key(self.history()[i].spec_state().spec_key()),
            self.seen()[self.history()[i].spec_state().spec_key()].spec_state()
                == self.history()[i].spec_state(),
            self.seen()[self.history()[i].spec_state().spec_key()].spec_g()
                <= self.history()[i].spec_g(),
            self.member(self.seen()[self.history()[i].spec_state().spec_key()]),
    {
        let state = self.history()[i].spec_state();
        let best = self.seen()[state.spec_key()];
        assert(self.seen().contains_key(state.spec_key()));
        assert(self.history()[best.spec_index() as int].wf());
        lemma_same_key(state, best.spec_state());
    }

    /// The closed set's entry under the key of a valid state is a transition
    /// to that state.
    pub proof fn lemma_seen_state(&self, state: S)
        requires
            self.wf(),
            state.valid(),
            self.seen().contains_key(state.spec_key()),
        ensures
            self.seen()[state.spec_key()].spec_state() == state,
            self.member(self.seen()[state.spec_key()]),
    {
        let best = self.seen()[state.spec_key()];
        assert(self.history()[best.spec_index() as int].wf());
        lemma_same_key(state, best.spec_state());
    }

    /// The record of a search that has created the root and nothing else.
    pub fn start(initial: Rc<Transition<S>>) -> (explored: Self)
        requires
            lawful::<S>(),
            initial.wf(),
            *initial is Initial,
        ensures
            explored.wf(),
            explored.no_worse_reentry(),
            explored.history() == seq![initial],
            explored.seen() == Map::<u64, Rc<Transition<S>>>::empty().insert(
                initial.spec_state().spec_key(),
                initial,
            ),
            explored.spec_last_index() == 0,
    {
        let mut seen = HashMap::new();
        let key = initial.state().key();
        let ghost root = initial;
        seen.insert(key, initial);
        let ghost history = Seq::empty().push(root);
        let explored = Explored { seen, index: 0, history: Ghost(history) };
        assert(history =~= seq![root]);
        assert(explored.history()[0] == root);
        explored
    }

    /// The index of the youngest transition.
    #[verifier::when_used_as_spec(spec_last_index)]
    pub fn last_index(&self) -> (index: u32)
        ensures
            index == self.spec_last_index(),
    {
        self.index
    }

    /// The closed set.
    pub fn closed(&self) -> (seen: &HashMap<u64, Rc<Transition<S>>>)
        ensures
            seen@ == self.seen(),
    {
        &self.seen
    }

    /// The best transition known for `state`.
    pub fn lookup(&self, state: &S) -> (best: Option<&Rc<Transition<S>>>)
        requires
            state.valid(),
        ensures
            match best {
                Some(transition) => self.seen().contains_key(state.spec_key())
                    && *transition == self.seen()[state.spec_key()],
                None => !self.seen().contains_key(state.spec_key()),
            },
    {
        self.seen.get(&state.key())
    }

    /// Creates the transition from `parent` to `state`, under the next index,
    /// and makes it the closed set's entry for `state`, whatever the entry
    /// was.
    pub fn record(&mut self, state: S, parent: &Rc<Transition<S>>, h: i32) -> (transition: Rc<
        Transition<S>,
    >)
        requires
            old(self).wf(),
            old(self).spec_last_index() < u32::MAX,
            old(self).member(*parent),
            state.valid(),
            parent.spec_state().spec_successors().contains(state),
            old(self).seen().contains_key(state.spec_key()) ==> old(self).seen()[state.spec_key()].spec_g()
                > parent.spec_g(),
        ensures
            final(self).wf(),
            final(self).spec_last_index() == old(self).spec_last_index() + 1,
            final(self).history() == old(self).history().push(transition),
            final(self).seen() == old(self).seen().insert(state.spec_key(), transition),
            *transition == (Transition::Intermediate {
                state: Rc::new(state),
                parent: *parent,
                g: (parent.spec_g() + 1) as u32,
                index: final(self).spec_last_index(),
                h,
            }),
            old(self).no_worse_reentry() && !spec_seen_and_better(
                old(self).seen(),
                state,
                (parent.spec_g() + 1) as u32,
            ) ==> final(self).no_worse_reentry(),
    {
        proof {
            assert(old(self).history()[parent.spec_index() as int].wf());
            parent.lemma_path();
        }
        let index = self.index + 1;
        let transition = Rc::new(
            Transition::successor(Rc::new(state), Rc::clone(parent), index, h),
        );
        self.seen.insert(state.key(), Rc::clone(&transition));
        self.index = index;
        proof {
            let before = old(self).history();
            let after = before.push(transition);
            self.history = Ghost(after);
            assert(transition.wf());
            assert(transition.root() == parent.root());
            assert forall|i: int| 0 <= i < after.len() implies {
                &&& (#[trigger] after[i]).wf()
                &&& after[i].spec_index() == i
                &&& after[i].root() == after[0].spec_state()
            } by {
                if i < before.len() {
                    assert(after[i] == before[i]);
                }
            }
            assert forall|k: u64| #[trigger] self.seen().contains_key(k) implies self.member(
                self.seen()[k],
            ) && self.seen()[k].spec_state().spec_key() == k by {
                if k != state.spec_key() {
                    assert(old(self).seen().contains_key(k));
                    let best = old(self).seen()[k];
                    assert(after[best.spec_index() as int] == before[best.spec_index() as int]);
                }
            }
            assert forall|i: int| 0 <= i < after.len() implies spec_seen_and_better(
                self.seen(),
                (#[trigger] after[i]).spec_state(),
                after[i].spec_g(),
            ) by {
                if i < before.len() {
                    assert(after[i] == before[i]);
                    old(self).lemma_best(i);
                    if before[i].spec_state().spec_key() == state.spec_key() {
                        lemma_same_key(before[i].spec_state(), state);
                    }
                }
            }
            if old(self).no_worse_reentry() && !spec_seen_and_better(
                old(self).seen(),
                state,
                (parent.spec_g() + 1) as u32,
            ) {
                assert forall|i: int, j: int|
                    0 <= i < j < after.len() && (#[trigger] after[i]).spec_state() == (
                    #[trigger] after[j]).spec_state() implies after[j].spec_g()
                    < after[i].spec_g() by {
                    assert(after[i] == before[i]);
                    if j < before.len() {
                        assert(after[j] == before[j]);
                    } else {
                        old(self).lemma_best(i);
                    }
                }
            }
        }
        transition
    }
}

} // verus!
