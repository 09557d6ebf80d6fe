//! States and the transitions that a search links into a tree.
use std::rc::Rc;
use vstd::prelude::*;

verus! {

/// A state of the space that is searched.
///
/// A domain supplies the successor function and a key. Two valid states with
/// one key are one state: the searches tell states apart by their keys.
pub trait State: Sized + Copy {
    /// The states that the domain accepts. A search starts from a valid state
    /// and meets no other. Every state is valid unless the domain says
    /// otherwise.
    open spec fn valid(&self) -> bool {
        true
    }

    /// The key of the state. Nothing is known of it unless the domain says
    /// what it is.
    open spec fn spec_key(&self) -> u64 {
        arbitrary()
    }

    /// The states one step away, in the order in which a search meets them.
    /// Nothing is known of them unless the domain says what they are.
    open spec fn spec_successors(&self) -> Seq<Self> {
        arbitrary()
    }

    fn key(&self) -> (key: u64)
        requires
            self.valid(),
        ensures
            key == self.spec_key(),
    ;

    fn successors(&self) -> (successors: Vec<Self>)
        requires
            self.valid(),
        ensures
            successors@ == self.spec_successors(),
    ;
}

/// Valid states with one key are equal.
pub open spec fn keys_tell_apart<S: State>() -> bool {
    forall|a: S, b: S|
        #![trigger a.spec_key(), b.spec_key()]
        a.valid() && b.valid() && a.spec_key() == b.spec_key() ==> a == b
}

/// A step from a valid state leads to a valid state.
pub open spec fn steps_stay_valid<S: State>() -> bool {
    forall|state: S, i: int|
        state.valid() && 0 <= i < state.spec_successors().len() ==> (
        #[trigger] state.spec_successors()[i]).valid()
}

/// What a search needs of the state space: the keys tell the valid states
/// apart, and no step leaves the valid states.
pub open spec fn lawful<S: State>() -> bool {
    keys_tell_apart::<S>() && steps_stay_valid::<S>()
}

/// Valid states with one key are equal.
pub proof fn lemma_same_key<S: State>(a: S, b: S)
    requires
        lawful::<S>(),
        a.valid(),
        b.valid(),
        a.spec_key() == b.spec_key(),
    ensures
        a == b,
{
}

/// Every state lists each of its successors once.
pub open spec fn distinct_successors<S: State>() -> bool {
    forall|s: S| s.valid() ==> (#[trigger] s.spec_successors()).no_duplicates()
}

/// Each state of `path` but the last is valid and has the next one among its
/// successors.
pub open spec fn is_path<S: State>(path: Seq<S>) -> bool {
    forall|i: int|
        0 <= i < path.len() - 1 ==> (#[trigger] path[i]).valid() && path[i].spec_successors().contains(
            path[i + 1],
        )
}

/// `path` leads from `initial` to some state, step by step.
pub open spec fn is_path_from<S: State>(initial: S, path: Seq<S>) -> bool {
    &&& path.len() > 0
    &&& path[0] == initial
    &&& is_path(path)
}

/// Some path leads from `initial` to `state`.
pub open spec fn reachable<S: State>(initial: S, state: S) -> bool {
    exists|path: Seq<S>| #[trigger] is_path_from(initial, path) && path.last() == state
}

/// A path stays a path when a successor of its last state is added.
pub proof fn lemma_path_push<S: State>(path: Seq<S>, next: S)
    requires
        path.len() > 0,
        is_path(path),
        path.last().valid(),
        path.last().spec_successors().contains(next),
    ensures
        is_path(path.push(next)),
{
    let longer = path.push(next);
    assert forall|i: int| 0 <= i < longer.len() - 1 implies (#[trigger] longer[i]).valid()
        && longer[i].spec_successors().contains(longer[i + 1]) by {
        if i < path.len() - 1 {
            assert(path[i].valid());
        }
    }
}

/// Every state of a path that starts at a valid state is valid.
pub proof fn lemma_path_valid<S: State>(path: Seq<S>, i: int)
    requires
        lawful::<S>(),
        path.len() > 0,
        path[0].valid(),
        is_path(path),
        0 <= i < path.len(),
    ensures
        path[i].valid(),
    decreases i,
{
    if i > 0 {
        lemma_path_valid(path, i - 1);
        assert(path[i - 1].valid());
        let next = path[i - 1].spec_successors();
        let at = choose|m: int| 0 <= m < next.len() && #[trigger] next[m] == path[i];
        assert(next[at].valid());
    }
}

/// A node of the search tree: a state, how it was reached, and what the
/// search recorded of it.
pub enum Transition<S: State> {
    /// The root: the state that the search started from.
    Initial { state: Rc<S>, h: i32 },
    /// A state reached in one step from the state of `parent`.
    Intermediate { state: Rc<S>, parent: Rc<Transition<S>>, g: u32, index: u32, h: i32 },
}

impl<S: State> Transition<S> {
    pub open spec fn spec_state(&self) -> S {
        match self {
            Transition::Initial { state, .. } => **state,
            Transition::Intermediate { state, .. } => **state,
        }
    }

    pub open spec fn spec_parent(&self) -> Option<Transition<S>> {
        match self {
            Transition::Initial { .. } => None,
            Transition::Intermediate { parent, .. } => Some(**parent),
        }
    }

    pub open spec fn spec_h(&self) -> i32 {
        match self {
            Transition::Initial { h, .. } => *h,
            Transition::Intermediate { h, .. } => *h,
        }
    }

    pub open spec fn spec_g(&self) -> u32 {
        match self {
            Transition::Initial { .. } => 0,
            Transition::Intermediate { g, .. } => *g,
        }
    }

    pub open spec fn spec_index(&self) -> u32 {
        match self {
            Transition::Initial { .. } => 0,
            Transition::Intermediate { index, .. } => *index,
        }
    }

    /// The states from the root to this one.
    pub open spec fn path(&self) -> Seq<S>
        decreases self,
    {
        match self {
            Transition::Initial { state, .. } => seq![**state],
            Transition::Intermediate { state, parent, .. } => parent.path().push(**state),
        }
    }

    /// The state at the root.
    pub open spec fn root(&self) -> S
        decreases self,
    {
        match self {
            Transition::Initial { state, .. } => **state,
            Transition::Intermediate { parent, .. } => parent.root(),
        }
    }

    /// What holds of every transition that a search builds: its state is
    /// valid and a successor of its parent's state, `g` counts the steps from
    /// the root, and the index grows from parent to child.
    pub open spec fn wf(&self) -> bool
        decreases self,
    {
        match self {
            Transition::Initial { state, .. } => state.valid(),
            Transition::Intermediate { state, parent, g, index, .. } => {
                &&& parent.wf()
                &&& state.valid()
                &&& parent.spec_state().spec_successors().contains(**state)
                &&& *g == parent.spec_g() + 1
                &&& *index > parent.spec_index()
            },
        }
    }

    /// The path of a well-formed transition is a path of the state space, from
    /// the root to the transition's state, of `g` steps.
    pub proof fn lemma_path(&self)
        requires
            self.wf(),
        ensures
            is_path_from(self.root(), self.path()),
            self.path().last() == self.spec_state(),
            self.path().len() == self.spec_g() + 1,
            self.spec_g() <= self.spec_index(),
        decreases self,
    {
        match self {
            Transition::Initial { .. } => {},
            Transition::Intermediate { state, parent, .. } => {
                parent.lemma_path();
                lemma_path_push(parent.path(), **state);
            },
        }
    }

    pub fn new(initial: Rc<S>, h: i32) -> (transition: Transition<S>)
        ensures
            transition == (Transition::Initial { state: initial, h }),
    {
        Transition::Initial { state: initial, h }
    }

    pub fn state(&self) -> (state: &S)
        ensures
            *state == self.spec_state(),
    {
        match self {
            Transition::Initial { state, .. } => &**state,
            Transition::Intermediate { state, .. } => &**state,
        }
    }

    pub fn parent(&self) -> (parent: Option<&Transition<S>>)
        ensures
            match parent {
                Some(p) => self.spec_parent() == Some(*p),
                None => self.spec_parent().is_none(),
            },
    {
        match self {
            Transition::Intermediate { parent, .. } => Some(&**parent),
            Transition::Initial { .. } => None,
        }
    }

    #[verifier::when_used_as_spec(spec_h)]
    pub fn h(&self) -> (h: i32)
        ensures
            h == self.spec_h(),
    {
        match self {
            Transition::Initial { h, .. } => *h,
            Transition::Intermediate { h, .. } => *h,
        }
    }

    #[verifier::when_used_as_spec(spec_g)]
    pub fn g(&self) -> (g: u32)
        ensures
            g == self.spec_g(),
    {
        match self {
            Transition::Intermediate { g, .. } => *g,
            Transition::Initial { .. } => 0,
        }
    }

    #[verifier::when_used_as_spec(spec_index)]
    pub fn index(&self) -> (index: u32)
        ensures
            index == self.spec_index(),
    {
        match self {
            Transition::Intermediate { index, .. } => *index,
            Transition::Initial { .. } => 0,
        }
    }

    /// Whether two transitions lead to one state, however they got there.
    pub fn same_state(&self, other: &Transition<S>) -> (same: bool)
        requires
            lawful::<S>(),
            self.spec_state().valid(),
            other.spec_state().valid(),
        ensures
            same == (self.spec_state() == other.spec_state()),
    {
        proof {
            if self.spec_state().spec_key() == other.spec_state().spec_key() {
                lemma_same_key(self.spec_state(), other.spec_state());
            }
        }
        self.state().key() == other.state().key()
    }

    /// The transition one step below `parent`.
    pub fn successor(state: Rc<S>, parent: Rc<Transition<S>>, index: u32, h: i32) -> (transition:
        Transition<S>)
        requires
            parent.spec_g() < u32::MAX,
        ensures
            transition == (Transition::Intermediate {
                state,
                parent,
                g: (parent.spec_g() + 1) as u32,
                index,
                h,
            }),
    {
        let g = parent.g() + 1;
        Transition::Intermediate { state, g, parent, index, h }
    }
}

/// The value that orders the A* frontier: `g + h`, and the largest `i32`
/// where the sum is that large or larger.
pub open spec fn spec_a_star_eval(g: u32, h: i32) -> i32 {
    if g + h >= i32::MAX {
        i32::MAX
    } else {
        (g + h) as i32
    }
}

/// A* search considers both the distance travelled so far (g) and the
/// heuristic value (h); where h is so high that the sum leaves the range of
/// `i32`, as it is where a heuristic marks a state as hopeless, the largest
/// `i32` stands for the sum.
pub fn a_star_eval<S: State>(state_transition: &Transition<S>) -> (f: i32)
    ensures
        f == spec_a_star_eval(state_transition.spec_g(), state_transition.spec_h()),
{
    let h = state_transition.h();
    let g = state_transition.g();
    let sum: i64 = h as i64 + g as i64;
    if sum >= i32::MAX as i64 {
        i32::MAX
    } else {
        sum as i32
    }
}

} // verus!
