//! Search strategies over a state space that the caller supplies, and the
//! 8-puzzle solved with them.
use crate::board::Board;
use crate::board::distance_sum;
use crate::board::goal;
use crate::board::goal_tiles;
use crate::board::tiles_text;
use crate::closed::MAX_TRANSITIONS;
use crate::queue::oldest_first;
use crate::run::Moment;
use crate::run::run;
use crate::search::SearchConfig;
use crate::search::SearchResult;
use crate::search::State;
use crate::search::Statistics;
use crate::search::a_star_rule;
use crate::search::blind_heuristic;
use crate::search::greedy_rule;
use crate::search::outcome;
use crate::text::decimal;
use crate::text::push_decimal;
use crate::transition::Transition;
use crate::transition::is_path_from;
use crate::transition::lawful;
use crate::transition::reachable;
use std::rc::Rc;
use vstd::prelude::*;

pub mod board;
pub mod clock;
pub mod closed;
pub mod heap;
pub mod input;
pub mod order;
pub mod progress;
pub mod queue;
pub mod run;
pub mod search;
pub mod text;
pub mod transition;

verus! {

/// The boards as states of the search.
pub open spec fn as_states(boards: Seq<Board>) -> Seq<BoardState> {
    boards.map_values(|board: Board| BoardState { board })
}

/// A board as a state of the search.
#[derive(Hash, Debug, Copy, Clone, Eq, PartialEq)]
pub struct BoardState {
    pub board: Board,
}

impl BoardState {
    pub fn new(board: Board) -> (state: BoardState)
        ensures
            state.board == board,
    {
        BoardState { board }
    }
}

impl State for BoardState {
    /// The blank is where the board says, and the tiles are `0` to `8`.
    open spec fn valid(&self) -> bool {
        self.board.wf() && self.board.in_range()
    }

    open spec fn spec_key(&self) -> u64 {
        self.board.spec_key() as u64
    }

    open spec fn spec_successors(&self) -> Seq<Self> {
        as_states(self.board.spec_successors())
    }

    fn key(&self) -> (key: u64) {
        proof {
            self.board.lemma_key_bound();
        }
        self.board.key()
    }

    fn successors(&self) -> (successors: Vec<Self>) {
        let boards = self.board.successors();
        let mut successors: Vec<BoardState> = Vec::with_capacity(boards.len());
        let mut next: usize = 0;
        while next < boards.len()
            invariant
                next <= boards.len(),
                successors@ == as_states(boards@.take(next as int)),
            decreases boards.len() - next,
        {
            successors.push(BoardState::new(boards[next]));
            proof {
                assert(as_states(boards@.take(next + 1))
                    =~= as_states(boards@.take(next as int)).push(BoardState { board: boards@[next as int] }));
            }
            next = next + 1;
        }
        assert(boards@.take(boards.len() as int) =~= boards@);
        successors
    }
}

/// Board states are states as a search needs them.
pub proof fn lemma_lawful()
    ensures
        lawful::<BoardState>(),
{
    assert forall|a: BoardState, b: BoardState|
        #![trigger a.spec_key(), b.spec_key()]
        a.valid() && b.valid() && a.spec_key() == b.spec_key() implies a == b by {
        a.board.lemma_key_bound();
        b.board.lemma_key_bound();
        Board::lemma_key_injective(a.board, b.board);
    }
    assert forall|state: BoardState, i: int|
        state.valid() && 0 <= i < state.spec_successors().len() implies (
    #[trigger] state.spec_successors()[i]).valid() by {
        state.board.lemma_successor(i);
    }
}

/// Whether the board of `candidate` is the goal.
pub fn goal_check(candidate: &BoardState) -> (goal: bool)
    ensures
        goal == (candidate.board@ == goal_tiles()),
{
    candidate.board == goal()
}

/// The estimate that the searches use: the Manhattan distance of the board
/// from the goal.
pub fn manhattan_distance_heuristic(state: &BoardState) -> (h: i32)
    requires
        state.board.in_range(),
    ensures
        h == distance_sum(state.board@, 9),
{
    state.board.manhattan_dist()
}

/// `plan` solves the puzzle from `board`: it starts with `board`, each of its
/// boards but the last has its blank in place and the next board among its
/// successors, and the last board is the goal.
pub open spec fn is_solution(board: Board, plan: Seq<Board>) -> bool {
    &&& plan.len() > 0
    &&& plan[0] == board
    &&& plan.last()@ == goal_tiles()
    &&& forall|i: int|
        0 <= i < plan.len() - 1 ==> (#[trigger] plan[i]).wf() && plan[i].spec_successors().contains(
            plan[i + 1],
        )
}

/// Some sequence of moves solves the puzzle from `board`.
pub open spec fn solvable(board: Board) -> bool {
    exists|plan: Seq<Board>| #[trigger] is_solution(board, plan)
}

/// What the strategies promise on the puzzle.
///
/// A plan, where one is returned, solves the puzzle. From the goal board the
/// plan is that board alone, and nothing was expanded. A search that does not
/// climb hills and returns no plan has either found that the puzzle cannot be
/// solved from `board`, or has used up the indices that transitions can have.
pub open spec fn solved(
    board: Board,
    ehc: bool,
    plan: Option<Vec<Board>>,
    statistics: Statistics,
) -> bool {
    &&& statistics.wf()
    &&& 1 <= statistics.spec_created() <= MAX_TRANSITIONS
    &&& statistics.spec_queued() == statistics.spec_created()
    &&& match plan {
        Some(boards) => is_solution(board, boards@),
        None => statistics.spec_created() < MAX_TRANSITIONS && !ehc ==> !solvable(board),
    }
    &&& board@ == goal_tiles() ==> {
        &&& plan matches Some(boards)
        &&& boards@ == seq![board]
        &&& statistics.spec_expanded() == 0
        &&& statistics.spec_created() == 1
    }
}

/// `plan` is the plan of `result`, board for state.
pub open spec fn boards_of(result: SearchResult<BoardState>, plan: Option<Vec<Board>>) -> bool {
    match result.plan {
        Some(plan_states) => plan matches Some(boards) && as_states(boards@) == plan_states@,
        None => plan.is_none(),
    }
}

/// `plan` and `statistics` are what a search from `board` returns that runs
/// under the given configuration, with the given heuristic and frontier
/// rule.
pub open spec fn searched<H: Fn(&BoardState) -> i32>(
    heuristic: H,
    config: SearchConfig,
    rule: spec_fn(Seq<Rc<Transition<BoardState>>>, int) -> bool,
    board: Board,
    plan: Option<Vec<Board>>,
    statistics: Statistics,
) -> bool {
    exists|result: SearchResult<BoardState>, moments: Seq<Moment<BoardState>>| #[trigger]
        run(heuristic, goal_check, config, rule, BoardState { board }, moments, result)
            && result.statistics == statistics && boards_of(result, plan)
}

/// The states of a solution are a path of the search.
proof fn lemma_solution_path(board: Board, plan: Seq<Board>)
    requires
        board.wf(),
        board.in_range(),
        is_solution(board, plan),
    ensures
        is_path_from(
            BoardState { board },
            as_states(plan),
        ),
{
    let states = as_states(plan);
    assert forall|i: int| 0 <= i < plan.len() implies (#[trigger] plan[i]).in_range() by {
        lemma_solution_range(board, plan, i);
    }
    assert forall|i: int| 0 <= i < states.len() - 1 implies (#[trigger] states[i]).valid()
        && states[i].spec_successors().contains(states[i + 1]) by {
        assert(plan[i].wf());
        let next = plan[i].spec_successors();
        let m = choose|m: int| 0 <= m < next.len() && #[trigger] next[m] == plan[i + 1];
        assert(states[i].spec_successors()[m] == states[i + 1]);
    }
}

/// Every board of a solution has tiles from `0` to `8` where the first has.
proof fn lemma_solution_range(board: Board, plan: Seq<Board>, i: int)
    requires
        board.in_range(),
        is_solution(board, plan),
        0 <= i < plan.len(),
    ensures
        plan[i].in_range(),
    decreases i,
{
    if i > 0 {
        lemma_solution_range(board, plan, i - 1);
        assert(plan[i - 1].wf());
        let next = plan[i - 1].spec_successors();
        let m = choose|m: int| 0 <= m < next.len() && #[trigger] next[m] == plan[i];
        plan[i - 1].lemma_successor(m);
    }
}

/// Turns the result of a search over board states into boards. The
/// statistics pass through for the caller to show.
pub fn process_result(result: SearchResult<BoardState>) -> (processed: (
    Option<Vec<Board>>,
    Statistics,
))
    ensures
        processed.1 == result.statistics,
        boards_of(result, processed.0),
{
    match result.plan {
        Some(plan_states) => {
            let mut plan: Vec<Board> = Vec::with_capacity(plan_states.len());
            let mut next: usize = 0;
            while next < plan_states.len()
                invariant
                    next <= plan_states.len(),
                    plan@.len() == next,
                    as_states(plan@) == plan_states@.take(
                        next as int,
                    ),
                decreases plan_states.len() - next,
            {
                let state = plan_states[next];
                let ghost before = plan@;
                plan.push(state.board);
                proof {
                    assert forall|i: int| 0 <= i < next + 1 implies as_states(plan@)[i]
                        == plan_states@.take(next + 1)[i] by {
                        if i < next {
                            assert(as_states(before)[i] == plan_states@.take(next as int)[i]);
                            assert(plan@[i] == before[i]);
                        }
                    }
                    assert(as_states(plan@) =~= plan_states@.take(next + 1));
                }
                next = next + 1;
            }
            assert(plan_states@.take(plan_states.len() as int) =~= plan_states@);
            (Some(plan), result.statistics)
        },
        None => (None, result.statistics),
    }
}

/// Carries what a search promises over to the puzzle.
proof fn lemma_solved(
    board: Board,
    ehc: bool,
    result: SearchResult<BoardState>,
    plan: Option<Vec<Board>>,
)
    requires
        board.wf(),
        board.in_range(),
        outcome(BoardState { board }, goal_check, ehc, result),
        boards_of(result, plan),
    ensures
        solved(board, ehc, plan, result.statistics),
{
    let initial = BoardState { board };
    let wrap = |board: Board| BoardState { board };
    assert(forall|boards: Seq<Board>| #[trigger] as_states(boards) == boards.map_values(wrap));
    match result.plan {
        Some(plan_states) => {
            let boards = plan->Some_0@;
            let states = plan_states@;
            assert(boards.len() == states.len());
            assert(states[0] == wrap(boards[0]));
            assert(states.last() == wrap(boards.last()));
            assert forall|i: int| 0 <= i < boards.len() - 1 implies (#[trigger] boards[i]).wf()
                && boards[i].spec_successors().contains(boards[i + 1]) by {
                assert(states[i] == wrap(boards[i]));
                assert(states[i + 1] == wrap(boards[i + 1]));
                assert(states[i].valid());
                let next = states[i].spec_successors();
                let m = choose|m: int| 0 <= m < next.len() && #[trigger] next[m] == states[i + 1];
                assert(boards[i].spec_successors()[m] == boards[i + 1]);
            }
            if board@ == goal_tiles() {
                assert(states =~= seq![initial]);
                assert(boards =~= seq![board]);
            }
        },
        None => {
            if result.statistics.spec_created() < MAX_TRANSITIONS && !ehc && solvable(board) {
                let solution = choose|solution: Seq<Board>| #[trigger] is_solution(board, solution);
                lemma_solution_path(board, solution);
                let path = as_states(solution);
                assert(is_path_from(initial, path) && path.last() == wrap(solution.last()));
                assert(reachable(initial, wrap(solution.last())));
                assert(call_ensures(goal_check, (&wrap(solution.last()),), false));
            }
        },
    }
}

/// The first `n` boards as text, a line feed behind each.
pub open spec fn boards_text(boards: Seq<Board>, n: int) -> Seq<char>
    decreases n,
{
    if n <= 0 {
        seq![]
    } else {
        boards_text(boards, n - 1) + tiles_text(boards[n - 1]@, 9) + seq!['\n']
    }
}

/// What there is to say of the outcome of a search: the number of moves of
/// the plan and its boards, one after the other, or that there is no plan.
pub open spec fn plan_text(plan_opt: Option<Vec<Board>>) -> Seq<char> {
    match plan_opt {
        Some(plan) => "Found plan of "@ + decimal((plan@.len() - 1) as nat) + " steps\n"@
            + boards_text(plan@, plan@.len() as int),
        None => "Plan not found!\n"@,
    }
}

/// The text that reports the outcome of a search.
pub fn process_plan(plan_opt: &Option<Vec<Board>>) -> (text: String)
    requires
        plan_opt matches Some(plan) ==> plan@.len() > 0,
    ensures
        text@ == plan_text(*plan_opt),
{
    let mut text = String::new();
    match plan_opt {
        Some(plan) => {
            text.push_str("Found plan of ");
            push_decimal(&mut text, (plan.len() - 1) as u64);
            text.push_str(" steps\n");
            let ghost head = text@;
            let mut next: usize = 0;
            while next < plan.len()
                invariant
                    next <= plan.len(),
                    text@ == head + boards_text(plan@, next as int),
                decreases plan.len() - next,
            {
                let ghost before = text@;
                let board_text = plan[next].to_text();
                text.push_str(board_text.as_str());
                text.push('\n');
                assert(text@ =~= head + boards_text(plan@, next + 1));
                next = next + 1;
            }
        },
        None => {
            text.push_str("Plan not found!\n");
        },
    }
    text
}

/// No sequence of moves shorter than `length` boards solves the puzzle from
/// `board`.
pub open spec fn no_shorter_solution(board: Board, length: nat) -> bool {
    forall|other: Seq<Board>| #[trigger] is_solution(board, other) ==> length <= other.len()
}

/// Breadth-first search on the puzzle. The plan that it returns is a
/// shortest one.
pub fn breadth_first_search(board: Board) -> (found: (Option<Vec<Board>>, Statistics))
    requires
        board.wf(),
        board.in_range(),
    ensures
        solved(board, false, found.0, found.1),
        found.0 matches Some(boards) ==> no_shorter_solution(board, boards@.len()),
        searched(blind_heuristic::<BoardState>, SearchConfig::blind(), oldest_first::<Transition<BoardState>>(), board, found.0, found.1),
{
    let initial_state = BoardState::new(board);
    proof {
        lemma_lawful();
    }
    let result = search::breadth_first_search(&initial_state, goal_check);
    let found = process_result(result);
    proof {
        let moments = choose|moments: Seq<Moment<BoardState>>| #[trigger]
            run(blind_heuristic::<BoardState>, goal_check, SearchConfig::blind(), oldest_first::<Transition<BoardState>>(), initial_state, moments, result);
        assert(run(blind_heuristic::<BoardState>, goal_check, SearchConfig::blind(), oldest_first::<Transition<BoardState>>(), BoardState { board }, moments, result));
        lemma_solved(board, false, result, found.0);
        if found.0.is_some() {
            let boards = found.0->Some_0;
            assert(as_states(boards@).len() == boards@.len());
            assert forall|other: Seq<Board>| #[trigger]
                is_solution(board, other) implies boards@.len() <= other.len() by {
                if other.len() < boards@.len() {
                    lemma_solution_path(board, other);
                    let path = as_states(other);
                    assert(path.last() == BoardState { board: other.last() });
                    assert(call_ensures(goal_check, (&path.last(),), false));
                }
            }
        }
    }
    found
}

/// Enforced hill climbing on the puzzle, by Manhattan distance.
pub fn ehc_search(board: Board) -> (found: (Option<Vec<Board>>, Statistics))
    requires
        board.wf(),
        board.in_range(),
    ensures
        solved(board, true, found.0, found.1),
        searched(manhattan_distance_heuristic, SearchConfig::ehc(), oldest_first::<Transition<BoardState>>(), board, found.0, found.1),
{
    let initial_state = BoardState::new(board);
    proof {
        lemma_lawful();
    }
    let result = search::ehc_search(&initial_state, manhattan_distance_heuristic, goal_check);
    let found = process_result(result);
    proof {
        let moments = choose|moments: Seq<Moment<BoardState>>| #[trigger]
            run(manhattan_distance_heuristic, goal_check, SearchConfig::ehc(), oldest_first::<Transition<BoardState>>(), initial_state, moments, result);
        assert(run(manhattan_distance_heuristic, goal_check, SearchConfig::ehc(), oldest_first::<Transition<BoardState>>(), BoardState { board }, moments, result));
        lemma_solved(board, true, result, found.0);
    }
    found
}

/// Steepest-ascent hill climbing on the puzzle, by Manhattan distance.
pub fn ehc_steepest_search(board: Board) -> (found: (Option<Vec<Board>>, Statistics))
    requires
        board.wf(),
        board.in_range(),
    ensures
        solved(board, true, found.0, found.1),
        searched(manhattan_distance_heuristic, SearchConfig::ehc_steepest_ascent(), oldest_first::<Transition<BoardState>>(), board, found.0, found.1),
{
    let initial_state = BoardState::new(board);
    proof {
        lemma_lawful();
    }
    let result = search::ehc_steepest_search(
        &initial_state,
        manhattan_distance_heuristic,
        goal_check,
    );
    let found = process_result(result);
    proof {
        let moments = choose|moments: Seq<Moment<BoardState>>| #[trigger]
            run(manhattan_distance_heuristic, goal_check, SearchConfig::ehc_steepest_ascent(), oldest_first::<Transition<BoardState>>(), initial_state, moments, result);
        assert(run(manhattan_distance_heuristic, goal_check, SearchConfig::ehc_steepest_ascent(), oldest_first::<Transition<BoardState>>(), BoardState { board }, moments, result));
        lemma_solved(board, true, result, found.0);
    }
    found
}

/// Greedy best-first search on the puzzle, by Manhattan distance.
pub fn greedy_best_first_search(board: Board) -> (found: (Option<Vec<Board>>, Statistics))
    requires
        board.wf(),
        board.in_range(),
    ensures
        solved(board, false, found.0, found.1),
        searched(manhattan_distance_heuristic, SearchConfig::default(), greedy_rule::<BoardState>(), board, found.0, found.1),
{
    let initial_state = BoardState::new(board);
    proof {
        lemma_lawful();
    }
    let result = search::greedy_best_first_search(
        &initial_state,
        manhattan_distance_heuristic,
        goal_check,
    );
    let found = process_result(result);
    proof {
        let moments = choose|moments: Seq<Moment<BoardState>>| #[trigger]
            run(manhattan_distance_heuristic, goal_check, SearchConfig::default(), greedy_rule::<BoardState>(), initial_state, moments, result);
        assert(run(manhattan_distance_heuristic, goal_check, SearchConfig::default(), greedy_rule::<BoardState>(), BoardState { board }, moments, result));
        lemma_solved(board, false, result, found.0);
    }
    found
}

/// A* on the puzzle, by Manhattan distance.
pub fn a_star_search(board: Board) -> (found: (Option<Vec<Board>>, Statistics))
    requires
        board.wf(),
        board.in_range(),
    ensures
        solved(board, false, found.0, found.1),
        searched(manhattan_distance_heuristic, SearchConfig::default(), a_star_rule::<BoardState>(), board, found.0, found.1),
{
    let initial_state = BoardState::new(board);
    proof {
        lemma_lawful();
    }
    let result = search::a_star_search(&initial_state, manhattan_distance_heuristic, goal_check);
    let found = process_result(result);
    proof {
        let moments = choose|moments: Seq<Moment<BoardState>>| #[trigger]
            run(manhattan_distance_heuristic, goal_check, SearchConfig::default(), a_star_rule::<BoardState>(), initial_state, moments, result);
        assert(run(manhattan_distance_heuristic, goal_check, SearchConfig::default(), a_star_rule::<BoardState>(), BoardState { board }, moments, result));
        lemma_solved(board, false, result, found.0);
    }
    found
}

} // verus!
