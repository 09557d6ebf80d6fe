use std::collections::VecDeque;
use std::rc::Rc;
use tiles::closed::seen_and_better;
use tiles::closed::Explored;
use tiles::closed::MAX_TRANSITIONS;
use tiles::order::arrange;
use tiles::order::sort_by_estimate;
use tiles::queue::Fifo;
use tiles::queue::PriorityCmp;
use tiles::queue::Queue;
use tiles::search::a_star_order;
use tiles::search::a_star_search;
use tiles::search::blind_heuristic;
use tiles::search::candidates;
use tiles::search::breadth_first_search;
use tiles::search::ehc_search;
use tiles::search::ehc_steepest_search;
use tiles::search::extract_plan;
use tiles::search::greedy_best_first_search;
use tiles::search::greedy_order;
use tiles::search::search;
use tiles::search::survivors;
use tiles::search::SearchConfig;
use tiles::search::SearchResult;
use tiles::search::State;
use tiles::search::Transition;
use tiles::transition::a_star_eval;

const GOAL: i32 = 5;

/// A number; one step adds one, two or three.
#[derive(Hash, Debug, Copy, Clone, Eq, PartialEq)]
struct Number {
    value: i32,
}

impl State for Number {
    fn key(&self) -> u64 {
        self.value as u32 as u64
    }

    fn successors(&self) -> Vec<Self> {
        vec![
            Number { value: self.value + 1 },
            Number { value: self.value + 2 },
            Number { value: self.value + 3 },
        ]
    }
}

/// A position on a ring of four; one step leads to the next position.
#[derive(Debug, Copy, Clone, Eq, PartialEq)]
struct Ring {
    at: u8,
}

impl State for Ring {
    fn key(&self) -> u64 {
        self.at as u64
    }

    fn successors(&self) -> Vec<Self> {
        vec![Ring { at: (self.at + 1) % 4 }]
    }
}

/// A state that lists one successor twice.
#[derive(Debug, Copy, Clone, Eq, PartialEq)]
struct Twice {
    at: u8,
}

impl State for Twice {
    fn key(&self) -> u64 {
        self.at as u64
    }

    fn successors(&self) -> Vec<Self> {
        if self.at < 3 {
            vec![Twice { at: self.at + 1 }, Twice { at: self.at + 1 }]
        } else {
            vec![]
        }
    }
}

fn distance(state: &Number) -> i32 {
    if state.value > GOAL {
        i32::MAX
    } else {
        GOAL - state.value
    }
}

fn is_goal(state: &Number) -> bool {
    state.value == GOAL
}

fn never(_: &Ring) -> bool {
    false
}

fn numbers(plan: &VecDeque<Number>) -> Vec<i32> {
    plan.iter().map(|state| state.value).collect()
}

fn expect_sound(result: &SearchResult<Number>, initial: Number) {
    let plan = result.plan.as_ref().unwrap();
    assert_eq!(*plan.front().unwrap(), initial);
    assert!(is_goal(plan.back().unwrap()));
    for i in 0..plan.len() - 1 {
        assert!(plan[i].successors().contains(&plan[i + 1]));
    }
    let statistics = &result.statistics;
    assert!(statistics.queued() <= statistics.created());
    assert!(statistics.expanded() <= statistics.queued());
    assert!(statistics.created() <= MAX_TRANSITIONS);
}

#[test]
fn every_strategy_returns_a_sound_plan() {
    let initial = Number { value: 0 };
    expect_sound(&breadth_first_search(&initial, is_goal), initial);
    expect_sound(&ehc_search(&initial, distance, is_goal), initial);
    expect_sound(&ehc_steepest_search(&initial, distance, is_goal), initial);
    expect_sound(&greedy_best_first_search(&initial, distance, is_goal), initial);
    expect_sound(&a_star_search(&initial, distance, is_goal), initial);
}

#[test]
fn every_strategy_is_sound_from_below_zero() {
    let initial = Number { value: -7 };
    expect_sound(&breadth_first_search(&initial, is_goal), initial);
    expect_sound(&ehc_search(&initial, distance, is_goal), initial);
    expect_sound(&ehc_steepest_search(&initial, distance, is_goal), initial);
    expect_sound(&greedy_best_first_search(&initial, distance, is_goal), initial);
    expect_sound(&a_star_search(&initial, distance, is_goal), initial);
}

#[test]
fn breadth_first_plan_is_shortest() {
    let result = breadth_first_search(&Number { value: 0 }, is_goal);
    assert_eq!(numbers(&result.plan.unwrap()), vec![0, 2, 5]);
    let result = breadth_first_search(&Number { value: -7 }, is_goal);
    assert_eq!(result.plan.unwrap().len(), 5);
    let result = breadth_first_search(&Number { value: 4 }, is_goal);
    assert_eq!(numbers(&result.plan.unwrap()), vec![4, 5]);
}

#[test]
fn breadth_first_counts_what_it_creates() {
    let result = breadth_first_search(&Number { value: 0 }, is_goal);
    assert_eq!(result.statistics.created(), 8);
    assert_eq!(result.statistics.queued(), 8);
    assert_eq!(result.statistics.expanded(), 5);
}

#[test]
fn hill_climbing_restarts_from_the_first_improvement() {
    let result = ehc_search(&Number { value: 0 }, distance, is_goal);
    assert_eq!(numbers(&result.plan.unwrap()), vec![0, 1, 2, 3, 4, 5]);
    assert_eq!(result.statistics.created(), 6);
    assert_eq!(result.statistics.queued(), 6);
    assert_eq!(result.statistics.expanded(), 5);
}

#[test]
fn steepest_ascent_restarts_from_the_best_improvement() {
    let result = ehc_steepest_search(&Number { value: 0 }, distance, is_goal);
    assert_eq!(numbers(&result.plan.unwrap()), vec![0, 3, 5]);
    assert_eq!(result.statistics.created(), 3);
    assert_eq!(result.statistics.queued(), 3);
    assert_eq!(result.statistics.expanded(), 2);
}

#[test]
fn greedy_follows_the_least_estimate() {
    let result = greedy_best_first_search(&Number { value: 0 }, distance, is_goal);
    assert_eq!(numbers(&result.plan.unwrap()), vec![0, 3, 5]);
    assert_eq!(result.statistics.created(), 7);
    assert_eq!(result.statistics.expanded(), 2);
}

#[test]
fn a_star_follows_the_least_sum() {
    let result = a_star_search(&Number { value: 0 }, distance, is_goal);
    assert_eq!(numbers(&result.plan.unwrap()), vec![0, 3, 5]);
    assert_eq!(result.statistics.created(), 7);
    assert_eq!(result.statistics.expanded(), 2);
}

#[test]
fn a_star_without_estimates_is_breadth_first() {
    let result = a_star_search(&Number { value: 0 }, |_: &Number| 0, is_goal);
    assert_eq!(numbers(&result.plan.unwrap()), vec![0, 2, 5]);
    assert_eq!(result.statistics.created(), 8);
    assert_eq!(result.statistics.expanded(), 5);
}

#[test]
fn goal_at_the_start_gives_a_plan_of_one_state() {
    let initial = Number { value: GOAL };
    let results = vec![
        breadth_first_search(&initial, is_goal),
        ehc_search(&initial, distance, is_goal),
        ehc_steepest_search(&initial, distance, is_goal),
        greedy_best_first_search(&initial, distance, is_goal),
        a_star_search(&initial, distance, is_goal),
    ];
    for result in results {
        assert_eq!(numbers(&result.plan.unwrap()), vec![GOAL]);
        assert_eq!(result.statistics.expanded(), 0);
        assert_eq!(result.statistics.created(), 1);
        assert_eq!(result.statistics.queued(), 1);
    }
}

#[test]
fn no_plan_where_the_goal_is_out_of_reach() {
    let initial = Ring { at: 2 };
    let results = vec![
        breadth_first_search(&initial, never),
        ehc_search(&initial, |_: &Ring| 0, never),
        ehc_steepest_search(&initial, |_: &Ring| 0, never),
        greedy_best_first_search(&initial, |_: &Ring| 0, never),
        a_star_search(&initial, |_: &Ring| 0, never),
    ];
    for result in results {
        assert!(result.plan.is_none());
        assert_eq!(result.statistics.created(), 4);
        assert_eq!(result.statistics.queued(), 4);
        assert_eq!(result.statistics.expanded(), 4);
    }
}

#[test]
fn no_plan_where_hill_climbing_drops_the_way() {
    let uphill = |state: &Ring| 3 - state.at as i32;
    let result = ehc_search(&Ring { at: 0 }, uphill, |state: &Ring| state.at == 9);
    assert!(result.plan.is_none());
    assert_eq!(result.statistics.created(), 4);
}

#[test]
fn a_state_without_successors_ends_the_search() {
    let result = breadth_first_search(&Twice { at: 3 }, |state: &Twice| state.at == 0);
    assert!(result.plan.is_none());
    assert_eq!(result.statistics.created(), 1);
    assert_eq!(result.statistics.expanded(), 1);
}

#[test]
fn a_successor_listed_twice_is_created_twice() {
    let result = breadth_first_search(&Twice { at: 0 }, |state: &Twice| state.at == 2);
    let plan = result.plan.unwrap();
    assert_eq!(plan.len(), 3);
    assert_eq!(result.statistics.created(), 5);
    assert_eq!(result.statistics.expanded(), 3);
}

#[test]
fn the_driver_takes_a_priority_frontier_with_hill_climbing() {
    let initial = Number { value: 0 };
    let mut queue = PriorityCmp::new(a_star_order::<Number>);
    let result = search(&initial, distance, is_goal, &mut queue, SearchConfig::ehc());
    expect_sound(&result, initial);
    assert_eq!(numbers(&result.plan.unwrap()), vec![0, 1, 2, 3, 4, 5]);
    assert!(queue.is_empty());
}

#[test]
fn the_driver_leaves_what_it_did_not_expand() {
    let initial = Number { value: 0 };
    let mut queue = Fifo::new();
    let result = search(&initial, blind_heuristic, is_goal, &mut queue, SearchConfig::blind());
    assert_eq!(result.statistics.created(), 8);
    assert_eq!(queue.len(), 2);
    assert_eq!(queue.dequeue().unwrap().state().value, 6);
    assert_eq!(queue.dequeue().unwrap().state().value, 7);
}

#[test]
fn configurations_of_the_strategies() {
    let config = SearchConfig::default();
    assert!(config.compute_heuristic && !config.ehc && !config.best_first_successors);
    let config = SearchConfig::blind();
    assert!(!config.compute_heuristic && !config.ehc && !config.best_first_successors);
    let config = SearchConfig::ehc();
    assert!(config.compute_heuristic && config.ehc && !config.best_first_successors);
    let config = SearchConfig::ehc_steepest_ascent();
    assert!(config.compute_heuristic && config.ehc && config.best_first_successors);
}

#[test]
fn blind_heuristic_is_zero() {
    assert_eq!(blind_heuristic(&Number { value: 3 }), 0);
    assert_eq!(blind_heuristic(&Number { value: -3 }), 0);
}

fn chain() -> (Rc<Transition<Number>>, Rc<Transition<Number>>, Rc<Transition<Number>>) {
    let root = Rc::new(Transition::new(Rc::new(Number { value: 0 }), 5));
    let child =
        Rc::new(Transition::successor(Rc::new(Number { value: 2 }), Rc::clone(&root), 4, 3));
    let grandchild =
        Rc::new(Transition::successor(Rc::new(Number { value: 5 }), Rc::clone(&child), 9, 0));
    (root, child, grandchild)
}

#[test]
fn transitions_record_depth_index_and_estimate() {
    let (root, child, grandchild) = chain();
    assert_eq!((root.g(), root.index(), root.h()), (0, 0, 5));
    assert_eq!((child.g(), child.index(), child.h()), (1, 4, 3));
    assert_eq!((grandchild.g(), grandchild.index(), grandchild.h()), (2, 9, 0));
    assert_eq!(*grandchild.state(), Number { value: 5 });
    assert!(root.parent().is_none());
    assert_eq!(*child.parent().unwrap().state(), Number { value: 0 });
    assert_eq!(*grandchild.parent().unwrap().state(), Number { value: 2 });
}

#[test]
fn transitions_to_one_state_are_the_same_state() {
    let (root, child, _) = chain();
    let other = Transition::successor(Rc::new(Number { value: 2 }), Rc::clone(&child), 7, 1);
    assert!(child.same_state(&other));
    assert!(!child.same_state(&root));
}

#[test]
fn plan_is_read_from_the_root_down() {
    let (root, child, grandchild) = chain();
    assert_eq!(numbers(&extract_plan(&grandchild)), vec![0, 2, 5]);
    assert_eq!(numbers(&extract_plan(&child)), vec![0, 2]);
    assert_eq!(numbers(&extract_plan(&root)), vec![0]);
}

#[test]
fn a_star_value_is_the_sum() {
    let (root, child, grandchild) = chain();
    assert_eq!(a_star_eval(&root), 5);
    assert_eq!(a_star_eval(&child), 4);
    assert_eq!(a_star_eval(&grandchild), 2);
}

#[test]
fn a_star_value_stops_at_the_largest_number() {
    let root = Rc::new(Transition::new(Rc::new(Number { value: 0 }), i32::MAX));
    assert_eq!(a_star_eval(&root), i32::MAX);
    let child = Transition::successor(Rc::new(Number { value: 1 }), Rc::clone(&root), 1, i32::MAX);
    assert_eq!(a_star_eval(&child), i32::MAX);
    let near = Transition::successor(Rc::new(Number { value: 1 }), root, 1, i32::MAX - 1);
    assert_eq!(a_star_eval(&near), i32::MAX);
    let below = Transition::new(Rc::new(Number { value: 0 }), i32::MAX - 1);
    assert_eq!(a_star_eval(&below), i32::MAX - 1);
}

#[test]
fn a_star_value_takes_a_negative_estimate() {
    let root = Rc::new(Transition::new(Rc::new(Number { value: 0 }), -4));
    assert_eq!(a_star_eval(&root), -4);
    let child = Transition::successor(Rc::new(Number { value: 1 }), root, 1, i32::MIN);
    assert_eq!(a_star_eval(&child), i32::MIN + 1);
}

#[test]
fn ranks_of_the_priority_strategies() {
    let (_, child, _) = chain();
    assert_eq!(greedy_order(&child), (3, 0));
    assert_eq!(a_star_order(&child), (4, 3));
}

#[test]
fn closed_set_rules_out_equal_or_longer_ways() {
    let (root, child, _) = chain();
    let mut explored = Explored::start(Rc::clone(&root));
    let two = explored.record(Number { value: 2 }, &root, 3);
    assert_eq!(two.g(), 1);
    let seen = explored.closed();
    assert!(seen_and_better(seen, &Number { value: 2 }, 1));
    assert!(seen_and_better(seen, &Number { value: 2 }, 2));
    assert!(!seen_and_better(seen, &Number { value: 2 }, 0));
    assert!(seen_and_better(seen, &Number { value: 0 }, 0));
    assert!(!seen_and_better(seen, &Number { value: 3 }, 100));
    assert_eq!(*child.state(), Number { value: 2 });
}

#[test]
fn record_gives_each_transition_the_next_index() {
    let root = Rc::new(Transition::new(Rc::new(Number { value: 0 }), 5));
    let mut explored = Explored::start(Rc::clone(&root));
    assert_eq!(explored.last_index(), 0);
    let one = explored.record(Number { value: 1 }, &root, 4);
    let two = explored.record(Number { value: 2 }, &root, 3);
    let three = explored.record(Number { value: 3 }, &one, 2);
    assert_eq!((one.index(), two.index(), three.index()), (1, 2, 3));
    assert_eq!((one.g(), two.g(), three.g()), (1, 1, 2));
    assert_eq!((one.h(), two.h(), three.h()), (4, 3, 2));
    assert_eq!(explored.last_index(), 3);
    assert_eq!(*three.parent().unwrap().state(), Number { value: 1 });
}

#[test]
fn record_replaces_the_entry_of_the_state() {
    let root = Rc::new(Transition::new(Rc::new(Number { value: 0 }), 5));
    let mut explored = Explored::start(Rc::clone(&root));
    assert!(explored.lookup(&Number { value: 3 }).is_none());
    let one = explored.record(Number { value: 1 }, &root, 4);
    let far = explored.record(Number { value: 3 }, &one, 2);
    assert!(Rc::ptr_eq(explored.lookup(&Number { value: 3 }).unwrap(), &far));
    let near = explored.record(Number { value: 3 }, &root, 2);
    assert!(Rc::ptr_eq(explored.lookup(&Number { value: 3 }).unwrap(), &near));
    assert_eq!(explored.lookup(&Number { value: 3 }).unwrap().g(), 1);
    assert!(Rc::ptr_eq(explored.lookup(&Number { value: 0 }).unwrap(), &root));
    assert_eq!(explored.closed().len(), 3);
}

#[test]
fn survivors_are_the_successors_not_ruled_out() {
    let root = Rc::new(Transition::new(Rc::new(Number { value: 0 }), 5));
    let mut explored = Explored::start(Rc::clone(&root));
    let one = explored.record(Number { value: 1 }, &root, 4);
    let _four = explored.record(Number { value: 4 }, &one, 1);
    let successors = Number { value: 1 }.successors();
    let kept = survivors(successors.clone(), explored.closed(), 2);
    assert_eq!(kept, vec![Number { value: 2 }, Number { value: 3 }]);
    let kept = survivors(successors.clone(), explored.closed(), 1);
    assert_eq!(kept, vec![Number { value: 2 }, Number { value: 3 }, Number { value: 4 }]);
    let kept = survivors(Number { value: -1 }.successors(), explored.closed(), 0);
    assert_eq!(kept, vec![Number { value: 1 }, Number { value: 2 }]);
}

#[test]
fn arranging_is_stable() {
    let items = vec![(3, 'a'), (1, 'b'), (3, 'c'), (2, 'd'), (1, 'e'), (3, 'f')];
    assert_eq!(
        arrange(items),
        vec![(1, 'b'), (1, 'e'), (2, 'd'), (3, 'a'), (3, 'c'), (3, 'f')]
    );
    assert_eq!(arrange(Vec::<(i32, char)>::new()), vec![]);
    assert_eq!(arrange(vec![(i32::MAX, 'x'), (i32::MIN, 'y')]), vec![(i32::MIN, 'y'), (i32::MAX, 'x')]);
}

#[test]
fn sorting_by_estimate_keeps_ties_in_order() {
    let states = vec![
        Number { value: 9 },
        Number { value: 4 },
        Number { value: 6 },
        Number { value: 1 },
        Number { value: 3 },
    ];
    let sorted = sort_by_estimate(states, &distance);
    let values: Vec<i32> = sorted.iter().map(|state| state.value).collect();
    assert_eq!(values, vec![4, 3, 1, 9, 6]);
}

#[test]
fn candidates_come_in_the_order_of_the_domain() {
    let root = Rc::new(Transition::new(Rc::new(Number { value: 0 }), 5));
    let mut explored = Explored::start(Rc::clone(&root));
    let two = explored.record(Number { value: 2 }, &root, 3);
    let tried = candidates(&explored, &root, &distance, &SearchConfig::ehc());
    assert_eq!(tried, vec![Number { value: 1 }, Number { value: 3 }]);
    let tried = candidates(&explored, &two, &distance, &SearchConfig::default());
    assert_eq!(tried, vec![Number { value: 3 }, Number { value: 4 }, Number { value: 5 }]);
}

#[test]
fn candidates_of_steepest_ascent_come_by_rising_estimate() {
    let root = Rc::new(Transition::new(Rc::new(Number { value: 3 }), 2));
    let explored = Explored::start(Rc::clone(&root));
    let tried = candidates(&explored, &root, &distance, &SearchConfig::ehc_steepest_ascent());
    assert_eq!(tried, vec![Number { value: 5 }, Number { value: 4 }, Number { value: 6 }]);
    let tried = candidates(&explored, &root, &distance, &SearchConfig::blind());
    assert_eq!(tried, vec![Number { value: 4 }, Number { value: 5 }, Number { value: 6 }]);
}

#[test]
fn steepest_ascent_meets_equal_estimates_in_the_order_of_the_domain() {
    let flat = |_: &Number| 7;
    let result = ehc_steepest_search(&Number { value: 0 }, flat, is_goal);
    assert_eq!(numbers(&result.plan.unwrap()), vec![0, 2, 5]);
    assert_eq!(result.statistics.created(), 8);
}

#[test]
fn hill_climbing_without_improvement_is_breadth_first() {
    let flat = |_: &Number| 7;
    let result = ehc_search(&Number { value: 0 }, flat, is_goal);
    assert_eq!(numbers(&result.plan.unwrap()), vec![0, 2, 5]);
    assert_eq!(result.statistics.created(), 8);
    assert_eq!(result.statistics.expanded(), 5);
}

#[test]
fn greedy_returns_to_an_older_transition_of_least_estimate() {
    let away = |state: &Number| if state.value == 3 { 0 } else { 1 };
    let result = greedy_best_first_search(&Number { value: 0 }, away, |state: &Number| {
        state.value == 2
    });
    assert_eq!(numbers(&result.plan.unwrap()), vec![0, 2]);
    assert_eq!(result.statistics.expanded(), 3);
}

#[test]
fn a_search_reports_how_long_it_took() {
    let result = breadth_first_search(&Number { value: 0 }, is_goal);
    let duration = result.statistics.duration();
    assert!(duration.as_secs() < 20);
    assert!(format!("{:?}", result.statistics).contains("created: 8"));
}
