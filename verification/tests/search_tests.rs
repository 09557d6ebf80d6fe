use tiles::search::a_star_search;
use tiles::search::breadth_first_search;
use tiles::search::ehc_search;
use tiles::search::ehc_steepest_search;
use tiles::search::greedy_best_first_search;
use tiles::search::State;

const GOAL: i32 = 5;

#[derive(Hash, Debug, Copy, Clone, Eq, PartialEq)]
struct TestState {
    value: i32,
}

impl State for TestState {
    fn key(&self) -> u64 {
        self.value as u32 as u64
    }

    fn successors(&self) -> Vec<Self> {
        vec![
            TestState { value: self.value + 1 },
            TestState { value: self.value + 2 },
            TestState { value: self.value + 3 },
        ]
    }
}

#[test]
fn test_breadth_first_search() {
    let initial = TestState { value: 0 };
    println!("Starting Breadth First Search");

    let result = breadth_first_search(&initial, |state: &TestState| state.value == 5);

    assert!(result.plan.is_some());

    let plan = result.plan.unwrap();
    assert!(plan.len() > 0);

    println!("Plan: {:?}", plan);

    let goal = plan.get(plan.len() - 1).unwrap();
    assert_eq!(goal.value, GOAL);
}

#[test]
fn test_ehc_search() {
    let initial = TestState { value: 0 };
    println!("Starting EHC Search");

    let result = ehc_search(&initial, |_: &TestState| 0, |state: &TestState| state.value == 5);

    assert!(result.plan.is_some());

    let plan = result.plan.unwrap();
    assert!(plan.len() > 0);

    println!("Plan: {:?}", plan);

    let goal = plan.get(plan.len() - 1).unwrap();
    assert_eq!(goal.value, GOAL);
}

#[test]
fn test_ehc_steepest_search() {
    let initial = TestState { value: 0 };
    println!("Starting EHC Steepest Ascent Search");

    let result =
        ehc_steepest_search(&initial, |_: &TestState| 0, |state: &TestState| state.value == 5);

    assert!(result.plan.is_some());

    let plan = result.plan.unwrap();
    assert!(plan.len() > 0);

    println!("Plan: {:?}", plan);

    let goal = plan.get(plan.len() - 1).unwrap();
    assert_eq!(goal.value, GOAL);
}

#[test]
fn test_greedy_best_first_search() {
    let initial = TestState { value: 0 };
    println!("Starting Greedy Best First Search");
    let result =
        greedy_best_first_search(&initial, |_: &TestState| 0, |state: &TestState| state.value == 5);
    assert!(result.plan.is_some());

    let plan = result.plan.unwrap();
    assert!(plan.len() > 0);

    println!("Plan: {:?}", plan);

    let goal = plan.get(plan.len() - 1).unwrap();
    assert_eq!(goal.value, GOAL);
}

#[test]
fn test_a_star_search() {
    let initial = TestState { value: 0 };
    println!("Starting Greedy Best First Search");
    let result = a_star_search(&initial, |_: &TestState| 0, |state: &TestState| state.value == 5);
    assert!(result.plan.is_some());

    let plan = result.plan.unwrap();
    assert!(plan.len() > 0);

    println!("Plan: {:?}", plan);

    let goal = plan.get(plan.len() - 1).unwrap();
    assert_eq!(goal.value, GOAL);
}
