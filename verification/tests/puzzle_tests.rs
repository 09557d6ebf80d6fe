use tiles::a_star_search;
use tiles::board::goal;
use tiles::board::Board;
use tiles::ehc_search;
use tiles::ehc_steepest_search;

fn expect_plan(result: Option<Vec<Board>>, len: usize) {
    assert!(result.is_some());

    if let Some(plan) = result {
        let goal_state = plan.last().unwrap();
        assert_eq!(plan.len(), len);
        assert_eq!(*goal_state, goal());
        println!("Plan length: {:?}", plan.len());
        println!("Goal board state found:\n{}", goal_state.to_text());
    }
}

#[test]
fn test_easy_board() {
    let hard_board = Board::new([1, 2, 3, 4, 5, 6, 7, 0, 8]);

    println!("Starting A* search for hard board 1");
    let result = a_star_search(hard_board);

    expect_plan(result.0, 2);
}

#[test]
fn test_hard_board1_a_star() {
    let hard_board = Board::new([8, 6, 7, 2, 5, 4, 3, 0, 1]);

    println!("Starting A* search for hard board 1:\n{}", hard_board.to_text());
    let result = a_star_search(hard_board);

    expect_plan(result.0, 32);
}

#[test]
fn test_hard_board2_a_star() {
    let hard_board = Board::new([6, 4, 7, 8, 5, 0, 3, 2, 1]);

    println!("Starting A* search for hard board 2:\n{}", hard_board.to_text());
    let result = a_star_search(hard_board);

    expect_plan(result.0, 32);
}

#[test]
fn test_hard_board1_ehc() {
    let tiles = [8, 6, 7, 2, 5, 4, 3, 0, 1];
    println!("Tiles: {:?}", tiles);
    let hard_board = Board::new(tiles);

    println!("Starting EHC search for hard board 1:\n{}", hard_board.to_text());
    let result = ehc_search(hard_board);

    expect_plan(result.0, 46);
}

#[test]
fn test_hard_board2_ehc() {
    let tiles = [6, 4, 7, 8, 5, 0, 3, 2, 1];
    println!("Tiles: {:?}", tiles);
    let hard_board = Board::new(tiles);

    println!("Starting EHC search for hard board 2:\n{}", hard_board.to_text());
    let result = ehc_search(hard_board);

    expect_plan(result.0, 46);
}

#[test]
fn test_hard_board1_ehc_steepest() {
    let tiles = [8, 6, 7, 2, 5, 4, 3, 0, 1];
    println!("Tiles: {:?}", tiles);
    let hard_board = Board::new(tiles);

    println!("Starting EHC search for hard board 1:\n{}", hard_board.to_text());
    let result = ehc_steepest_search(hard_board);

    expect_plan(result.0, 46);
}

#[test]
fn test_hard_board2_ehc_steepest() {
    let tiles = [6, 4, 7, 8, 5, 0, 3, 2, 1];
    println!("Tiles: {:?}", tiles);
    let hard_board = Board::new(tiles);

    println!("Starting EHC search for hard board 2:\n{}", hard_board.to_text());
    let result = ehc_steepest_search(hard_board);

    expect_plan(result.0, 46);
}
