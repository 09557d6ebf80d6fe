use std::collections::VecDeque;
use tiles::a_star_search;
use tiles::board::goal;
use tiles::board::Board;
use tiles::breadth_first_search;
use tiles::ehc_search;
use tiles::ehc_steepest_search;
use tiles::goal_check;
use tiles::greedy_best_first_search;
use tiles::input::parse_tile;
use tiles::input::read_board;
use tiles::input::InputError;
use tiles::manhattan_distance_heuristic;
use tiles::process_plan;
use tiles::process_result;
use tiles::search::State;
use tiles::search::Statistics;
use tiles::text::push_decimal;
use tiles::text::push_signed_decimal;
use tiles::BoardState;

fn expect_solution(found: &(Option<Vec<Board>>, Statistics), board: Board) {
    let plan = found.0.as_ref().unwrap();
    assert_eq!(plan[0], board);
    assert_eq!(*plan.last().unwrap(), goal());
    for i in 0..plan.len() - 1 {
        assert!(plan[i].successors().contains(&plan[i + 1]));
    }
    assert!(found.1.queued() <= found.1.created());
    assert!(found.1.expanded() <= found.1.queued());
}

#[test]
fn every_strategy_solves_a_board_three_moves_away() {
    let board = Board::new([1, 2, 3, 0, 4, 6, 7, 5, 8]);
    expect_solution(&breadth_first_search(board), board);
    expect_solution(&ehc_search(board), board);
    expect_solution(&ehc_steepest_search(board), board);
    expect_solution(&greedy_best_first_search(board), board);
    expect_solution(&a_star_search(board), board);
}

#[test]
fn breadth_first_and_a_star_find_the_four_boards() {
    let board = Board::new([1, 2, 3, 0, 4, 6, 7, 5, 8]);
    let expected = vec![
        board,
        Board::new([1, 2, 3, 4, 0, 6, 7, 5, 8]),
        Board::new([1, 2, 3, 4, 5, 6, 7, 0, 8]),
        goal(),
    ];
    assert_eq!(breadth_first_search(board).0.unwrap(), expected);
    assert_eq!(a_star_search(board).0.unwrap(), expected);
}

#[test]
fn the_goal_board_is_solved_by_itself() {
    let found = vec![
        breadth_first_search(goal()),
        ehc_search(goal()),
        ehc_steepest_search(goal()),
        greedy_best_first_search(goal()),
        a_star_search(goal()),
    ];
    for (plan, statistics) in found {
        assert_eq!(plan.unwrap(), vec![goal()]);
        assert_eq!(statistics.expanded(), 0);
        assert_eq!(statistics.created(), 1);
        assert_eq!(statistics.queued(), 1);
    }
}

#[test]
fn a_board_that_cannot_be_solved_has_no_plan() {
    let board = Board::new([1, 2, 3, 4, 5, 6, 8, 7, 0]);
    let (plan, statistics) = a_star_search(board);
    assert!(plan.is_none());
    assert!(statistics.created() >= 181440);
    assert!(statistics.expanded() <= statistics.queued());
}

#[test]
fn hard_board_takes_thirty_one_moves_breadth_first() {
    let (plan, _) = breadth_first_search(Board::new([8, 6, 7, 2, 5, 4, 3, 0, 1]));
    assert_eq!(plan.unwrap().len(), 32);
}

#[test]
fn board_states_step_as_boards_do() {
    let board = Board::new([1, 2, 3, 4, 0, 5, 6, 7, 8]);
    let state = BoardState::new(board);
    let boards: Vec<Board> = state.successors().iter().map(|next| next.board).collect();
    assert_eq!(boards, board.successors());
    assert_eq!(state.key(), board.key());
}

#[test]
fn goal_check_accepts_the_goal_alone() {
    assert!(goal_check(&BoardState::new(goal())));
    assert!(!goal_check(&BoardState::new(Board::new([1, 2, 3, 4, 5, 6, 7, 0, 8]))));
}

#[test]
fn the_estimate_is_the_manhattan_distance() {
    let board = Board::new([8, 6, 7, 2, 5, 4, 3, 0, 1]);
    assert_eq!(manhattan_distance_heuristic(&BoardState::new(board)), 21);
    assert_eq!(manhattan_distance_heuristic(&BoardState::new(goal())), 0);
}

#[test]
fn result_is_turned_into_boards() {
    let board = Board::new([1, 2, 3, 4, 5, 6, 7, 0, 8]);
    let result = tiles::search::breadth_first_search(&BoardState::new(board), goal_check);
    let created = result.statistics.created();
    let (plan, statistics) = process_result(result);
    assert_eq!(plan.unwrap(), vec![board, goal()]);
    assert_eq!(statistics.created(), created);
}

#[test]
fn result_without_plan_stays_without_plan() {
    let never = |_: &BoardState| false;
    let start = BoardState::new(goal());
    let mut result = tiles::search::ehc_search(&start, |_: &BoardState| 0, never);
    assert!(result.plan.is_none());
    let (plan, _) = process_result(result);
    assert!(plan.is_none());
    result = tiles::search::breadth_first_search(&start, goal_check);
    assert_eq!(result.plan, Some(VecDeque::from(vec![start])));
}

#[test]
fn report_of_a_plan() {
    let plan = Some(vec![Board::new([1, 2, 3, 4, 5, 6, 7, 0, 8]), goal()]);
    assert_eq!(
        process_plan(&plan),
        "Found plan of 1 steps\n1 2 3\r\n4 5 6\r\n7 0 8\r\n\n1 2 3\r\n4 5 6\r\n7 8 0\r\n\n"
    );
    assert_eq!(
        process_plan(&Some(vec![goal()])),
        "Found plan of 0 steps\n1 2 3\r\n4 5 6\r\n7 8 0\r\n\n"
    );
}

#[test]
fn report_counts_the_moves_of_a_long_plan() {
    let (plan, _) = a_star_search(Board::new([8, 6, 7, 2, 5, 4, 3, 0, 1]));
    let text = process_plan(&plan);
    assert!(text.starts_with("Found plan of 31 steps\n8 6 7\r\n2 5 4\r\n3 0 1\r\n\n"));
    assert!(text.ends_with("\n1 2 3\r\n4 5 6\r\n7 8 0\r\n\n"));
    assert_eq!(text.len(), 23 + 32 * 22);
}

#[test]
fn report_of_no_plan() {
    assert_eq!(process_plan(&None), "Plan not found!\n");
}

#[test]
fn numbers_in_decimal() {
    for n in [0u64, 7, 9, 10, 11, 99, 100, 101, 4294967296, u64::MAX] {
        let mut text = String::from("n=");
        push_decimal(&mut text, n);
        assert_eq!(text, format!("n={}", n));
    }
}

#[test]
fn signed_numbers_in_decimal() {
    for n in [0i64, -1, 1, -9, -10, 10, -128, 127, i64::MIN, i64::MAX] {
        let mut text = String::from("n=");
        push_signed_decimal(&mut text, n);
        assert_eq!(text, format!("n={}", n));
    }
}

#[test]
fn tiles_are_the_numbers_from_zero_to_eight() {
    for n in 0..=8i8 {
        assert_eq!(parse_tile(&format!("{}", n)), Some(n));
        assert_eq!(parse_tile(&format!("+{}", n)), Some(n));
        assert_eq!(parse_tile(&format!("000{}", n)), Some(n));
    }
    assert_eq!(parse_tile("-0"), Some(0));
    assert_eq!(parse_tile("-000"), Some(0));
    assert_eq!(parse_tile("00000000000000000000000000000000000008"), Some(8));
}

#[test]
fn other_arguments_are_no_tiles() {
    for arg in [
        "", "+", "-", "9", "10", "-1", "-8", "127", "128", "256", "1000", "99999999999999999999",
        " 1", "1 ", "1a", "a", "0x1", "1.0", "--1", "+-1", "１", "é", "1\n",
    ] {
        assert_eq!(parse_tile(arg), None, "{:?}", arg);
    }
}

#[test]
fn tiles_agree_with_the_numbers_that_std_reads() {
    for a in [b'+', b'-', b'0', b'1', b'8', b'9', b' ', b'x'] {
        for b in [b'+', b'-', b'0', b'1', b'8', b'9', b' ', b'x'] {
            for c in [b'0', b'3', b'9', b'-'] {
                for text in [vec![a], vec![a, b], vec![a, b, c]] {
                    let arg = String::from_utf8(text).unwrap();
                    let expected = match arg.parse::<i8>() {
                        Ok(n) if n >= 0 && n <= 8 => Some(n),
                        _ => None,
                    };
                    assert_eq!(parse_tile(&arg), expected, "{:?}", arg);
                }
            }
        }
    }
}

fn command_line(args: &[&str]) -> Vec<String> {
    let mut line = vec![String::from("tiles")];
    line.extend(args.iter().map(|arg| arg.to_string()));
    line
}

#[test]
fn nine_tiles_make_a_board() {
    let line = command_line(&["1", "2", "5", "3", "4", "6", "7", "8", "0"]);
    assert_eq!(read_board(&line), Ok(Board::new([1, 2, 5, 3, 4, 6, 7, 8, 0])));
    let line = command_line(&["+1", "02", "5", "3", "4", "6", "7", "8", "-0"]);
    assert_eq!(read_board(&line), Ok(Board::new([1, 2, 5, 3, 4, 6, 7, 8, 0])));
    let line = command_line(&["0", "0", "0", "0", "0", "0", "0", "0", "0"]);
    assert_eq!(read_board(&line).unwrap().zero(), 0);
}

#[test]
fn a_command_line_without_arguments_asks_for_help() {
    assert_eq!(read_board(&command_line(&[])), Err(InputError::NoArguments));
}

#[test]
fn a_command_line_of_another_length_is_refused() {
    assert_eq!(read_board(&Vec::new()), Err(InputError::WrongCount));
    assert_eq!(read_board(&command_line(&["0"])), Err(InputError::WrongCount));
    let line = command_line(&["1", "2", "5", "3", "4", "6", "7", "8"]);
    assert_eq!(read_board(&line), Err(InputError::WrongCount));
    let line = command_line(&["1", "2", "5", "3", "4", "6", "7", "8", "0", "0"]);
    assert_eq!(read_board(&line), Err(InputError::WrongCount));
    let line = command_line(&["x", "2", "5", "3", "4", "6", "7", "8", "0", "0"]);
    assert_eq!(read_board(&line), Err(InputError::WrongCount));
}

#[test]
fn the_first_argument_that_is_no_tile_is_named() {
    let line = command_line(&["1", "2", "9", "3", "4", "x", "7", "8", "0"]);
    assert_eq!(read_board(&line), Err(InputError::InvalidArgument(3)));
    let line = command_line(&["1", "2", "5", "3", "4", "6", "7", "8", ""]);
    assert_eq!(read_board(&line), Err(InputError::InvalidArgument(9)));
    let line = command_line(&["-1", "2", "5", "3", "4", "6", "7", "8", "8"]);
    assert_eq!(read_board(&line), Err(InputError::InvalidArgument(1)));
}

#[test]
fn nine_tiles_without_a_blank_are_refused() {
    let line = command_line(&["1", "2", "5", "3", "4", "6", "7", "8", "8"]);
    assert_eq!(read_board(&line), Err(InputError::NoBlank));
}
