use tiles::board::goal;
use tiles::board::manhattan_dist_positions;
use tiles::board::to_coordinates;
use tiles::board::Board;

#[test]
fn goal_board_is_one_to_eight_then_blank() {
    assert_eq!(goal().tiles(), [1, 2, 3, 4, 5, 6, 7, 8, 0]);
    assert_eq!(goal().zero(), 8);
    assert!(goal().is_goal());
}

#[test]
fn first_blank_is_found_when_there_are_two() {
    let board = Board::new([1, 0, 2, 0, 4, 5, 6, 7, 8]);
    assert_eq!(board.zero(), 1);
}

#[test]
fn manhattan_distance_of_the_goal_is_zero() {
    assert_eq!(goal().manhattan_dist(), 0);
}

#[test]
fn manhattan_distance_leaves_the_blank_out() {
    assert_eq!(Board::new([1, 2, 3, 4, 5, 6, 7, 0, 8]).manhattan_dist(), 1);
    assert_eq!(Board::new([0, 1, 2, 3, 4, 5, 6, 7, 8]).manhattan_dist(), 12);
}

#[test]
fn manhattan_distance_of_the_hard_boards() {
    assert_eq!(Board::new([8, 6, 7, 2, 5, 4, 3, 0, 1]).manhattan_dist(), 21);
    assert_eq!(Board::new([6, 4, 7, 8, 5, 0, 3, 2, 1]).manhattan_dist(), 21);
}

#[test]
fn distance_between_positions() {
    assert_eq!(manhattan_dist_positions(0, 0), 0);
    assert_eq!(manhattan_dist_positions(0, 8), 4);
    assert_eq!(manhattan_dist_positions(8, 0), 4);
    assert_eq!(manhattan_dist_positions(2, 6), 4);
    assert_eq!(manhattan_dist_positions(4, 5), 1);
    assert_eq!(manhattan_dist_positions(1, 7), 2);
}

#[test]
fn coordinates_are_column_then_row() {
    assert_eq!(to_coordinates(0), (0, 0));
    assert_eq!(to_coordinates(2), (2, 0));
    assert_eq!(to_coordinates(3), (0, 1));
    assert_eq!(to_coordinates(7), (1, 2));
    assert_eq!(to_coordinates(8), (2, 2));
}

#[test]
fn keys_are_the_tiles_to_the_base_nine() {
    assert_eq!(goal().key(), 42374116);
    assert_eq!(Board::new([1, 2, 3, 4, 5, 6, 7, 0, 8]).key(), 348484132);
    assert_eq!(Board::new([0, 1, 2, 3, 4, 5, 6, 7, 8]).key(), 381367044);
    assert_eq!(Board::new([0, 0, 0, 0, 0, 0, 0, 0, 0]).key(), 0);
    assert_eq!(Board::new([8, 8, 8, 8, 0, 8, 8, 8, 8]).key(), 387420488 - 8 * 6561);
}

#[test]
fn keys_differ_between_neighbours() {
    let board = Board::new([1, 2, 3, 4, 0, 5, 6, 7, 8]);
    for next in board.successors() {
        assert_ne!(next.key(), board.key());
    }
}

#[test]
fn successors_come_right_down_up_left() {
    let successors = Board::new([1, 2, 3, 4, 0, 5, 6, 7, 8]).successors();
    assert_eq!(
        successors,
        vec![
            Board::new([1, 2, 3, 4, 5, 0, 6, 7, 8]),
            Board::new([1, 2, 3, 4, 7, 5, 6, 0, 8]),
            Board::new([1, 0, 3, 4, 2, 5, 6, 7, 8]),
            Board::new([1, 2, 3, 0, 4, 5, 6, 7, 8]),
        ]
    );
}

#[test]
fn successors_move_the_blank() {
    for zero in 0..9usize {
        let mut tiles = [1i8, 2, 3, 4, 5, 6, 7, 8, 1];
        tiles[zero] = 0;
        let board = Board::new(tiles);
        let successors = board.successors();
        assert_eq!(successors.len(), board.successor_count());
        for next in successors {
            assert_ne!(next.zero(), zero);
            assert_eq!(next.tiles()[zero], tiles[next.zero()]);
        }
    }
}

#[test]
fn swap_changes_two_tiles_and_no_other() {
    let board = Board::new([8, 6, 7, 2, 5, 4, 3, 0, 1]);
    let swapped = board.swap(2, 7);
    assert_eq!(swapped.tiles(), [8, 6, 0, 2, 5, 4, 3, 7, 1]);
    assert_eq!(swapped.zero(), 2);
    assert_eq!(board.tiles(), [8, 6, 7, 2, 5, 4, 3, 0, 1]);
}

#[test]
fn text_has_three_lines_of_three_tiles() {
    assert_eq!(goal().to_text(), "1 2 3\r\n4 5 6\r\n7 8 0\r\n");
    assert_eq!(
        Board::new([8, 6, 7, 2, 5, 4, 3, 0, 1]).to_text(),
        "8 6 7\r\n2 5 4\r\n3 0 1\r\n"
    );
}

#[test]
fn text_spells_any_tile() {
    assert_eq!(
        Board::new([-128, 127, 0, 10, -1, 99, 100, -100, 9]).to_text(),
        "-128 127 0\r\n10 -1 99\r\n100 -100 9\r\n"
    );
}

#[test]
fn boards_with_the_same_tiles_are_equal() {
    let a = Board::new([1, 0, 2, 3, 4, 5, 6, 7, 8]);
    let b = Board::new([1, 0, 2, 3, 4, 5, 6, 7, 8]);
    let c = Board::new([0, 1, 2, 3, 4, 5, 6, 7, 8]);
    assert!(a == b);
    assert!(a != c);
}
