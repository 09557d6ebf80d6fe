use tiles::board::find_zero;
use tiles::board::goal;
use tiles::board::Board;

#[test]
fn test_equality() {
    assert_eq!(Board::new([1, 2, 3, 4, 5, 6, 7, 8, 0]), goal());
}

#[test]
fn test_inequality() {
    assert_ne!(Board::new([1, 0, 2, 3, 4, 5, 6, 7, 8]), goal());
}

#[test]
fn test_goal() {
    assert!(Board::new([1, 2, 3, 4, 5, 6, 7, 8, 0]).is_goal());
}

#[test]
fn test_not_goal() {
    assert_eq!(Board::new([1, 0, 2, 3, 4, 5, 6, 7, 8]).is_goal(), false);
}

#[test]
fn test_zero_pos() {
    assert_eq!(find_zero([0, 1, 2, 3, 4, 5, 6, 7, 8]), 0);
    assert_eq!(find_zero([1, 0, 2, 3, 4, 5, 6, 7, 8]), 1);
    assert_eq!(find_zero([1, 8, 2, 3, 4, 5, 6, 7, 0]), 8);
}

#[test]
fn test_board_initialisation() {
    let board = Board::new([0, 1, 2, 3, 4, 5, 6, 7, 8]);
    assert_eq!(board.zero(), 0);

    let board = Board::new([1, 0, 2, 3, 4, 5, 6, 7, 8]);
    assert_eq!(board.zero(), 1);

    let board = Board::new([1, 8, 2, 3, 4, 5, 6, 7, 0]);
    assert_eq!(board.zero(), 8);
}

#[test]
fn test_swap() {
    let board = Board::new([0, 1, 2, 3, 4, 5, 6, 7, 8]);
    let swapped = board.swap(0, 5);

    assert_eq!(swapped, Board::new([5, 1, 2, 3, 4, 0, 6, 7, 8]));
}

#[test]
fn test_swap_noop() {
    let board = Board::new([0, 1, 2, 3, 4, 5, 6, 7, 8]);
    let swapped = board.swap(5, 5);

    assert_eq!(swapped, Board::new([0, 1, 2, 3, 4, 5, 6, 7, 8]));
}

#[test]
fn test_successor_count() {
    assert_eq!(Board::new([0, 1, 2, 3, 4, 5, 6, 7, 8]).successor_count(), 2);
    assert_eq!(Board::new([1, 0, 2, 3, 4, 5, 6, 7, 8]).successor_count(), 3);
    assert_eq!(Board::new([1, 2, 0, 3, 4, 5, 6, 7, 8]).successor_count(), 2);
    assert_eq!(Board::new([1, 2, 3, 0, 4, 5, 6, 7, 8]).successor_count(), 3);
    assert_eq!(Board::new([1, 2, 3, 4, 0, 5, 6, 7, 8]).successor_count(), 4);
    assert_eq!(Board::new([1, 2, 3, 4, 5, 0, 6, 7, 8]).successor_count(), 3);
    assert_eq!(Board::new([1, 2, 3, 4, 5, 6, 0, 7, 8]).successor_count(), 2);
    assert_eq!(Board::new([1, 2, 3, 4, 5, 6, 7, 0, 8]).successor_count(), 3);
    assert_eq!(Board::new([1, 2, 3, 4, 5, 6, 7, 8, 0]).successor_count(), 2);
}

#[test]
fn test_successor_0() {
    let successors = Board::new([0, 1, 2, 3, 4, 5, 6, 7, 8]).successors();
    assert_eq!(successors.len(), 2);
    assert!(successors.contains(&Board::new([1, 0, 2, 3, 4, 5, 6, 7, 8])));
    assert!(successors.contains(&Board::new([3, 1, 2, 0, 4, 5, 6, 7, 8])));
}

#[test]
fn test_successor_1() {
    let successors = Board::new([1, 0, 2, 3, 4, 5, 6, 7, 8]).successors();
    assert_eq!(successors.len(), 3);
    assert!(successors.contains(&Board::new([0, 1, 2, 3, 4, 5, 6, 7, 8])));
    assert!(successors.contains(&Board::new([1, 2, 0, 3, 4, 5, 6, 7, 8])));
    assert!(successors.contains(&Board::new([1, 4, 2, 3, 0, 5, 6, 7, 8])));
}

#[test]
fn test_successor_4() {
    let successors = Board::new([1, 2, 3, 4, 0, 5, 6, 7, 8]).successors();
    assert_eq!(successors.len(), 4);
    assert!(successors.contains(&Board::new([1, 0, 3, 4, 2, 5, 6, 7, 8])));
    assert!(successors.contains(&Board::new([1, 2, 3, 4, 7, 5, 6, 0, 8])));
    assert!(successors.contains(&Board::new([1, 2, 3, 0, 4, 5, 6, 7, 8])));
    assert!(successors.contains(&Board::new([1, 2, 3, 4, 5, 0, 6, 7, 8])));
}

#[test]
fn test_successor_6() {
    let successors = Board::new([1, 2, 3, 4, 5, 0, 6, 7, 8]).successors();
    assert_eq!(successors.len(), 3);
    assert!(successors.contains(&Board::new([1, 2, 3, 4, 0, 5, 6, 7, 8])));
    assert!(successors.contains(&Board::new([1, 2, 0, 4, 5, 3, 6, 7, 8])));
    assert!(successors.contains(&Board::new([1, 2, 3, 4, 5, 8, 6, 7, 0])));
}

#[test]
fn test_successor_8() {
    let successors = Board::new([1, 2, 3, 4, 5, 6, 7, 8, 0]).successors();
    assert_eq!(successors.len(), 2);
    assert!(successors.contains(&Board::new([1, 2, 3, 4, 5, 6, 7, 0, 8])));
    assert!(successors.contains(&Board::new([1, 2, 3, 4, 5, 0, 7, 8, 6])));
}
