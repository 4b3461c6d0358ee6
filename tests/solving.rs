use sudoku::board::{Board, parse_board};
use sudoku::detect::find_forced;
use sudoku::solve::{Outcome, apply_forced, count_empty, fill_number_with_uniqness, initial_candidates};

fn board_of(rows: &[&str]) -> Board {
    let lines: Vec<Vec<char>> = rows.iter().map(|r| r.chars().collect()).collect();
    parse_board(&lines).unwrap()
}

const PUZZLE: [&str; 9] = [
    "53..7....",
    "6..195...",
    ".98....6.",
    "8...6...3",
    "4..8.3..1",
    "7...2...6",
    ".6....28.",
    "...419..5",
    "....8..79",
];

const SOLUTION: [&str; 9] = [
    "534678912",
    "672195348",
    "198342567",
    "859761423",
    "426853791",
    "713924856",
    "961537284",
    "287419635",
    "345286179",
];

#[test]
fn solves_puzzle_by_singles() {
    let mut board = board_of(&PUZZLE);
    assert_eq!(fill_number_with_uniqness(&mut board), Outcome::Solved);
    assert_eq!(board, board_of(&SOLUTION));
}

#[test]
fn full_legal_grid_comes_back_unchanged() {
    let solved = board_of(&SOLUTION);
    let c = initial_candidates(&solved).unwrap();
    assert!(find_forced(&solved, &c).is_empty());
    let mut board = solved.clone();
    assert_eq!(fill_number_with_uniqness(&mut board), Outcome::Solved);
    assert_eq!(board, solved);
}

#[test]
fn detection_is_empty_once_the_rounds_stop() {
    let mut board = board_of(&PUZZLE);
    let mut c = initial_candidates(&board).unwrap();
    loop {
        let found = find_forced(&board, &c);
        if found.is_empty() {
            break;
        }
        apply_forced(&mut board, &mut c, &found).unwrap();
    }
    assert!(find_forced(&board, &c).is_empty());
    assert_eq!(count_empty(&board), 0);
}

#[test]
fn empty_board_is_stuck() {
    let mut board: Board = vec![None; 81];
    assert_eq!(fill_number_with_uniqness(&mut board), Outcome::Stuck);
    assert_eq!(count_empty(&board), 81);
}

#[test]
fn stuck_board_keeps_its_empties_and_is_quiescent() {
    let mut board: Board = vec![None; 81];
    board[0] = Some(0);
    board[40] = Some(4);
    assert_eq!(fill_number_with_uniqness(&mut board), Outcome::Stuck);
    assert_eq!(board[0], Some(0));
    assert_eq!(board[40], Some(4));
    assert_eq!(count_empty(&board), 79);
}

#[test]
fn repeated_given_is_a_contradiction() {
    let mut rows = PUZZLE;
    rows[0] = "55..7....";
    let original = board_of(&rows);
    let mut board = original.clone();
    assert_eq!(fill_number_with_uniqness(&mut board), Outcome::Contradiction);
    assert_eq!(board, original);
}

#[test]
fn single_missing_cell_is_filled() {
    let mut board = board_of(&SOLUTION);
    board[40] = None;
    assert_eq!(count_empty(&board), 1);
    assert_eq!(fill_number_with_uniqness(&mut board), Outcome::Solved);
    assert_eq!(board, board_of(&SOLUTION));
}
