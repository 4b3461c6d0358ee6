use sudoku::board::{Board, GridError, char_cell, parse_board, render_board};

fn lines_of(rows: &[&str]) -> Vec<Vec<char>> {
    rows.iter().map(|r| r.chars().collect()).collect()
}

const PUZZLE: [&str; 9] = [
    "53..7....",
    "6..195...",
    ".98....6.",
    "8...6...3",
    "4..8.3..1",
    "7...2...6",
    ".6....28.",
    "...419..5",
    "....8..79",
];

#[test]
fn parses_digits_and_placeholders() {
    let board: Board = parse_board(&lines_of(&PUZZLE)).unwrap();
    assert_eq!(board.len(), 81);
    assert_eq!(board[0], Some(4));
    assert_eq!(board[1], Some(2));
    assert_eq!(board[2], None);
    assert_eq!(board[80], Some(8));
    assert_eq!(board.iter().filter(|c| c.is_some()).count(), 30);
}

#[test]
fn zero_and_any_other_character_mean_empty() {
    assert_eq!(char_cell('0'), None);
    assert_eq!(char_cell('.'), None);
    assert_eq!(char_cell(' '), None);
    assert_eq!(char_cell('a'), None);
    assert_eq!(char_cell('1'), Some(0));
    assert_eq!(char_cell('9'), Some(8));
}

#[test]
fn eight_lines_are_a_malformed_grid() {
    let r = parse_board(&lines_of(&PUZZLE[..8]));
    assert_eq!(r, Err(GridError::MalformedGrid));
}

#[test]
fn ten_lines_are_a_malformed_grid() {
    let mut rows = PUZZLE.to_vec();
    rows.push(".........");
    assert_eq!(parse_board(&lines_of(&rows)), Err(GridError::MalformedGrid));
}

#[test]
fn long_third_line_is_a_malformed_line() {
    let mut rows = PUZZLE.to_vec();
    rows[2] = ".98....6.1";
    let r = parse_board(&lines_of(&rows));
    assert_eq!(r, Err(GridError::MalformedLine(".98....6.1".chars().collect())));
}

#[test]
fn first_bad_line_is_reported_before_the_count() {
    let rows = vec!["123456789", "12345678", "1"];
    let r = parse_board(&lines_of(&rows));
    assert_eq!(r, Err(GridError::MalformedLine("12345678".chars().collect())));
}

#[test]
fn empty_source_is_a_malformed_grid() {
    assert_eq!(parse_board(&Vec::new()), Err(GridError::MalformedGrid));
}

#[test]
fn renders_digits_and_spaces() {
    let board = parse_board(&lines_of(&PUZZLE)).unwrap();
    let text = String::from_utf8(render_board(&board)).unwrap();
    let expected = "53  7    \n6  195   \n 98    6 \n8   6   3\n4  8 3  1\n7   2   6\n 6    28 \n   419  5\n    8  79\n";
    assert_eq!(text, expected);
}
