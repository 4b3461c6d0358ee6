use sudoku::board::Board;
use sudoku::candidates::{CandidateSet, Contradiction};
use sudoku::cells::{Unit, box_index, col_index, in_same_unit, peers, row_index};
use sudoku::detect::{count_in_unit, find_forced, is_hidden_single, naked_single};
use sudoku::solve::{apply_forced, initial_candidates};

fn empty_board() -> Board {
    vec![None; 81]
}

#[test]
fn cell_geometry() {
    assert_eq!(row_index(40), 4);
    assert_eq!(col_index(40), 4);
    assert_eq!(box_index(40), 4);
    assert_eq!(box_index(80), 8);
    assert_eq!(box_index(29), 3);
    assert!(in_same_unit(Unit::Box, 0, 20));
    assert!(!in_same_unit(Unit::Box, 0, 27));
    assert!(peers(0, 8));
    assert!(peers(0, 72));
    assert!(peers(0, 20));
    assert!(!peers(0, 0));
    assert!(!peers(0, 30));
}

#[test]
fn every_cell_has_twenty_peers() {
    for a in 0..81 {
        let n = (0..81).filter(|&b| peers(a, b)).count();
        assert_eq!(n, 20);
    }
}

#[test]
fn place_clears_value_from_peers_only() {
    let mut c = CandidateSet::full();
    assert_eq!(c.place(40, 6), Ok(()));
    for t in 0..81 {
        if peers(40, t) {
            assert!(!c.has(t, 6));
            for w in 0..9 {
                if w != 6 {
                    assert!(c.has(t, w));
                }
            }
        } else if t != 40 {
            for w in 0..9 {
                assert!(c.has(t, w));
            }
        }
    }
}

#[test]
fn place_keeps_value_as_sole_candidate() {
    let mut c = CandidateSet::full();
    c.place(10, 3).unwrap();
    for w in 0..9 {
        assert_eq!(c.has(10, w), w == 3);
    }
    c.place(10, 3).unwrap();
    assert!(c.has(10, 3));
}

#[test]
fn place_only_clears_flags_over_a_sequence() {
    let mut c = CandidateSet::full();
    let moves = [(0usize, 0u32), (12, 1), (40, 2), (80, 3), (30, 4)];
    for (cell, v) in moves {
        let before = c.rows;
        c.place(cell, v).unwrap();
        for t in 0..81 {
            for w in 0..9 {
                if c.rows[t][w] {
                    assert!(before[t][w]);
                }
            }
        }
    }
}

#[test]
fn place_of_excluded_value_is_a_contradiction() {
    let mut c = CandidateSet::full();
    c.place(0, 4).unwrap();
    let before = c.rows;
    assert_eq!(c.place(5, 4), Err(Contradiction { cell: 5, value: 4 }));
    assert_eq!(c.rows, before);
}

#[test]
fn counts_and_singles() {
    let mut c = CandidateSet::full();
    assert_eq!(count_in_unit(&c, Unit::Row, 0, 0), 9);
    c.place(0, 0).unwrap();
    assert_eq!(count_in_unit(&c, Unit::Row, 5, 0), 1);
    assert_eq!(count_in_unit(&c, Unit::Column, 0, 0), 1);
    assert_eq!(count_in_unit(&c, Unit::Box, 20, 0), 1);
    assert_eq!(count_in_unit(&c, Unit::Row, 5, 1), 8);
    assert_eq!(naked_single(&c, 0), Some(0));
    assert_eq!(naked_single(&c, 1), None);
    assert!(is_hidden_single(&c, 0, 0));
    assert!(!is_hidden_single(&c, 1, 1));
}

#[test]
fn naked_single_in_nearly_full_row() {
    let mut board = empty_board();
    for i in 0..8 {
        board[i] = Some(i as u32);
    }
    let c = initial_candidates(&board).unwrap();
    for w in 0..9 {
        assert_eq!(c.has(8, w), w == 8);
    }
    let found = find_forced(&board, &c);
    assert_eq!(found[0], (8, 8));
    assert!(found.iter().all(|&(cell, _)| board[cell].is_none()));
}

#[test]
fn hidden_single_in_box() {
    let board = empty_board();
    let mut c = CandidateSet::full();
    for &t in &[0usize, 1, 2, 9, 11, 18, 19, 20] {
        c.rows[t][4] = false;
    }
    let count = (0..9u32).filter(|&w| c.has(10, w)).count();
    assert!(count >= 3);
    assert_eq!(naked_single(&c, 10), None);
    assert_eq!(count_in_unit(&c, Unit::Box, 10, 4), 1);
    assert_eq!(find_forced(&board, &c), vec![(10, 4)]);
}

#[test]
fn filled_cells_are_not_scanned() {
    let mut board = empty_board();
    board[0] = Some(0);
    let mut c = CandidateSet::full();
    c.place(0, 0).unwrap();
    let found = find_forced(&board, &c);
    assert!(found.iter().all(|&(cell, _)| cell != 0));
}

#[test]
fn conflicting_pair_in_one_batch_is_a_contradiction() {
    let mut board = empty_board();
    let mut c = CandidateSet::full();
    for w in 2..9 {
        c.rows[0][w] = false;
    }
    for t in 1..9 {
        c.rows[t][0] = false;
    }
    for k in 1..9 {
        c.rows[k * 9][1] = false;
    }
    let found = find_forced(&board, &c);
    assert_eq!(found[0], (0, 0));
    assert_eq!(found[1], (0, 1));
    let r = apply_forced(&mut board, &mut c, &found);
    assert_eq!(r, Err(Contradiction { cell: 0, value: 1 }));
    assert_eq!(board[0], Some(0));
}

#[test]
fn apply_writes_values_in_order() {
    let mut board = empty_board();
    let mut c = CandidateSet::full();
    let found = vec![(0usize, 2u32), (80, 5), (0, 2)];
    assert_eq!(apply_forced(&mut board, &mut c, &found), Ok(()));
    assert_eq!(board[0], Some(2));
    assert_eq!(board[80], Some(5));
    assert!(!c.has(8, 2));
    assert!(!c.has(72, 5));
}
