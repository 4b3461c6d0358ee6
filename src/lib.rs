//! A 9x9 Sudoku solver that works by pure constraint propagation.
//!
//! The board is a flat sequence of 81 cells; each cell carries a set of
//! remaining candidate values. Placing a value removes it from the cell's
//! peers, and two deduction rules (naked single, hidden single) find the
//! placements that are forced. A driver repeats detection and placement until
//! nothing more can be deduced.
pub mod board;
pub mod cells;
pub mod candidates;
pub mod detect;
pub mod solve;
