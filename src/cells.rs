//! Geometry of the board: rows, columns, boxes and peers of a cell index.
use vstd::prelude::*;

verus! {

/// Number of cells on a board.
pub const CELLS: usize = 81;

/// Number of values a cell can hold (zero-based, shown as 1 to 9).
pub const VALUES: usize = 9;

/// Row of cell `i`.
pub open spec fn row_of(i: int) -> int {
    i / 9
}

/// Column of cell `i`.
pub open spec fn col_of(i: int) -> int {
    i % 9
}

/// 3x3 box of cell `i`, numbered row by row.
pub open spec fn box_of(i: int) -> int {
    (row_of(i) / 3) * 3 + col_of(i) / 3
}

/// `a` and `b` are distinct cells that share a row, a column or a box.
pub open spec fn is_peer(a: int, b: int) -> bool {
    a != b && (row_of(a) == row_of(b) || col_of(a) == col_of(b) || box_of(a) == box_of(b))
}

/// The three kinds of unit in which each value must occur once.
#[derive(Clone, Copy, Debug, PartialEq, Eq, Structural)]
pub enum Unit {
    Row,
    Column,
    Box,
}

/// Cells `a` and `b` lie in the same unit of kind `u` (a cell shares every unit with itself).
pub open spec fn same_unit(u: Unit, a: int, b: int) -> bool {
    match u {
        Unit::Row => row_of(a) == row_of(b),
        Unit::Column => col_of(a) == col_of(b),
        Unit::Box => box_of(a) == box_of(b),
    }
}

pub fn row_index(i: usize) -> (r: usize)
    requires
        i < CELLS,
    ensures
        r == row_of(i as int),
        r < 9,
{
    i / 9
}

pub fn col_index(i: usize) -> (r: usize)
    requires
        i < CELLS,
    ensures
        r == col_of(i as int),
        r < 9,
{
    i % 9
}

pub fn box_index(i: usize) -> (r: usize)
    requires
        i < CELLS,
    ensures
        r == box_of(i as int),
        r < 9,
{
    (row_index(i) / 3) * 3 + col_index(i) / 3
}

/// Whether cells `a` and `b` lie in the same unit of kind `u`.
pub fn in_same_unit(u: Unit, a: usize, b: usize) -> (r: bool)
    requires
        a < CELLS,
        b < CELLS,
    ensures
        r == same_unit(u, a as int, b as int),
{
    match u {
        Unit::Row => row_index(a) == row_index(b),
        Unit::Column => col_index(a) == col_index(b),
        Unit::Box => box_index(a) == box_index(b),
    }
}

/// Whether `a` and `b` are peers.
pub fn peers(a: usize, b: usize) -> (r: bool)
    requires
        a < CELLS,
        b < CELLS,
    ensures
        r == is_peer(a as int, b as int),
{
    a != b && (in_same_unit(Unit::Row, a, b) || in_same_unit(Unit::Column, a, b) || in_same_unit(
        Unit::Box,
        a,
        b,
    ))
}

} // verus!
