//! The board: 81 cells, each empty or holding a zero-based value, read from
//! and written to nine lines of nine characters.
use vstd::prelude::*;
use crate::cells::CELLS;

verus! {

/// The 81 cells in row order; `Some(v)` holds the zero-based value `v`.
pub type Board = Vec<Option<u32>>;

/// A board of 81 cells whose values are all below 9.
pub open spec fn board_ok(b: Seq<Option<u32>>) -> bool {
    b.len() == 81 && forall|i: int| 0 <= i < 81 ==> (#[trigger] b[i] matches Some(v) ==> v < 9)
}

/// Why a text grid could not be read.
#[derive(Debug, PartialEq, Eq)]
pub enum GridError {
    /// The source could not be opened or read; the message says why.
    IoError(String),
    /// A line whose length is not 9 characters.
    MalformedLine(Vec<char>),
    /// The source does not hold exactly 9 lines.
    MalformedGrid,
}

/// The cell that a character stands for: a digit 1 to 9 is that value (zero-based);
/// anything else is an empty cell.
pub open spec fn cell_of_char(c: char) -> Option<u32> {
    if '1' <= c && c <= '9' {
        Some((c as u32 - '1' as u32) as u32)
    } else {
        None
    }
}

/// The lines below `n` are all 9 characters long.
pub open spec fn lines_sized_upto(lines: Seq<Vec<char>>, n: int) -> bool {
    forall|i: int| 0 <= i < n ==> (#[trigger] lines[i])@.len() == 9
}

/// The board that nine lines of nine characters describe.
pub open spec fn board_of_lines(lines: Seq<Vec<char>>) -> Seq<Option<u32>> {
    Seq::new(81, |i: int| cell_of_char(lines[i / 9]@[i % 9]))
}

/// The byte that shows a cell: its digit 1 to 9, or a space when empty.
pub open spec fn cell_byte(c: Option<u32>) -> u8 {
    match c {
        Some(v) => (v + 49) as u8,
        None => 32u8,
    }
}

/// The text of a board: 9 lines of 9 cell bytes, each line ended by a newline.
pub open spec fn rendered(b: Seq<Option<u32>>) -> Seq<u8> {
    Seq::new(
        90,
        |k: int|
            if k % 10 == 9 {
                10u8
            } else {
                cell_byte(b[(k / 10) * 9 + k % 10])
            },
    )
}

/// The cell that character `c` stands for.
pub fn char_cell(c: char) -> (r: Option<u32>)
    ensures
        r == cell_of_char(c),
{
    if '1' <= c && c <= '9' {
        Some(c as u32 - '1' as u32)
    } else {
        None
    }
}

/// Reads a board from its lines. The lines are checked in order: the first
/// whose length is not 9 is reported; if all have 9 characters but there are
/// not 9 lines, the grid is malformed. No other check is made.
pub fn parse_board(lines: &Vec<Vec<char>>) -> (r: Result<Board, GridError>)
    ensures
        match r {
            Ok(b) => lines@.len() == 9 && lines_sized_upto(lines@, 9) && b@ == board_of_lines(
                lines@,
            ) && board_ok(b@),
            Err(GridError::MalformedLine(l)) => exists|i: int|
                0 <= i < lines@.len() && lines_sized_upto(lines@, i) && lines@[i]@.len() != 9
                    && l@ == #[trigger] lines@[i]@,
            Err(GridError::MalformedGrid) => lines@.len() != 9 && lines_sized_upto(
                lines@,
                lines@.len() as int,
            ),
            Err(GridError::IoError(_)) => false,
        },
{
    for i in 0..lines.len()
        invariant
            lines_sized_upto(lines@, i as int),
    {
        if lines[i].len() != 9 {
            let line = &lines[i];
            let mut copy: Vec<char> = Vec::new();
            for k in 0..line.len()
                invariant
                    copy@ == line@.subrange(0, k as int),
            {
                copy.push(line[k]);
            }
            assert(copy@ =~= lines@[i as int]@);
            return Err(GridError::MalformedLine(copy));
        }
    }
    if lines.len() != 9 {
        return Err(GridError::MalformedGrid);
    }
    let mut board: Board = Vec::new();
    for i in 0..CELLS
        invariant
            lines@.len() == 9,
            lines_sized_upto(lines@, 9),
            board@ == board_of_lines(lines@).subrange(0, i as int),
    {
        board.push(char_cell(lines[i / 9][i % 9]));
    }
    assert(board@ =~= board_of_lines(lines@));
    Ok(board)
}

/// The text of `board`: 9 lines of 9 characters, a digit 1 to 9 for a filled
/// cell and a space for an empty one.
pub fn render_board(board: &Board) -> (r: Vec<u8>)
    requires
        board_ok(board@),
    ensures
        r@ == rendered(board@),
{
    let mut out: Vec<u8> = Vec::new();
    for row in 0..9usize
        invariant
            board_ok(board@),
            out@ == rendered(board@).subrange(0, (row * 10) as int),
    {
        for col in 0..9usize
            invariant
                board_ok(board@),
                row < 9,
                out@ == rendered(board@).subrange(0, (row * 10 + col) as int),
        {
            let byte: u8 = match board[row * 9 + col] {
                Some(v) => (v + 49) as u8,
                None => 32u8,
            };
            out.push(byte);
            assert(out@ =~= rendered(board@).subrange(0, (row * 10 + col + 1) as int));
        }
        out.push(10u8);
        assert(out@ =~= rendered(board@).subrange(0, (row * 10 + 10) as int));
    }
    assert(out@ =~= rendered(board@));
    out
}

} // verus!
