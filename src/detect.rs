//! Detection of forced placements: naked singles and hidden singles.
use vstd::prelude::*;
use crate::candidates::{CandidateSet, Marks};
use crate::cells::{CELLS, Unit, in_same_unit, same_unit};

verus! {

/// A deduction: `value` is forced at `cell`.
pub type Forced = (usize, u32);

/// Number of cells below `n` in the unit of kind `u` of `cell` that still
/// carry `v`.
pub open spec fn unit_count(m: Marks, u: Unit, cell: int, v: int, n: int) -> nat
    decreases n,
{
    if n <= 0 {
        0
    } else {
        unit_count(m, u, cell, v, n - 1) + if same_unit(u, cell, n - 1) && m[n - 1][v] {
            1nat
        } else {
            0nat
        }
    }
}

/// `v` is carried by exactly one cell of the row, of the column or of the box
/// of `cell`.
pub open spec fn hidden_single(m: Marks, cell: int, v: int) -> bool {
    unit_count(m, Unit::Row, cell, v, 81) == 1 || unit_count(m, Unit::Column, cell, v, 81) == 1
        || unit_count(m, Unit::Box, cell, v, 81) == 1
}

/// Number of set flags among the first `n` of `row`.
pub open spec fn count_true(row: Seq<bool>, n: int) -> nat
    decreases n,
{
    if n <= 0 {
        0
    } else {
        count_true(row, n - 1) + if row[n - 1] {
            1nat
        } else {
            0nat
        }
    }
}

/// Lowest index below `n` whose flag is set in `row`, or 9 if there is none.
pub open spec fn lowest_true(row: Seq<bool>, n: int) -> int
    decreases n,
{
    if n <= 0 {
        9
    } else if lowest_true(row, n - 1) < 9 {
        lowest_true(row, n - 1)
    } else if row[n - 1] {
        n - 1
    } else {
        9
    }
}

/// The naked-single deduction at `cell`: its one remaining candidate, if it
/// has exactly one.
pub open spec fn naked_finds(m: Marks, cell: int) -> Seq<Forced> {
    if count_true(m[cell], 9) == 1 {
        seq![(cell as usize, lowest_true(m[cell], 9) as u32)]
    } else {
        seq![]
    }
}

/// The hidden-single deductions at `cell` for the values below `n`, in
/// increasing order of value.
pub open spec fn hidden_finds(m: Marks, cell: int, n: int) -> Seq<Forced>
    decreases n,
{
    if n <= 0 {
        seq![]
    } else {
        hidden_finds(m, cell, n - 1) + if m[cell][n - 1] && hidden_single(m, cell, n - 1) {
            seq![(cell as usize, (n - 1) as u32)]
        } else {
            seq![]
        }
    }
}

/// All deductions at `cell`: none for a filled cell, else the naked single
/// followed by the hidden singles.
pub open spec fn cell_finds(b: Seq<Option<u32>>, m: Marks, cell: int) -> Seq<Forced> {
    if b[cell] is None {
        naked_finds(m, cell) + hidden_finds(m, cell, 9)
    } else {
        seq![]
    }
}

/// The deductions at the cells below `n`, in increasing order of cell.
pub open spec fn forced_upto(b: Seq<Option<u32>>, m: Marks, n: int) -> Seq<Forced>
    decreases n,
{
    if n <= 0 {
        seq![]
    } else {
        forced_upto(b, m, n - 1) + cell_finds(b, m, n - 1)
    }
}

/// Every deduction on the board, in the order in which the scan finds them.
pub open spec fn forced(b: Seq<Option<u32>>, m: Marks) -> Seq<Forced> {
    forced_upto(b, m, 81)
}

/// A row with a set flag below `n` has its lowest set flag below `n`; a row
/// with none gives 9.
pub proof fn lemma_lowest_true_in_range(row: Seq<bool>, n: int)
    requires
        0 <= n <= 9,
    ensures
        0 <= lowest_true(row, n) <= 9,
        count_true(row, n) > 0 ==> lowest_true(row, n) < n,
        count_true(row, n) == 0 ==> lowest_true(row, n) == 9,
    decreases n,
{
    if n > 0 {
        lemma_lowest_true_in_range(row, n - 1);
    }
}

/// The hidden singles at `cell` below `n` all name `cell` and a value below `n`.
pub proof fn lemma_hidden_finds_in_range(m: Marks, cell: int, n: int)
    requires
        0 <= cell < 81,
        0 <= n <= 9,
    ensures
        forall|k: int|
            0 <= k < hidden_finds(m, cell, n).len() ==> (#[trigger] hidden_finds(m, cell, n)[k]).0
                == cell && hidden_finds(m, cell, n)[k].1 < n,
    decreases n,
{
    if n > 0 {
        lemma_hidden_finds_in_range(m, cell, n - 1);
        let prev = hidden_finds(m, cell, n - 1);
        assert forall|k: int| 0 <= k < hidden_finds(m, cell, n).len() implies (
        #[trigger] hidden_finds(m, cell, n)[k]).0 == cell && hidden_finds(m, cell, n)[k].1 < n by {
            if k < prev.len() {
                assert(hidden_finds(m, cell, n)[k] == prev[k]);
            }
        }
    }
}

/// The deductions at the cells below `n` name empty cells below `n` and values below 9.
pub proof fn lemma_forced_upto_in_range(b: Seq<Option<u32>>, m: Marks, n: int)
    requires
        b.len() == 81,
        0 <= n <= 81,
    ensures
        forall|k: int|
            0 <= k < forced_upto(b, m, n).len() ==> {
                let f = #[trigger] forced_upto(b, m, n)[k];
                &&& f.0 < n
                &&& f.1 < 9
                &&& b[f.0 as int] is None
            },
    decreases n,
{
    if n > 0 {
        let cell = n - 1;
        lemma_forced_upto_in_range(b, m, n - 1);
        lemma_hidden_finds_in_range(m, cell, 9);
        lemma_lowest_true_in_range(m[cell], 9);
        let prev = forced_upto(b, m, n - 1);
        let here = cell_finds(b, m, cell);
        assert forall|k: int| 0 <= k < forced_upto(b, m, n).len() implies {
            let f = #[trigger] forced_upto(b, m, n)[k];
            &&& f.0 < n
            &&& f.1 < 9
            &&& b[f.0 as int] is None
        } by {
            if k < prev.len() {
                assert(forced_upto(b, m, n)[k] == prev[k]);
            } else {
                let j = k - prev.len();
                assert(forced_upto(b, m, n)[k] == here[j]);
                assert(b[cell] is None);
                let nk = naked_finds(m, cell);
                if j >= nk.len() {
                    assert(here[j] == hidden_finds(m, cell, 9)[j - nk.len()]);
                } else {
                    assert(here[j] == nk[j]);
                }
            }
        }
    }
}

/// How many cells of the unit of kind `u` of `cell` still carry `value`.
pub fn count_in_unit(c: &CandidateSet, u: Unit, cell: usize, value: u32) -> (r: u32)
    requires
        cell < CELLS,
        value < 9,
    ensures
        r == unit_count(c@, u, cell as int, value as int, 81),
{
    let mut count: u32 = 0;
    for t in 0..CELLS
        invariant
            cell < CELLS,
            value < 9,
            count == unit_count(c@, u, cell as int, value as int, t as int),
            count <= t,
    {
        if in_same_unit(u, cell, t) && c.has(t, value) {
            count = count + 1;
        }
    }
    count
}

/// The only candidate left at `cell`, if exactly one is left.
pub fn naked_single(c: &CandidateSet, cell: usize) -> (r: Option<u32>)
    requires
        cell < CELLS,
    ensures
        r == (if count_true(c@[cell as int], 9) == 1 {
            Some(lowest_true(c@[cell as int], 9) as u32)
        } else {
            None::<u32>
        }),
{
    let mut count: u32 = 0;
    let mut lowest: u32 = 9;
    for w in 0..9u32
        invariant
            cell < CELLS,
            count == count_true(c@[cell as int], w as int),
            lowest == lowest_true(c@[cell as int], w as int),
            count <= w,
    {
        if c.has(cell, w) {
            count = count + 1;
            if lowest == 9 {
                lowest = w;
            }
        }
    }
    if count == 1 {
        Some(lowest)
    } else {
        None
    }
}

/// Whether `value` is carried by exactly one cell of some unit of `cell`.
pub fn is_hidden_single(c: &CandidateSet, cell: usize, value: u32) -> (r: bool)
    requires
        cell < CELLS,
        value < 9,
    ensures
        r == hidden_single(c@, cell as int, value as int),
{
    count_in_unit(c, Unit::Row, cell, value) == 1 || count_in_unit(c, Unit::Column, cell, value)
        == 1 || count_in_unit(c, Unit::Box, cell, value) == 1
}

/// Scans the empty cells in increasing order and returns every forced
/// placement: at each cell its naked single, then its hidden singles by
/// increasing value. The scan reads the board and candidates only.
pub fn find_forced(board: &Vec<Option<u32>>, c: &CandidateSet) -> (r: Vec<Forced>)
    requires
        board@.len() == CELLS,
    ensures
        r@ == forced(board@, c@),
{
    let mut found: Vec<Forced> = Vec::new();
    for cell in 0..CELLS
        invariant
            board@.len() == CELLS,
            found@ == forced_upto(board@, c@, cell as int),
    {
        if board[cell].is_none() {
            let ghost start = found@;
            if let Some(w) = naked_single(c, cell) {
                found.push((cell, w));
            }
            assert(found@ == start + naked_finds(c@, cell as int));
            for value in 0..9u32
                invariant
                    cell < CELLS,
                    found@ == start + naked_finds(c@, cell as int) + hidden_finds(
                        c@,
                        cell as int,
                        value as int,
                    ),
            {
                if c.has(cell, value) && is_hidden_single(c, cell, value) {
                    found.push((cell, value));
                }
                assert(found@ =~= start + naked_finds(c@, cell as int) + hidden_finds(
                    c@,
                    cell as int,
                    value + 1,
                ));
            }
            assert(found@ =~= forced_upto(board@, c@, cell + 1));
        } else {
            assert(found@ =~= forced_upto(board@, c@, cell + 1));
        }
    }
    found
}

} // verus!
