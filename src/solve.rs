//! The driver: place the given values, then apply forced placements round
//! after round until no deduction is left.
use vstd::prelude::*;
use crate::board::{Board, board_ok};
use crate::candidates::{
    CandidateSet, Contradiction, Marks, all_marks, lemma_placed_within, marks_within, placed,
};
use crate::cells::{CELLS, is_peer};
use crate::detect::{Forced, cell_finds, find_forced, forced, forced_upto, lemma_forced_upto_in_range};

verus! {

/// How a run of the driver ended.
#[derive(Clone, Copy, Debug, PartialEq, Eq, Structural)]
pub enum Outcome {
    /// No deduction is left and every cell is filled.
    Solved,
    /// No deduction is left and some cells are still empty.
    Stuck,
    /// A placement met a value that was already excluded at its cell.
    Contradiction,
}

/// Number of empty cells among the first `n`.
pub open spec fn empties_upto(b: Seq<Option<u32>>, n: int) -> nat
    decreases n,
{
    if n <= 0 {
        0
    } else {
        empties_upto(b, n - 1) + if b[n - 1] is None {
            1nat
        } else {
            0nat
        }
    }
}

/// Number of empty cells on the board.
pub open spec fn empties(b: Seq<Option<u32>>) -> nat {
    empties_upto(b, b.len() as int)
}

/// Every deduction names a cell and a value in range.
pub open spec fn forced_in_range(fs: Seq<Forced>) -> bool {
    forall|k: int| 0 <= k < fs.len() ==> (#[trigger] fs[k]).0 < 81 && fs[k].1 < 9
}

/// Applies the deductions of `fs` in order, writing each value into the board
/// and placing it, and stops at the first whose value is already excluded.
/// Gives whether all were applied, and the board and candidates reached.
pub open spec fn apply_all(b: Seq<Option<u32>>, m: Marks, fs: Seq<Forced>) -> (
    bool,
    Seq<Option<u32>>,
    Marks,
)
    decreases fs.len(),
{
    if fs.len() == 0 {
        (true, b, m)
    } else {
        let (ok, b2, m2) = apply_all(b, m, fs.drop_last());
        let cell = fs.last().0 as int;
        let v = fs.last().1;
        if ok && m2[cell][v as int] {
            (true, b2.update(cell, Some(v)), placed(m2, cell, v as int))
        } else {
            (false, b2, m2)
        }
    }
}

/// Places the given values of the cells below `n` in order, starting from
/// all candidates; stops at the first given value that is already excluded.
pub open spec fn givens_placed(b: Seq<Option<u32>>, n: int) -> (bool, Marks)
    decreases n,
{
    if n <= 0 {
        (true, all_marks())
    } else {
        let (ok, m) = givens_placed(b, n - 1);
        match b[n - 1] {
            Some(v) => if ok && m[n - 1][v as int] {
                (true, placed(m, n - 1, v as int))
            } else {
                (false, m)
            },
            None => (ok, m),
        }
    }
}

/// Rounds of detection and application from board `b` and candidates `m`
/// until a round finds nothing or meets a contradiction. Gives the outcome
/// and the board and candidates at the end. The last branch is never taken
/// on a board of 81 cells: a round that applies fills a cell
/// (`lemma_round_fills`).
pub open spec fn run(b: Seq<Option<u32>>, m: Marks) -> (Outcome, Seq<Option<u32>>, Marks)
    decreases empties(b),
{
    let fs = forced(b, m);
    if fs.len() == 0 {
        (if empties(b) == 0 {
            Outcome::Solved
        } else {
            Outcome::Stuck
        }, b, m)
    } else {
        let (ok, b2, m2) = apply_all(b, m, fs);
        if !ok {
            (Outcome::Contradiction, b2, m2)
        } else if empties(b2) < empties(b) {
            run(b2, m2)
        } else {
            (Outcome::Stuck, b2, m2)
        }
    }
}

/// A whole solving run on board `b`: the given values are placed, then the
/// rounds run. A contradiction among the givens leaves the board as it is.
pub open spec fn solve_state(b: Seq<Option<u32>>) -> (Outcome, Seq<Option<u32>>, Marks) {
    let (ok, m) = givens_placed(b, 81);
    if ok {
        run(b, m)
    } else {
        (Outcome::Contradiction, b, m)
    }
}

/// Number of empty cells of `board`.
pub fn count_empty(board: &Board) -> (r: usize)
    requires
        board@.len() == CELLS,
    ensures
        r == empties(board@),
{
    let mut n: usize = 0;
    for i in 0..CELLS
        invariant
            board@.len() == CELLS,
            n == empties_upto(board@, i as int),
            n <= i,
    {
        if board[i].is_none() {
            n = n + 1;
        }
    }
    n
}

/// Candidates after placing every given value of `board` in cell order.
/// Fails when a given value was already excluded by an earlier one.
pub fn initial_candidates(board: &Board) -> (r: Result<CandidateSet, Contradiction>)
    requires
        board_ok(board@),
    ensures
        match r {
            Ok(c) => givens_placed(board@, 81) == (true, c@),
            Err(_) => !givens_placed(board@, 81).0,
        },
{
    let mut c = CandidateSet::full();
    for i in 0..CELLS
        invariant
            board_ok(board@),
            givens_placed(board@, i as int) == (true, c@),
    {
        if let Some(v) = board[i] {
            match c.place(i, v) {
                Ok(()) => {},
                Err(e) => {
                    proof {
                        lemma_givens_stay_failed(board@, i as int + 1, 81);
                    }
                    return Err(e);
                },
            }
        }
    }
    Ok(c)
}

/// Once placing the givens has failed, it stays failed.
proof fn lemma_givens_stay_failed(b: Seq<Option<u32>>, n: int, k: int)
    requires
        n <= k,
        !givens_placed(b, n).0,
    ensures
        !givens_placed(b, k).0,
    decreases k - n,
{
    if n < k {
        lemma_givens_stay_failed(b, n, k - 1);
    }
}

/// Writes each deduction of `found` into the board and places it, in order.
/// Stops at the first whose value is already excluded at its cell.
pub fn apply_forced(board: &mut Board, c: &mut CandidateSet, found: &Vec<Forced>) -> (r: Result<
    (),
    Contradiction,
>)
    requires
        board_ok(old(board)@),
        forced_in_range(found@),
    ensures
        board_ok(final(board)@),
        apply_all(old(board)@, old(c)@, found@) == (r is Ok, final(board)@, final(c)@),
{
    let ghost b0 = board@;
    let ghost m0 = c@;
    for k in 0..found.len()
        invariant
            board_ok(board@),
            forced_in_range(found@),
            b0 == old(board)@,
            m0 == old(c)@,
            apply_all(b0, m0, found@.take(k as int)) == (true, board@, c@),
    {
        let (cell, v) = found[k];
        assert(found@.take(k + 1).drop_last() == found@.take(k as int));
        match c.place(cell, v) {
            Ok(()) => {},
            Err(e) => {
                proof {
                    assert(found@.take(k + 1).last() == found@[k as int]);
                    assert(apply_all(b0, m0, found@.take(k + 1)) == (false, board@, c@));
                    lemma_apply_stays_failed(b0, m0, found@, k as int + 1, found@.len() as int);
                    assert(found@.take(found@.len() as int) =~= found@);
                    assert(apply_all(b0, m0, found@) == (false, board@, c@));
                }
                return Err(e);
            },
        }
        board.set(cell, Some(v));
    }
    assert(found@.take(found@.len() as int) == found@);
    Ok(())
}

/// Once applying deductions has failed, applying more leaves the state as it was.
proof fn lemma_apply_stays_failed(b: Seq<Option<u32>>, m: Marks, fs: Seq<Forced>, n: int, k: int)
    requires
        0 <= n <= k <= fs.len(),
        !apply_all(b, m, fs.take(n)).0,
    ensures
        apply_all(b, m, fs.take(k)) == apply_all(b, m, fs.take(n)),
    decreases k - n,
{
    if n < k {
        lemma_apply_stays_failed(b, m, fs, n, k - 1);
        assert(fs.take(k).drop_last() == fs.take(k - 1));
    }
}

/// Filling a cell lowers the count of empty cells by one if it was empty,
/// and leaves it as it is otherwise.
proof fn lemma_empties_fill(b: Seq<Option<u32>>, i: int, v: u32, n: int)
    requires
        0 <= i < b.len(),
        0 <= n <= b.len(),
    ensures
        empties_upto(b.update(i, Some(v)), n) == empties_upto(b, n) - if i < n && b[i] is None {
            1int
        } else {
            0int
        },
    decreases n,
{
    if n > 0 {
        lemma_empties_fill(b, i, v, n - 1);
    }
}

/// Applying deductions keeps the board's size and never adds an empty cell;
/// when all apply and the first names an empty cell, one cell fewer is empty.
proof fn lemma_apply_fills(b: Seq<Option<u32>>, m: Marks, fs: Seq<Forced>)
    requires
        b.len() == 81,
        forced_in_range(fs),
    ensures
        apply_all(b, m, fs).1.len() == 81,
        empties(apply_all(b, m, fs).1) <= empties(b),
        fs.len() > 0 && apply_all(b, m, fs).0 && b[fs[0].0 as int] is None ==> empties(
            apply_all(b, m, fs).1,
        ) < empties(b),
    decreases fs.len(),
{
    if fs.len() > 0 {
        let prefix = fs.drop_last();
        assert(forced_in_range(prefix));
        lemma_apply_fills(b, m, prefix);
        let (ok, b2, m2) = apply_all(b, m, prefix);
        let cell = fs.last().0 as int;
        if ok && m2[cell][fs.last().1 as int] {
            lemma_empties_fill(b2, cell, fs.last().1, 81);
            if prefix.len() > 0 {
                assert(prefix[0] == fs[0]);
            }
        }
    }
}

/// Runs the solver on `board`: places its given values, then repeatedly finds
/// the forced placements and applies them in order, until a round finds none
/// or a placement meets an excluded value. The board holds the values filled
/// in, and the outcome says how the run ended.
pub fn fill_number_with_uniqness(board: &mut Board) -> (r: Outcome)
    requires
        board_ok(old(board)@),
    ensures
        board_ok(final(board)@),
        r == solve_state(old(board)@).0,
        final(board)@ == solve_state(old(board)@).1,
        keeps_filled(old(board)@, final(board)@),
{
    proof {
        lemma_solve_keeps_givens(board@);
    }
    let mut c = match initial_candidates(board) {
        Ok(c) => c,
        Err(_) => return Outcome::Contradiction,
    };
    let ghost target = solve_state(board@);
    loop
        invariant
            board_ok(board@),
            run(board@, c@) == target,
            target == solve_state(old(board)@),
            keeps_filled(old(board)@, target.1),
        decreases empties(board@),
    {
        let found = find_forced(board, &c);
        if found.len() == 0 {
            return if count_empty(board) == 0 {
                Outcome::Solved
            } else {
                Outcome::Stuck
            };
        }
        let ghost b1 = board@;
        let ghost m1 = c@;
        proof {
            lemma_forced_upto_in_range(b1, m1, 81);
            lemma_apply_fills(b1, m1, found@);
        }
        match apply_forced(board, &mut c, &found) {
            Ok(()) => {},
            Err(_) => return Outcome::Contradiction,
        }
    }
}

/// A filled board with no value repeated in a row, a column or a box.
pub open spec fn full_and_legal(b: Seq<Option<u32>>) -> bool {
    &&& board_ok(b)
    &&& forall|i: int| 0 <= i < 81 ==> (#[trigger] b[i]) is Some
    &&& forall|i: int, j: int|
        0 <= i < 81 && 0 <= j < 81 && is_peer(i, j) ==> #[trigger] b[i] != #[trigger] b[j]
}

/// Through any sequence of placements the candidates only shrink: the
/// candidates after the first `k` deductions of `fs` lie within those after
/// the first `j`, for every `j <= k`.
pub proof fn lemma_candidates_only_shrink(
    b: Seq<Option<u32>>,
    m: Marks,
    fs: Seq<Forced>,
    j: int,
    k: int,
)
    requires
        0 <= j <= k <= fs.len(),
        forced_in_range(fs),
    ensures
        marks_within(apply_all(b, m, fs.take(k)).2, apply_all(b, m, fs.take(j)).2),
    decreases k - j,
{
    if j < k {
        lemma_candidates_only_shrink(b, m, fs, j, k - 1);
        assert(fs.take(k).drop_last() == fs.take(k - 1));
        let (ok, b2, m2) = apply_all(b, m, fs.take(k - 1));
        let f = fs[k - 1];
        assert(fs.take(k).last() == f);
        if ok && m2[f.0 as int][f.1 as int] {
            lemma_placed_within(m2, f.0 as int, f.1 as int);
        }
    }
}

/// A round that finds deductions and applies them all leaves fewer empty
/// cells, so the rounds come to an end.
pub proof fn lemma_round_fills(b: Seq<Option<u32>>, m: Marks)
    requires
        b.len() == 81,
        forced(b, m).len() > 0,
        apply_all(b, m, forced(b, m)).0,
    ensures
        empties(apply_all(b, m, forced(b, m)).1) < empties(b),
{
    lemma_forced_upto_in_range(b, m, 81);
    lemma_apply_fills(b, m, forced(b, m));
}

/// A run that ends without contradiction ends where detection finds nothing.
proof fn lemma_run_quiescent(b: Seq<Option<u32>>, m: Marks)
    requires
        b.len() == 81,
    ensures
        run(b, m).0 != Outcome::Contradiction ==> forced(run(b, m).1, run(b, m).2).len() == 0,
    decreases empties(b),
{
    let fs = forced(b, m);
    if fs.len() > 0 {
        let (ok, b2, m2) = apply_all(b, m, fs);
        if ok {
            lemma_round_fills(b, m);
            lemma_forced_upto_in_range(b, m, 81);
            lemma_apply_fills(b, m, fs);
            lemma_run_quiescent(b2, m2);
        }
    }
}

/// After a solving run that met no contradiction, detection on the final
/// board and candidates finds nothing more.
pub proof fn lemma_solve_quiescent(b: Seq<Option<u32>>)
    requires
        board_ok(b),
    ensures
        solve_state(b).0 != Outcome::Contradiction ==> forced(
            solve_state(b).1,
            solve_state(b).2,
        ).len() == 0,
{
    let (ok, m) = givens_placed(b, 81);
    if ok {
        lemma_run_quiescent(b, m);
    }
}

/// On a full legal board, placing the givens in order never fails, and each
/// later cell keeps its own value as a candidate.
proof fn lemma_legal_givens(b: Seq<Option<u32>>, n: int)
    requires
        full_and_legal(b),
        0 <= n <= 81,
    ensures
        givens_placed(b, n).0,
        forall|i: int|
            n <= i < 81 ==> #[trigger] givens_placed(b, n).1[i][b[i]->0 as int],
    decreases n,
{
    if n > 0 {
        lemma_legal_givens(b, n - 1);
        let m = givens_placed(b, n - 1).1;
        let v = b[n - 1]->0;
        assert(m[n - 1][v as int]);
        assert forall|i: int| n <= i < 81 implies #[trigger] givens_placed(b, n).1[i][b[i]->0 as int] by {
            assert(m[i][b[i]->0 as int]);
            if is_peer(n - 1, i) {
                assert(b[n - 1] != b[i]);
            }
        }
    }
}

/// A full board has no empty cell and no deduction.
proof fn lemma_full_board_settled(b: Seq<Option<u32>>, m: Marks, n: int)
    requires
        full_and_legal(b),
        0 <= n <= 81,
    ensures
        empties_upto(b, n) == 0,
        forced_upto(b, m, n).len() == 0,
    decreases n,
{
    if n > 0 {
        lemma_full_board_settled(b, m, n - 1);
        assert(b[n - 1] is Some);
        assert(cell_finds(b, m, n - 1).len() == 0);
    }
}

/// Solving a full legal board changes nothing: the givens place without
/// contradiction, detection finds nothing, and the board comes back solved
/// and unchanged.
pub proof fn lemma_full_legal_board_is_fixed(b: Seq<Option<u32>>)
    requires
        full_and_legal(b),
    ensures
        solve_state(b).0 == Outcome::Solved,
        solve_state(b).1 == b,
{
    lemma_legal_givens(b, 81);
    lemma_full_board_settled(b, givens_placed(b, 81).1, 81);
}

/// Every filled cell among the first `n` keeps at most its own value as a candidate.
pub open spec fn filled_consistent(b: Seq<Option<u32>>, m: Marks, n: int) -> bool {
    forall|c: int, w: int|
        0 <= c < n && 0 <= w < 9 && b[c] is Some && #[trigger] m[c][w] ==> w == b[c]->0
}

/// The filled cells of `a` hold the same values in `b`.
pub open spec fn keeps_filled(a: Seq<Option<u32>>, b: Seq<Option<u32>>) -> bool {
    forall|c: int| 0 <= c < 81 && (#[trigger] a[c]) is Some ==> b[c] == a[c]
}

/// Placing the givens in order leaves each placed cell with its own value alone.
proof fn lemma_givens_consistent(b: Seq<Option<u32>>, n: int)
    requires
        0 <= n <= 81,
        givens_placed(b, n).0,
    ensures
        filled_consistent(b, givens_placed(b, n).1, n),
    decreases n,
{
    if n > 0 {
        let (ok, m) = givens_placed(b, n - 1);
        assert(ok) by {
            if !ok {
                assert(!givens_placed(b, n).0);
            }
        }
        lemma_givens_consistent(b, n - 1);
    }
}

/// Applying deductions never changes a filled cell and keeps filled cells consistent.
proof fn lemma_apply_keeps_filled(b: Seq<Option<u32>>, m: Marks, fs: Seq<Forced>)
    requires
        b.len() == 81,
        forced_in_range(fs),
        filled_consistent(b, m, 81),
    ensures
        keeps_filled(b, apply_all(b, m, fs).1),
        filled_consistent(apply_all(b, m, fs).1, apply_all(b, m, fs).2, 81),
    decreases fs.len(),
{
    if fs.len() > 0 {
        let prefix = fs.drop_last();
        assert(forced_in_range(prefix));
        lemma_apply_keeps_filled(b, m, prefix);
        lemma_apply_fills(b, m, prefix);
        let (ok, b2, m2) = apply_all(b, m, prefix);
        let cell = fs.last().0 as int;
        let v = fs.last().1;
        if ok && m2[cell][v as int] {
            let b3 = b2.update(cell, Some(v));
            let m3 = placed(m2, cell, v as int);
            assert forall|c: int| 0 <= c < 81 && (#[trigger] b[c]) is Some implies b3[c] == b[c] by {
                if c == cell {
                    assert(m2[c][v as int]);
                }
            }
            assert forall|c: int, w: int|
                0 <= c < 81 && 0 <= w < 9 && b3[c] is Some && #[trigger] m3[c][w] implies w
                == b3[c]->0 by {
                if c != cell {
                    assert(m2[c][w]);
                }
            }
        }
    }
}

/// A run of rounds never changes a filled cell.
proof fn lemma_run_keeps_filled(b: Seq<Option<u32>>, m: Marks)
    requires
        b.len() == 81,
        filled_consistent(b, m, 81),
    ensures
        keeps_filled(b, run(b, m).1),
    decreases empties(b),
{
    let fs = forced(b, m);
    if fs.len() > 0 {
        lemma_forced_upto_in_range(b, m, 81);
        lemma_apply_keeps_filled(b, m, fs);
        lemma_apply_fills(b, m, fs);
        let (ok, b2, m2) = apply_all(b, m, fs);
        if ok && empties(b2) < empties(b) {
            lemma_run_keeps_filled(b2, m2);
        }
    }
}

/// A solving run never clears or changes a cell that was set: each given
/// value is still in place at the end.
pub proof fn lemma_solve_keeps_givens(b: Seq<Option<u32>>)
    requires
        board_ok(b),
    ensures
        keeps_filled(b, solve_state(b).1),
{
    let (ok, m) = givens_placed(b, 81);
    if ok {
        lemma_givens_consistent(b, 81);
        lemma_run_keeps_filled(b, m);
    }
}

} // verus!
