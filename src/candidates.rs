//! Per-cell candidate sets and the placement rule that propagates a value to
//! the peers of its cell.
use vstd::prelude::*;
use crate::cells::{CELLS, is_peer, peers};

verus! {

/// Abstract candidate state: for each of the 81 cells, 9 flags saying whether
/// that value is still possible there.
pub type Marks = Seq<Seq<bool>>;

/// The shape of a candidate state: 81 rows of 9 flags.
pub open spec fn marks_shaped(m: Marks) -> bool {
    m.len() == 81 && forall|i: int| 0 <= i < 81 ==> (#[trigger] m[i]).len() == 9
}

/// Every value possible at every cell.
pub open spec fn all_marks() -> Marks {
    Seq::new(81, |i: int| Seq::new(9, |w: int| true))
}

/// The state after placing `v` at `cell`: the cell keeps `v` alone, and every
/// peer loses `v`.
pub open spec fn placed(m: Marks, cell: int, v: int) -> Marks {
    Seq::new(
        81,
        |t: int|
            Seq::new(
                9,
                |w: int|
                    if t == cell {
                        w == v
                    } else if w == v && is_peer(cell, t) {
                        false
                    } else {
                        m[t][w]
                    },
            ),
    )
}

/// Every flag set in `a` is set in `b`.
pub open spec fn marks_within(a: Marks, b: Marks) -> bool {
    forall|i: int, w: int| 0 <= i < 81 && 0 <= w < 9 && #[trigger] a[i][w] ==> b[i][w]
}

/// Placing a value that is still a candidate only clears flags.
pub proof fn lemma_placed_within(m: Marks, cell: int, v: int)
    requires
        0 <= cell < 81,
        m[cell][v],
    ensures
        marks_within(placed(m, cell, v), m),
{
}

/// Placing a value where it was already excluded: the deductions have reached
/// an impossible state.
#[derive(Clone, Copy, Debug, PartialEq, Eq, Structural)]
pub struct Contradiction {
    pub cell: usize,
    pub value: u32,
}

/// Candidate flags of all 81 cells.
pub struct CandidateSet {
    pub rows: [[bool; 9]; 81],
}

impl View for CandidateSet {
    type V = Marks;

    open spec fn view(&self) -> Marks {
        Seq::new(81, |i: int| self.rows[i]@)
    }
}

impl CandidateSet {
    /// A candidate set in which every value is possible at every cell.
    pub fn full() -> (r: CandidateSet)
        ensures
            r@ == all_marks(),
    {
        let r = CandidateSet { rows: [[true; 9]; 81] };
        assert(r@ =~~= all_marks());
        r
    }

    /// Whether `value` is still a candidate at `cell`.
    pub fn has(&self, cell: usize, value: u32) -> (r: bool)
        requires
            cell < CELLS,
            value < 9,
        ensures
            r == self@[cell as int][value as int],
    {
        self.rows[cell][value as usize]
    }

    /// Commits `value` at `cell`: the cell keeps `value` as its only
    /// candidate and every peer loses `value`. Fails, changing nothing, when
    /// `value` is no longer a candidate at `cell`.
    pub fn place(&mut self, cell: usize, value: u32) -> (r: Result<(), Contradiction>)
        requires
            cell < CELLS,
            value < 9,
        ensures
            r is Err <==> !old(self)@[cell as int][value as int],
            r is Err ==> r == Err::<(), Contradiction>(Contradiction { cell, value }),
            r is Err ==> final(self)@ == old(self)@,
            r is Ok ==> final(self)@ == placed(old(self)@, cell as int, value as int),
            r is Ok ==> marks_within(final(self)@, old(self)@),
            r is Ok ==> forall|w: int|
                0 <= w < 9 ==> #[trigger] final(self)@[cell as int][w] == (w == value),
            r is Ok ==> forall|t: int|
                0 <= t < 81 && is_peer(cell as int, t) ==> !#[trigger] final(self)@[t][value as int],
    {
        let v = value as usize;
        if !self.rows[cell][v] {
            return Err(Contradiction { cell, value });
        }
        let ghost before = self@;
        let mut only = [false; 9];
        only[v] = true;
        self.rows[cell] = only;
        for t in 0..CELLS
            invariant
                cell < 81,
                v == value,
                v < 9,
                before[cell as int][v as int],
                forall|i: int, w: int|
                    0 <= i < 81 && 0 <= w < 9 ==> #[trigger] self.rows[i]@[w] == if i == cell {
                        w == v
                    } else if w == v && is_peer(cell as int, i) && i < t {
                        false
                    } else {
                        before[i][w]
                    },
        {
            if peers(cell, t) {
                self.rows[t][v] = false;
            }
        }
        assert(self@ =~~= placed(before, cell as int, v as int));
        Ok(())
    }
}

} // verus!
