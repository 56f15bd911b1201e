//! Solved states that compare pieces with the standard solved state directly.

use vstd::prelude::*;

use crate::arith::lemma_index_bound;
use crate::perm::lemma_permutation_onto;
use crate::puzzle::label::label::RowGrids;
use crate::puzzle::puzzle::Puzzle;
use crate::puzzle::sliding_puzzle::label_solved_pieces;
use crate::puzzle::solved_state::lemma_solved_pieces;
use crate::puzzle::size::group_size;

verus! {

broadcast use group_size;

/// Defines a solved state of a [`Puzzle`].
pub trait SolvedState {
    /// Whether `puzzle` is solved, in specifications.
    spec fn spec_is_solved(puzzle: &Puzzle) -> bool;

    /// Checks if `puzzle` is solved.
    fn is_solved(puzzle: &Puzzle) -> (r: bool)
        requires
            puzzle.wf(),
        ensures
            r == Self::spec_is_solved(puzzle),
    ;
}

impl Puzzle {
    /// Checks if the puzzle is solved in the sense of `S`.
    pub fn is_solved<S: SolvedState>(&self) -> (r: bool)
        requires
            self.wf(),
        ensures
            r == S::spec_is_solved(self),
    {
        S::is_solved(self)
    }
}

/// Solved when piece `i + 1` is at position `i` for every position but the last, which holds the
/// gap.
pub struct Rows;

/// Solved when the pieces are numbered down the columns: piece `1 + y + h * x` at `(x, y)`, with
/// the gap in the bottom right corner.
pub struct Columns;

/// Solved when every piece is in the row of its home position, with the gap in the bottom right
/// corner.
pub struct RowsSetwise;

/// Solved when every piece is in the column of its home position, with the gap in the bottom
/// right corner.
pub struct ColumnsSetwise;

impl SolvedState for Rows {
    open spec fn spec_is_solved(puzzle: &Puzzle) -> bool {
        &&& puzzle.spec_gap() == puzzle@.len() - 1
        &&& forall|x: int, y: int|
            0 <= x < puzzle.w() && 0 <= y < puzzle.h() && !(x == puzzle.w() - 1 && y == puzzle.h()
                - 1) ==> #[trigger] puzzle@[x + puzzle.w() * y] == x + puzzle.w() * y + 1
    }

    fn is_solved(puzzle: &Puzzle) -> (r: bool) {
        let n = puzzle.num_pieces();
        let (w, h) = (puzzle.size().width(), puzzle.size().height());
        proof {
            puzzle.lemma_wf();
        }
        if puzzle.gap_position() != n {
            return false;
        }
        let mut y: u64 = 0;
        while y < h
            invariant
                puzzle.wf(),
                w == puzzle.w(),
                h == puzzle.h(),
                n == puzzle@.len() - 1,
                puzzle.spec_gap() == n,
                y <= h,
                forall|xx: int, yy: int|
                    0 <= xx < puzzle.w() && 0 <= yy < y && !(xx == puzzle.w() - 1 && yy
                        == puzzle.h() - 1) ==> #[trigger] puzzle@[xx + puzzle.w() * yy] == xx + puzzle.w() * yy + 1,
            decreases h - y,
        {
            let mut x: u64 = 0;
            while x < w
                invariant
                    puzzle.wf(),
                    w == puzzle.w(),
                    h == puzzle.h(),
                    n == puzzle@.len() - 1,
                    puzzle.spec_gap() == n,
                    y < h,
                    x <= w,
                    forall|xx: int, yy: int|
                        0 <= xx < puzzle.w() && 0 <= yy < y && !(xx == puzzle.w() - 1 && yy
                            == puzzle.h() - 1) ==> #[trigger] puzzle@[xx + puzzle.w() * yy] == xx + puzzle.w() * yy + 1,
                    forall|xx: int|
                        0 <= xx < x && !(xx == puzzle.w() - 1 && y == puzzle.h() - 1) ==> #[trigger] puzzle@[xx + puzzle.w() * y] == xx + puzzle.w() * y + 1,
                decreases w - x,
            {
                if x != w - 1 || y != h - 1 {
                    proof {
                        lemma_index_bound(x as int, y as int, w as int, h as int);
                        lemma_index_bound(y as int, x as int, h as int, w as int);
                        assert(h * w == w * h) by (nonlinear_arith);
                        lemma_permutation_onto(puzzle@, 0);
                    }
                    let piece = puzzle.piece_at_xy((x, y));
                    proof {
                        if piece == 0 {
                            assert(puzzle@[x + w * y] == puzzle@[n as int]);
                            crate::arith::lemma_index_split(x as int, y as int, w as int);
                            crate::arith::lemma_index_split((w - 1) as int, (h - 1) as int, w as int);
                            assert(n == (w - 1) + w * (h - 1)) by (nonlinear_arith)
                                requires
                                    n == w * h - 1,
                            ;
                        }
                    }
                    if !(piece == x + w * y + 1) {
                        return false;
                    }
                }
                x = x + 1;
            }
            y = y + 1;
        }
        true
    }
}

impl SolvedState for Columns {
    open spec fn spec_is_solved(puzzle: &Puzzle) -> bool {
        &&& puzzle.spec_gap() == puzzle@.len() - 1
        &&& forall|x: int, y: int|
            0 <= x < puzzle.w() && 0 <= y < puzzle.h() && !(x == puzzle.w() - 1 && y == puzzle.h()
                - 1) ==> #[trigger] puzzle@[x + puzzle.w() * y] == 1 + y + puzzle.h() * x
    }

    fn is_solved(puzzle: &Puzzle) -> (r: bool) {
        let n = puzzle.num_pieces();
        let (w, h) = (puzzle.size().width(), puzzle.size().height());
        proof {
            puzzle.lemma_wf();
        }
        if puzzle.gap_position() != n {
            return false;
        }
        let mut y: u64 = 0;
        while y < h
            invariant
                puzzle.wf(),
                w == puzzle.w(),
                h == puzzle.h(),
                n == puzzle@.len() - 1,
                puzzle.spec_gap() == n,
                y <= h,
                forall|xx: int, yy: int|
                    0 <= xx < puzzle.w() && 0 <= yy < y && !(xx == puzzle.w() - 1 && yy
                        == puzzle.h() - 1) ==> #[trigger] puzzle@[xx + puzzle.w() * yy] == 1 + yy + puzzle.h() * xx,
            decreases h - y,
        {
            let mut x: u64 = 0;
            while x < w
                invariant
                    puzzle.wf(),
                    w == puzzle.w(),
                    h == puzzle.h(),
                    n == puzzle@.len() - 1,
                    puzzle.spec_gap() == n,
                    y < h,
                    x <= w,
                    forall|xx: int, yy: int|
                        0 <= xx < puzzle.w() && 0 <= yy < y && !(xx == puzzle.w() - 1 && yy
                            == puzzle.h() - 1) ==> #[trigger] puzzle@[xx + puzzle.w() * yy] == 1 + yy + puzzle.h() * xx,
                    forall|xx: int|
                        0 <= xx < x && !(xx == puzzle.w() - 1 && y == puzzle.h() - 1) ==> #[trigger] puzzle@[xx + puzzle.w() * y] == 1 + y + puzzle.h() * xx,
                decreases w - x,
            {
                if x != w - 1 || y != h - 1 {
                    proof {
                        lemma_index_bound(x as int, y as int, w as int, h as int);
                        lemma_index_bound(y as int, x as int, h as int, w as int);
                        assert(h * w == w * h) by (nonlinear_arith);
                        lemma_permutation_onto(puzzle@, 0);
                    }
                    let piece = puzzle.piece_at_xy((x, y));
                    proof {
                        if piece == 0 {
                            assert(puzzle@[x + w * y] == puzzle@[n as int]);
                            crate::arith::lemma_index_split(x as int, y as int, w as int);
                            crate::arith::lemma_index_split((w - 1) as int, (h - 1) as int, w as int);
                            assert(n == (w - 1) + w * (h - 1)) by (nonlinear_arith)
                                requires
                                    n == w * h - 1,
                            ;
                        }
                    }
                    if !(piece == 1 + y + h * x) {
                        return false;
                    }
                }
                x = x + 1;
            }
            y = y + 1;
        }
        true
    }
}

impl SolvedState for RowsSetwise {
    open spec fn spec_is_solved(puzzle: &Puzzle) -> bool {
        &&& puzzle.spec_gap() == puzzle@.len() - 1
        &&& forall|x: int, y: int|
            0 <= x < puzzle.w() && 0 <= y < puzzle.h() && !(x == puzzle.w() - 1 && y == puzzle.h()
                - 1) ==> (#[trigger] puzzle@[x + puzzle.w() * y] - 1) / puzzle.w() == y
    }

    fn is_solved(puzzle: &Puzzle) -> (r: bool) {
        let n = puzzle.num_pieces();
        let (w, h) = (puzzle.size().width(), puzzle.size().height());
        proof {
            puzzle.lemma_wf();
        }
        if puzzle.gap_position() != n {
            return false;
        }
        let mut y: u64 = 0;
        while y < h
            invariant
                puzzle.wf(),
                w == puzzle.w(),
                h == puzzle.h(),
                n == puzzle@.len() - 1,
                puzzle.spec_gap() == n,
                y <= h,
                forall|xx: int, yy: int|
                    0 <= xx < puzzle.w() && 0 <= yy < y && !(xx == puzzle.w() - 1 && yy
                        == puzzle.h() - 1) ==> (#[trigger] puzzle@[xx + puzzle.w() * yy] - 1) / puzzle.w() == yy,
            decreases h - y,
        {
            let mut x: u64 = 0;
            while x < w
                invariant
                    puzzle.wf(),
                    w == puzzle.w(),
                    h == puzzle.h(),
                    n == puzzle@.len() - 1,
                    puzzle.spec_gap() == n,
                    y < h,
                    x <= w,
                    forall|xx: int, yy: int|
                        0 <= xx < puzzle.w() && 0 <= yy < y && !(xx == puzzle.w() - 1 && yy
                            == puzzle.h() - 1) ==> (#[trigger] puzzle@[xx + puzzle.w() * yy] - 1) / puzzle.w() == yy,
                    forall|xx: int|
                        0 <= xx < x && !(xx == puzzle.w() - 1 && y == puzzle.h() - 1) ==> (#[trigger] puzzle@[xx + puzzle.w() * y] - 1) / puzzle.w() == y,
                decreases w - x,
            {
                if x != w - 1 || y != h - 1 {
                    proof {
                        lemma_index_bound(x as int, y as int, w as int, h as int);
                        lemma_index_bound(y as int, x as int, h as int, w as int);
                        assert(h * w == w * h) by (nonlinear_arith);
                        lemma_permutation_onto(puzzle@, 0);
                    }
                    let piece = puzzle.piece_at_xy((x, y));
                    proof {
                        if piece == 0 {
                            assert(puzzle@[x + w * y] == puzzle@[n as int]);
                            crate::arith::lemma_index_split(x as int, y as int, w as int);
                            crate::arith::lemma_index_split((w - 1) as int, (h - 1) as int, w as int);
                            assert(n == (w - 1) + w * (h - 1)) by (nonlinear_arith)
                                requires
                                    n == w * h - 1,
                            ;
                        }
                    }
                    if !((piece - 1) / w == y) {
                        return false;
                    }
                }
                x = x + 1;
            }
            y = y + 1;
        }
        true
    }
}

impl SolvedState for ColumnsSetwise {
    open spec fn spec_is_solved(puzzle: &Puzzle) -> bool {
        &&& puzzle.spec_gap() == puzzle@.len() - 1
        &&& forall|x: int, y: int|
            0 <= x < puzzle.w() && 0 <= y < puzzle.h() && !(x == puzzle.w() - 1 && y == puzzle.h()
                - 1) ==> (#[trigger] puzzle@[x + puzzle.w() * y] - 1) % puzzle.w() == x
    }

    fn is_solved(puzzle: &Puzzle) -> (r: bool) {
        let n = puzzle.num_pieces();
        let (w, h) = (puzzle.size().width(), puzzle.size().height());
        proof {
            puzzle.lemma_wf();
        }
        if puzzle.gap_position() != n {
            return false;
        }
        let mut y: u64 = 0;
        while y < h
            invariant
                puzzle.wf(),
                w == puzzle.w(),
                h == puzzle.h(),
                n == puzzle@.len() - 1,
                puzzle.spec_gap() == n,
                y <= h,
                forall|xx: int, yy: int|
                    0 <= xx < puzzle.w() && 0 <= yy < y && !(xx == puzzle.w() - 1 && yy
                        == puzzle.h() - 1) ==> (#[trigger] puzzle@[xx + puzzle.w() * yy] - 1) % puzzle.w() == xx,
            decreases h - y,
        {
            let mut x: u64 = 0;
            while x < w
                invariant
                    puzzle.wf(),
                    w == puzzle.w(),
                    h == puzzle.h(),
                    n == puzzle@.len() - 1,
                    puzzle.spec_gap() == n,
                    y < h,
                    x <= w,
                    forall|xx: int, yy: int|
                        0 <= xx < puzzle.w() && 0 <= yy < y && !(xx == puzzle.w() - 1 && yy
                            == puzzle.h() - 1) ==> (#[trigger] puzzle@[xx + puzzle.w() * yy] - 1) % puzzle.w() == xx,
                    forall|xx: int|
                        0 <= xx < x && !(xx == puzzle.w() - 1 && y == puzzle.h() - 1) ==> (#[trigger] puzzle@[xx + puzzle.w() * y] - 1) % puzzle.w() == xx,
                decreases w - x,
            {
                if x != w - 1 || y != h - 1 {
                    proof {
                        lemma_index_bound(x as int, y as int, w as int, h as int);
                        lemma_index_bound(y as int, x as int, h as int, w as int);
                        assert(h * w == w * h) by (nonlinear_arith);
                        lemma_permutation_onto(puzzle@, 0);
                    }
                    let piece = puzzle.piece_at_xy((x, y));
                    proof {
                        if piece == 0 {
                            assert(puzzle@[x + w * y] == puzzle@[n as int]);
                            crate::arith::lemma_index_split(x as int, y as int, w as int);
                            crate::arith::lemma_index_split((w - 1) as int, (h - 1) as int, w as int);
                            assert(n == (w - 1) + w * (h - 1)) by (nonlinear_arith)
                                requires
                                    n == w * h - 1,
                            ;
                        }
                    }
                    if !((piece - 1) % w == x) {
                        return false;
                    }
                }
                x = x + 1;
            }
            y = y + 1;
        }
        true
    }
}

/// A puzzle in the solved state (the one that [`Puzzle::reset`] leaves) is solved by rows.
pub proof fn lemma_reset_solved_by_rows(p: Puzzle)
    requires
        p.wf(),
        p@ == label_solved_pieces(RowGrids, p.spec_size()),
    ensures
        <Rows as SolvedState>::spec_is_solved(&p),
{
    lemma_solved_pieces(p);
    p.lemma_wf();
    assert forall|x: int, y: int|
        0 <= x < p.w() && 0 <= y < p.h() && !(x == p.w() - 1 && y == p.h() - 1) implies #[trigger] p@[x
        + p.w() * y] == x + p.w() * y + 1 by {
        lemma_index_bound(x, y, p.w(), p.h());
        assert(p.w() * y <= p.w() * (p.h() - 1));
        if x + p.w() * y == p@.len() - 1 {
            assert(x == p.w() - 1 && p.w() * y == p.w() * (p.h() - 1)) by (nonlinear_arith)
                requires
                    x + p.w() * y == p.w() * p.h() - 1,
                    0 <= x < p.w(),
                    p.w() * y <= p.w() * (p.h() - 1),
            ;
            assert(y == p.h() - 1) by (nonlinear_arith)
                requires
                    p.w() * y == p.w() * (p.h() - 1),
                    p.w() > 0,
            ;
        }
        let i = x + p.w() * y;
        assert(0 <= i < p@.len() - 1);
        assert(p@[i] == i + 1);
    }
}

} // verus!
