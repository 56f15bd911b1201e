//! Defines the [`SolvedState`] trait and implements it on every [`Label`].
//!
//! [`Label`]: crate::puzzle::label::label::Label

use vstd::prelude::*;

use crate::arith::lemma_split_bound;
use crate::puzzle::label::label::{BijectiveLabel, Label, RowGrids};
use crate::puzzle::puzzle::{solved_pieces, Puzzle};
use crate::puzzle::sliding_puzzle::{label_solved_pieces, position_xy};
use crate::puzzle::size::{group_size, Size};

verus! {

broadcast use group_size;

/// The puzzle is solved with respect to `label`: the gap is in the bottom right corner, and every
/// other piece sits at a position with the label of its home position (piece `k` lives at
/// position `k - 1`).
pub open spec fn is_solved_for<L: Label + ?Sized>(label: &L, puzzle: &Puzzle) -> bool {
    let size = puzzle.spec_size();
    let w = size.spec_width() as int;
    let area = puzzle@.len() as int;
    &&& puzzle.spec_gap() == area - 1
    &&& forall|i: int|
        0 <= i < area - 1 ==> label.spec_position_label(size, position_xy(puzzle@[i] - 1, w))
            == #[trigger] label.spec_position_label(size, position_xy(i, w))
}

/// Defines a solved state.
pub trait SolvedState: Label {
    /// Checks if `puzzle` is solved: see [`is_solved_for`].
    fn is_solved(&self, puzzle: &Puzzle) -> (r: bool)
        requires
            puzzle.wf(),
            self.spec_valid_size(puzzle.spec_size()),
        ensures
            r == is_solved_for(self, puzzle),
    ;
}

impl<L: Label> SolvedState for L {
    fn is_solved(&self, puzzle: &Puzzle) -> (r: bool) {
        let size = puzzle.size();
        let n = puzzle.num_pieces();
        let w = size.width();
        proof {
            puzzle.lemma_wf();
        }
        if puzzle.gap_position() != n {
            return false;
        }
        let mut i: u64 = 0;
        while i < n
            invariant
                puzzle.wf(),
                size == puzzle.spec_size(),
                w == size.spec_width(),
                n == puzzle@.len() - 1,
                puzzle.spec_gap() == n,
                self.spec_valid_size(size),
                i <= n,
                forall|j: int|
                    0 <= j < i ==> self.spec_position_label(size, position_xy(puzzle@[j] - 1, w as int))
                        == #[trigger] self.spec_position_label(size, position_xy(j, w as int)),
            decreases n - i,
        {
            proof {
                puzzle.lemma_wf();
                lemma_split_bound(i as int, w as int, size.spec_height() as int);
            }
            let piece = puzzle.piece_at(i);
            proof {
                crate::perm::lemma_permutation_onto(puzzle@, 0);
                if piece == 0 {
                    assert(puzzle@[i as int] == puzzle@[n as int]);
                }
                lemma_split_bound(piece - 1, w as int, size.spec_height() as int);
            }
            let home = puzzle.solved_pos_xy(piece);
            let piece_label = self.position_label(size, home);
            let solved_label = self.position_label(size, (i % w, i / w));
            proof {
                assert(position_xy(i as int, w as int) == (i % w, i / w));
                assert(home == position_xy(puzzle@[i as int] - 1, w as int));
            }
            if piece_label != solved_label {
                return false;
            }
            i = i + 1;
        }
        true
    }
}

/// The solved state (the one that [`Puzzle::reset`] leaves) holds piece `i + 1` at position `i`,
/// and the gap at the last position.
pub proof fn lemma_solved_pieces(p: Puzzle)
    requires
        p.wf(),
        p@ == label_solved_pieces(RowGrids, p.spec_size()),
    ensures
        p.spec_gap() == p@.len() - 1,
        forall|i: int| 0 <= i < p@.len() - 1 ==> #[trigger] p@[i] == i + 1,
{
    p.lemma_wf();
    let (w, h, area) = (p.w(), p.h(), p@.len() as int);
    assert forall|i: int| 0 <= i < area implies #[trigger] p@[i] == if i == area - 1 {
        0
    } else {
        i + 1
    } by {
        lemma_split_bound(i, w, h);
    }
}

/// A puzzle in the solved state (the one that [`Puzzle::reset`] leaves) is solved with respect
/// to every label.
pub proof fn lemma_reset_is_solved<L: Label>(label: &L, p: Puzzle)
    requires
        p.wf(),
        p@ == label_solved_pieces(RowGrids, p.spec_size()),
    ensures
        is_solved_for(label, &p),
{
    lemma_solved_pieces(p);
}

/// Resetting a puzzle gives the state of a new puzzle of its size (see [`Puzzle::new`] and
/// [`Puzzle::reset`]).
pub proof fn lemma_reset_is_new(size: Size)
    requires
        size.spec_width() > 0,
        size.spec_height() > 0,
    ensures
        label_solved_pieces(RowGrids, size) == solved_pieces(size.spec_area()),
{
    let (w, h) = (size.spec_width() as int, size.spec_height() as int);
    assert forall|i: int| 0 <= i < size.spec_area() implies #[trigger] label_solved_pieces(
        RowGrids,
        size,
    )[i] == solved_pieces(size.spec_area())[i] by {
        lemma_split_bound(i, w, h);
    }
    assert(label_solved_pieces(RowGrids, size) =~= solved_pieces(size.spec_area()));
}

/// A solved puzzle, with respect to any label, has its gap at the last position (the bottom right
/// corner).
pub proof fn lemma_solved_gap_last<L: Label>(label: &L, p: &Puzzle)
    requires
        p.wf(),
        is_solved_for(label, p),
    ensures
        p.spec_gap() == p@.len() - 1,
        p@[p@.len() - 1] == 0,
{
    p.lemma_wf();
}

/// With respect to a label that gives every position its own label (such as [`RowGrids`]), a
/// puzzle is solved exactly when it is in the solved state: piece `i + 1` at position `i`, and the
/// gap last.
pub proof fn lemma_bijective_solved_iff_reset<L: BijectiveLabel>(label: &L, p: &Puzzle)
    requires
        p.wf(),
        label.spec_valid_size(p.spec_size()),
    ensures
        is_solved_for(label, p) <==> p@ == solved_pieces(p@.len()),
{
    p.lemma_wf();
    let size = p.spec_size();
    let (w, h) = (p.w(), p.h());
    let area = p@.len() as int;
    lemma_reset_is_new(size);
    if p@ == solved_pieces(p@.len()) {
        lemma_reset_is_solved(label, *p);
    }
    if is_solved_for(label, p) {
        assert(area <= u64::MAX) by {
            assert(p@.len() <= usize::MAX);
        }
        label.lemma_bijective(size);
        crate::perm::lemma_permutation_onto(p@, 0);
        assert forall|i: int| 0 <= i < area implies #[trigger] p@[i] == solved_pieces(
            p@.len(),
        )[i] by {
            if i < area - 1 {
                assert(p@[i] != p@[area - 1]);
                assert(p@[i] >= 1 && p@[i] < area);
                let k = p@[i] - 1;
                lemma_split_bound(k, w, h);
                lemma_split_bound(i, w, h);
                let (a, b) = (position_xy(k, w), position_xy(i, w));
                assert(size.spec_is_within_bounds(a) && size.spec_is_within_bounds(b));
                assert(label.spec_position_label(size, a) == label.spec_position_label(size, b));
                assert(a == b);
                assert(k == i);
            }
        }
        assert(p@ =~= solved_pieces(p@.len()));
    }
}

} // verus!
