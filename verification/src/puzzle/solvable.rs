//! Defines the [`Solvable`] trait and implements it on some of the labels defined in
//! [`crate::puzzle::label::label`].
//!
//! A puzzle is solvable with respect to a label when some sequence of moves brings it to a state
//! that is solved with respect to that label. A puzzle with more than one row and more than one
//! column is solvable with respect to [`RowGrids`] exactly when, after moving the gap to the
//! bottom right corner along its row and then down the last column, the pieces form an even
//! permutation.

use vstd::prelude::*;

use crate::arith::lemma_split_bound;
use crate::arith::{lemma_index_bound, lemma_index_split};
use crate::perm::{
    index_of, is_permutation, lemma_identity_even, lemma_index_of, lemma_permutation_onto,
    lemma_swap_parity, lemma_swap_permutation, odd_perm, swap_seq,
};
use crate::puzzle::label::label::{
    Checkerboard, ConcentricRectangles, Diagonals, Fringe, Label, LastTwoRows, RowGrids, Rows,
    Spiral, SplitFringe, SplitLastTwoRows, SplitSquareFringe, SquareFringe, Trivial,
};
use crate::puzzle::puzzle::Puzzle;
use crate::puzzle::puzzle_move::{Direction, Move};
use crate::puzzle::size::group_size;
use crate::puzzle::sliding_puzzle::{
    label_solved_pieces, lemma_moved_last, lemma_moved_len, lemma_offset_add, lemma_offset_between,
    moved, offset,
};
use crate::puzzle::solved_state::lemma_solved_pieces;

verus! {

broadcast use group_size;

/// Trait for defining whether a puzzle is solvable with respect to a [`Label`]. Any puzzle that
/// has at least two pieces with the same label is always solvable.
pub trait Solvable {
    /// Whether `puzzle` is solvable, in specifications.
    spec fn spec_is_solvable(puzzle: &Puzzle) -> bool;

    /// Checks if the puzzle is solvable.
    fn is_solvable(puzzle: &Puzzle) -> (r: bool)
        requires
            puzzle.wf(),
        ensures
            r == Self::spec_is_solvable(puzzle),
    ;
}

/// The pieces of a puzzle after moving its gap right along its row to the last column, and then
/// down that column to the bottom right corner.
pub open spec fn gap_to_corner(puzzle: &Puzzle) -> Seq<u64> {
    let (w, h, gx, gy) = (puzzle.w(), puzzle.h(), puzzle.gx(), puzzle.gy());
    moved(
        moved(puzzle@, w, gx, gy, Direction::Left, (w - 1 - gx) as nat),
        w,
        w - 1,
        gy,
        Direction::Up,
        (h - 1 - gy) as nat,
    )
}

/// The permutation of the pieces with the gap in the bottom right corner: the home position of
/// the piece at each other position.
pub open spec fn corner_permutation(puzzle: &Puzzle) -> Seq<u64> {
    let s = gap_to_corner(puzzle);
    Seq::new((s.len() - 1) as nat, |i: int| (s[i] - 1) as u64)
}

/// The piece at position `i` of a puzzle of a single row or column, in the order of its
/// positions.
pub open spec fn line_position(puzzle: &Puzzle, i: int) -> (u64, u64) {
    if puzzle.w() == 1 {
        (0, i as u64)
    } else {
        (i as u64, 0)
    }
}

/// The pieces of `s` other than the gap, in order.
pub open spec fn nonzero_pieces(s: Seq<u64>) -> Seq<u64>
    decreases s.len(),
{
    if s.len() == 0 {
        s
    } else if s.last() == 0 {
        nonzero_pieces(s.drop_last())
    } else {
        nonzero_pieces(s.drop_last()).push(s.last())
    }
}

/// A puzzle of a single row or column can only move its gap: it is solvable with respect to
/// `label` when its pieces, in order and leaving out the gap, sit at positions with the labels
/// of their home positions once the gap is moved to the end.
pub open spec fn line_solvable<L: Label>(label: &L, puzzle: &Puzzle) -> bool {
    let pieces = nonzero_pieces(puzzle@);
    forall|i: int|
        0 <= i < pieces.len() ==> #[trigger] label.spec_position_label(
            puzzle.spec_size(),
            line_position(puzzle, i),
        ) == label.spec_position_label(puzzle.spec_size(), line_position(puzzle, pieces[i] - 1))
}

/// The puzzle has a single row or a single column.
pub open spec fn is_line(puzzle: &Puzzle) -> bool {
    puzzle.w() == 1 || puzzle.h() == 1
}

/// Checks [`line_solvable`].
fn line_is_solvable<L: Label>(label: &L, puzzle: &Puzzle) -> (r: bool)
    requires
        puzzle.wf(),
        is_line(puzzle),
        label.spec_valid_size(puzzle.spec_size()),
    ensures
        r == line_solvable(label, puzzle),
{
    let size = puzzle.size();
    let n = puzzle.area();
    let column = size.width() == 1;
    proof {
        puzzle.lemma_wf();
    }
    let mut i: u64 = 0;
    let mut j: u64 = 0;
    assert(puzzle@.take(0) == Seq::<u64>::empty());
    while i < n
        invariant
            puzzle.wf(),
            is_line(puzzle),
            size == puzzle.spec_size(),
            column == (puzzle.w() == 1),
            label.spec_valid_size(size),
            n == puzzle@.len(),
            i <= n,
            j == nonzero_pieces(puzzle@.take(i as int)).len(),
            j <= i,
            forall|k: int|
                0 <= k < nonzero_pieces(puzzle@.take(i as int)).len() ==> 1 <= #[trigger] nonzero_pieces(puzzle@.take(i as int))[k] <= n - 1,
            forall|k: int|
                0 <= k < j ==> #[trigger] label.spec_position_label(size, line_position(puzzle, k))
                    == label.spec_position_label(
                    size,
                    line_position(puzzle, nonzero_pieces(puzzle@.take(i as int))[k] - 1),
                ),
        decreases n - i,
    {
        let piece = puzzle.piece_at(i);
        let ghost t = puzzle@.take(i + 1);
        proof {
            assert(t.drop_last() == puzzle@.take(i as int));
            assert(t.last() == piece);
            crate::perm::lemma_permutation_onto(puzzle@, 0);
        }
        if piece != 0 {
            let home = piece - 1;
            let (pj, ph) = if column {
                ((0, j), (0, home))
            } else {
                ((j, 0), (home, 0))
            };
            proof {
                assert(piece < n);
            }
            let a = label.position_label(size, pj);
            let b = label.position_label(size, ph);
            proof {
                assert(nonzero_pieces(t)[j as int] == piece);
            }
            if a != b {
                proof {
                    lemma_nonzero_prefix(puzzle@, i as int + 1);
                    assert(nonzero_pieces(puzzle@)[j as int] == piece);
                    assert(line_position(puzzle, j as int) == pj);
                    assert(line_position(puzzle, piece - 1) == ph);
                    assert(label.spec_position_label(size, line_position(puzzle, j as int)) != label.spec_position_label(size, line_position(puzzle, nonzero_pieces(puzzle@)[j as int] - 1)));
                }
                return false;
            }
            j = j + 1;
        }
        i = i + 1;
    }
    proof {
        assert(puzzle@.take(n as int) == puzzle@);
    }
    true
}

/// The pieces other than the gap of a prefix begin those of the whole sequence.
proof fn lemma_nonzero_prefix(s: Seq<u64>, i: int)
    requires
        0 <= i <= s.len(),
    ensures
        nonzero_pieces(s.take(i)).len() <= nonzero_pieces(s).len(),
        forall|k: int|
            0 <= k < nonzero_pieces(s.take(i)).len() ==> #[trigger] nonzero_pieces(s)[k]
                == nonzero_pieces(s.take(i))[k],
    decreases s.len() - i,
{
    if i < s.len() {
        lemma_nonzero_prefix(s, i + 1);
        assert(s.take(i + 1).drop_last() == s.take(i));
    } else {
        assert(s.take(i) == s);
    }
}

/// Whether the permutation `perm` of `0..perm.len()` is odd.
fn is_odd_permutation(perm: Vec<u64>) -> (r: bool)
    requires
        is_permutation(perm@),
    ensures
        r == odd_perm(perm@),
{
    let n = perm.len();
    let ghost orig = perm@;
    // `pos[v]` is the position of `v`.
    let mut pos: Vec<u64> = Vec::new();
    let mut i: usize = 0;
    while i < n
        invariant
            i <= n == perm@.len(),
            pos@.len() == i,
        decreases n - i,
    {
        pos.push(0);
        i = i + 1;
    }
    let mut i: usize = 0;
    while i < n
        invariant
            i <= n == perm@.len(),
            pos@.len() == n,
            is_permutation(perm@),
            forall|j: int| 0 <= j < i ==> pos@[#[trigger] perm@[j] as int] == j,
        decreases n - i,
    {
        let v = perm[i];
        pos.set(v as usize, i as u64);
        proof {
            assert forall|j: int| 0 <= j < i + 1 implies pos@[#[trigger] perm@[j] as int] == j by {
                if j < i {
                    assert(perm@[j] != perm@[i as int]);
                }
            }
        }
        i = i + 1;
    }
    let mut arr = perm;
    proof {
        assert forall|v: int| 0 <= v < n implies #[trigger] pos@[v] < n && arr@[pos@[v] as int] == v by {
            lemma_permutation_onto(arr@, v);
            let j = choose|j: int| 0 <= j < n && arr@[j] == v;
            assert(pos@[arr@[j] as int] == j);
        }
        assert(arr@.take(n as int) == arr@);
    }
    let mut odd = false;
    let mut len: usize = n;
    while len > 0
        invariant
            len <= n == arr@.len(),
            pos@.len() == n,
            is_permutation(arr@.take(len as int)),
            forall|v: int| 0 <= v < len ==> #[trigger] pos@[v] < len && arr@[pos@[v] as int] == v,
            odd_perm(orig) == (odd_perm(arr@.take(len as int)) != odd),
        decreases len,
    {
        let last = len - 1;
        assert(0 <= last < len);
        assert(pos@[last as int] < len);
        assert(arr@[pos@[last as int] as int] == last);
        let k = pos[last] as usize;
        let ghost a = arr@.take(len as int);
        proof {
            crate::perm::lemma_reduce(a);
            lemma_index_of(a, last as u64);
            let ki = index_of(a, last as u64);
            assert(arr@[pos@[last as int] as int] == last);
            assert(a[k as int] == last);
            if ki != k {
                assert(a[ki] != a[k as int]);
            }
        }
        if k != last {
            let ghost (old_arr, old_pos) = (arr@, pos@);
            let x = arr[last];
            arr.set(k, x);
            arr.set(last, last as u64);
            pos.set(x as usize, k as u64);
            odd = !odd;
            proof {
                assert(arr@.take(last as int) == swap_seq(a, k as int, last as int).drop_last());
                assert forall|v: int| 0 <= v < last implies #[trigger] pos@[v] < last && arr@[pos@[v] as int] == v by {
                    if v != x {
                        assert(old_arr[old_pos[v] as int] == v);
                        assert(old_pos[v] != last && old_pos[v] != k);
                    }
                }
            }
        } else {
            proof {
                assert(arr@.take(last as int) == a.drop_last());
                assert forall|v: int| 0 <= v < last implies #[trigger] pos@[v] < last && arr@[pos@[v] as int] == v by {
                    assert(arr@[pos@[v] as int] == v);
                    assert(arr@[last as int] == last);
                }
            }
        }
        len = last;
    }
    proof {
        assert(arr@.take(0) == Seq::<u64>::empty());
    }
    odd
}

impl Solvable for RowGrids {
    open spec fn spec_is_solvable(puzzle: &Puzzle) -> bool {
        if is_line(puzzle) {
            line_solvable(&RowGrids, puzzle)
        } else {
            !odd_perm(corner_permutation(puzzle))
        }
    }

    fn is_solvable(puzzle: &Puzzle) -> (r: bool) {
        let size = puzzle.size();
        let (w, h) = (size.width(), size.height());
        if w == 1 || h == 1 {
            return line_is_solvable(&RowGrids, puzzle);
        }
        // Move the gap to the bottom right corner: along its row, then down the last column.
        let (gx, gy) = puzzle.gap_position_xy();
        proof {
            puzzle.lemma_wf();
        }
        let mut p = puzzle.duplicate();
        p.apply_move(Move::new(Direction::Left, w - 1 - gx));
        p.apply_move(Move::new(Direction::Up, h - 1 - gy));
        let n = p.num_pieces();
        proof {
            p.lemma_wf();
            assert(p.spec_gap() == n) by (nonlinear_arith)
                requires
                    p.spec_gap() == p.gx() + p.w() * p.gy(),
                    p.gx() == w - 1,
                    p.gy() == h - 1,
                    p.w() == w,
                    n == w * h - 1,
                    p@.len() == w * h,
            ;
        }
        // The home position of the piece at each position but the last.
        let mut perm: Vec<u64> = Vec::new();
        let mut i: u64 = 0;
        while i < n
            invariant
                p.wf(),
                n == p@.len() - 1,
                p@[n as int] == 0,
                i <= n,
                perm@.len() == i,
                forall|j: int| 0 <= j < i ==> #[trigger] perm@[j] == (p@[j] - 1) as u64,
            decreases n - i,
        {
            let piece = p.piece_at(i);
            proof {
                assert(p@[i as int] != p@[n as int]);
            }
            perm.push(piece - 1);
            i = i + 1;
        }
        proof {
            assert(perm@ == corner_permutation(puzzle));
            assert forall|a: int, b: int|
                0 <= a < perm@.len() && 0 <= b < perm@.len() && a != b implies #[trigger] perm@[a]
                != #[trigger] perm@[b] by {
                assert(p@[a] != p@[b]);
            }
            assert forall|a: int| 0 <= a < perm@.len() implies (#[trigger] perm@[a] as int) < perm@.len() by {
                assert(p@[a] != p@[n as int]);
            }
        }
        !is_odd_permutation(perm)
    }
}

impl Solvable for Spiral {
    open spec fn spec_is_solvable(puzzle: &Puzzle) -> bool {
        puzzle.w() == 2 && puzzle.h() == 2 ==> RowGrids::spec_is_solvable(puzzle)
    }

    /// Always solvable unless the puzzle is 2x2, where it is as for [`RowGrids`].
    fn is_solvable(puzzle: &Puzzle) -> (r: bool) {
        let size = puzzle.size();
        if size.width() == 2 && size.height() == 2 {
            RowGrids::is_solvable(puzzle)
        } else {
            true
        }
    }
}

impl Solvable for Trivial {
    open spec fn spec_is_solvable(puzzle: &Puzzle) -> bool {
        true
    }

    fn is_solvable(puzzle: &Puzzle) -> (r: bool) {
        true
    }
}

impl Solvable for Fringe {
    open spec fn spec_is_solvable(puzzle: &Puzzle) -> bool {
        true
    }

    fn is_solvable(puzzle: &Puzzle) -> (r: bool) {
        true
    }
}

impl Solvable for ConcentricRectangles {
    open spec fn spec_is_solvable(puzzle: &Puzzle) -> bool {
        true
    }

    fn is_solvable(puzzle: &Puzzle) -> (r: bool) {
        true
    }
}

impl Solvable for Checkerboard {
    open spec fn spec_is_solvable(puzzle: &Puzzle) -> bool {
        true
    }

    fn is_solvable(puzzle: &Puzzle) -> (r: bool) {
        true
    }
}

impl Solvable for Rows {
    open spec fn spec_is_solvable(puzzle: &Puzzle) -> bool {
        is_line(puzzle) ==> line_solvable(&Rows, puzzle)
    }

    fn is_solvable(puzzle: &Puzzle) -> (r: bool) {
        let size = puzzle.size();
        if size.width() == 1 || size.height() == 1 {
            line_is_solvable(&Rows, puzzle)
        } else {
            true
        }
    }
}

impl Solvable for SquareFringe {
    open spec fn spec_is_solvable(puzzle: &Puzzle) -> bool {
        is_line(puzzle) ==> line_solvable(&SquareFringe, puzzle)
    }

    fn is_solvable(puzzle: &Puzzle) -> (r: bool) {
        let size = puzzle.size();
        if size.width() == 1 || size.height() == 1 {
            line_is_solvable(&SquareFringe, puzzle)
        } else {
            true
        }
    }
}

impl Solvable for SplitFringe {
    open spec fn spec_is_solvable(puzzle: &Puzzle) -> bool {
        is_line(puzzle) ==> line_solvable(&SplitFringe, puzzle)
    }

    fn is_solvable(puzzle: &Puzzle) -> (r: bool) {
        let size = puzzle.size();
        if size.width() == 1 || size.height() == 1 {
            line_is_solvable(&SplitFringe, puzzle)
        } else {
            true
        }
    }
}

impl Solvable for SplitSquareFringe {
    open spec fn spec_is_solvable(puzzle: &Puzzle) -> bool {
        is_line(puzzle) ==> line_solvable(&SplitSquareFringe, puzzle)
    }

    fn is_solvable(puzzle: &Puzzle) -> (r: bool) {
        let size = puzzle.size();
        if size.width() == 1 || size.height() == 1 {
            line_is_solvable(&SplitSquareFringe, puzzle)
        } else {
            true
        }
    }
}

impl Solvable for Diagonals {
    open spec fn spec_is_solvable(puzzle: &Puzzle) -> bool {
        is_line(puzzle) ==> line_solvable(&Diagonals, puzzle)
    }

    fn is_solvable(puzzle: &Puzzle) -> (r: bool) {
        let size = puzzle.size();
        if size.width() == 1 || size.height() == 1 {
            line_is_solvable(&Diagonals, puzzle)
        } else {
            true
        }
    }
}

impl Solvable for LastTwoRows {
    open spec fn spec_is_solvable(puzzle: &Puzzle) -> bool {
        is_line(puzzle) ==> line_solvable(&LastTwoRows, puzzle)
    }

    fn is_solvable(puzzle: &Puzzle) -> (r: bool) {
        let size = puzzle.size();
        if size.width() == 1 || size.height() == 1 {
            line_is_solvable(&LastTwoRows, puzzle)
        } else {
            true
        }
    }
}

impl Solvable for SplitLastTwoRows {
    open spec fn spec_is_solvable(puzzle: &Puzzle) -> bool {
        is_line(puzzle) ==> line_solvable(&SplitLastTwoRows, puzzle)
    }

    fn is_solvable(puzzle: &Puzzle) -> (r: bool) {
        let size = puzzle.size();
        if size.width() == 1 || size.height() == 1 {
            line_is_solvable(&SplitLastTwoRows, puzzle)
        } else {
            true
        }
    }
}

/// A sequence without the gap keeps all its pieces.
proof fn lemma_nonzero_pieces_all(s: Seq<u64>)
    requires
        forall|i: int| 0 <= i < s.len() ==> #[trigger] s[i] != 0,
    ensures
        nonzero_pieces(s) == s,
    decreases s.len(),
{
    if s.len() > 0 {
        lemma_nonzero_pieces_all(s.drop_last());
        assert(s.drop_last().push(s.last()) =~= s);
    }
}

/// A puzzle in the solved state (the one that [`Puzzle::reset`] leaves) is solvable.
pub proof fn lemma_reset_is_solvable(p: Puzzle)
    requires
        p.wf(),
        p@ == label_solved_pieces(RowGrids, p.spec_size()),
    ensures
        <RowGrids as Solvable>::spec_is_solvable(&p),
{
    lemma_solved_pieces(p);
    p.lemma_wf();
    let n = p@.len() as int;
    if is_line(&p) {
        let body = p@.drop_last();
        assert(p@ =~= body.push(0));
        lemma_nonzero_pieces_all(body);
        assert(nonzero_pieces(p@) == body);
    } else {
        lemma_split_bound(p.spec_gap(), p.w(), p.h());
        assert(p.gx() == p.w() - 1 && p.gy() == p.h() - 1) by (nonlinear_arith)
            requires
                p.spec_gap() == p.w() * p.h() - 1,
                p.spec_gap() == p.gx() + p.w() * p.gy(),
                0 <= p.gx() < p.w(),
                0 <= p.gy() < p.h(),
        ;
        assert(gap_to_corner(&p) == p@);
        assert(corner_permutation(&p) =~= Seq::new((n - 1) as nat, |i: int| i as u64));
        lemma_identity_even((n - 1) as nat);
    }
}

/// The pieces of `s` as home positions, with the gap taking the last one: piece `k > 0` becomes
/// `k - 1`, and the gap becomes `s.len() - 1`.
pub open spec fn gap_last(s: Seq<u64>) -> Seq<u64> {
    Seq::new(
        s.len(),
        |i: int|
            if s[i] == 0 {
                (s.len() - 1) as u64
            } else {
                (s[i] - 1) as u64
            },
    )
}

/// Counting the gap as the last piece keeps a permutation a permutation.
pub proof fn lemma_gap_last_permutation(s: Seq<u64>)
    requires
        is_permutation(s),
        s.len() <= u64::MAX,
    ensures
        is_permutation(gap_last(s)),
{
    let e = gap_last(s);
    assert forall|a: int, b: int|
        0 <= a < e.len() && 0 <= b < e.len() && a != b implies #[trigger] e[a] != #[trigger] e[b] by {
        assert(s[a] != s[b]);
    }
}

/// Exchanging two entries and counting the gap as the last piece can be done in either order.
pub proof fn lemma_gap_last_swap(s: Seq<u64>, i: int, j: int)
    requires
        0 <= i < s.len(),
        0 <= j < s.len(),
    ensures
        gap_last(swap_seq(s, i, j)) =~= swap_seq(gap_last(s), i, j),
{
}

/// The entry at the gap travels with it: after `n` steps, the position that the gap reached
/// holds what the starting position held.
pub proof fn lemma_moved_gap(s: Seq<u64>, w: int, h: int, gx: int, gy: int, dir: Direction, n: nat)
    requires
        s.len() == w * h,
        0 <= gx < w,
        0 <= gy < h,
        0 <= gx + offset(dir, n as int).0 < w,
        0 <= gy + offset(dir, n as int).1 < h,
    ensures
        moved(s, w, gx, gy, dir, n)[(gx + offset(dir, n as int).0) + w * (gy + offset(dir, n as int).1)]
            == s[gx + w * gy],
    decreases n,
{
    lemma_offset_add(dir, 0, 0);
    if n > 0 {
        let m = (n - 1) as nat;
        lemma_offset_between(w, h, gx, gy, dir, n as int, m as int);
        lemma_moved_gap(s, w, h, gx, gy, dir, m);
        lemma_moved_len(s, w, h, gx, gy, dir, m);
        lemma_moved_last(s, w, gx, gy, dir, m);
        assert(m + 1 == n);
        let (ax, ay) = (gx + offset(dir, m as int).0, gy + offset(dir, m as int).1);
        let (bx, by) = (gx + offset(dir, n as int).0, gy + offset(dir, n as int).1);
        lemma_index_bound(ax, ay, w, h);
        lemma_index_bound(bx, by, w, h);
    }
}

/// Each step of the gap exchanges two distinct entries, so `n` steps flip the parity of the
/// pieces (with the gap counted as the last piece) `n` times.
pub proof fn lemma_moved_parity(s: Seq<u64>, w: int, h: int, gx: int, gy: int, dir: Direction, n: nat)
    requires
        is_permutation(s),
        s.len() <= u64::MAX,
        s.len() == w * h,
        0 <= gx < w,
        0 <= gy < h,
        0 <= gx + offset(dir, n as int).0 < w,
        0 <= gy + offset(dir, n as int).1 < h,
    ensures
        is_permutation(moved(s, w, gx, gy, dir, n)),
        moved(s, w, gx, gy, dir, n).len() == s.len(),
        odd_perm(gap_last(moved(s, w, gx, gy, dir, n))) == (odd_perm(gap_last(s)) != (n % 2
            == 1)),
    decreases n,
{
    if n > 0 {
        let (dx, dy) = offset(dir, 1);
        lemma_offset_between(w, h, gx, gy, dir, n as int, 1);
        lemma_offset_add(dir, 1, n - 1);
        lemma_index_bound(gx, gy, w, h);
        lemma_index_bound(gx + dx, gy + dy, w, h);
        let (g, g1) = (gx + w * gy, (gx + dx) + w * (gy + dy));
        if g == g1 {
            lemma_index_split(gx, gy, w);
            lemma_index_split(gx + dx, gy + dy, w);
            assert(false);
        }
        let t = swap_seq(s, g, g1);
        lemma_swap_permutation(s, g, g1);
        lemma_gap_last_permutation(s);
        lemma_gap_last_swap(s, g, g1);
        lemma_swap_parity(gap_last(s), g, g1);
        lemma_moved_parity(t, w, h, gx + dx, gy + dy, dir, (n - 1) as nat);
    }
}

/// The corner permutation has the parity of the pieces (with the gap counted as the last piece),
/// changed once for each step between the gap and the bottom right corner.
proof fn lemma_corner_parity(p: &Puzzle)
    requires
        p.wf(),
    ensures
        odd_perm(corner_permutation(p)) == (odd_perm(gap_last(p@)) != ((p.w() - 1 - p.gx() + p.h()
            - 1 - p.gy()) % 2 == 1)),
{
    p.lemma_wf();
    let (w, h, gx, gy) = (p.w(), p.h(), p.gx(), p.gy());
    let (a, b) = ((w - 1 - gx) as nat, (h - 1 - gy) as nat);
    lemma_offset_add(Direction::Left, a as int, 0);
    lemma_offset_add(Direction::Up, b as int, 0);
    let s1 = moved(p@, w, gx, gy, Direction::Left, a);
    lemma_moved_parity(p@, w, h, gx, gy, Direction::Left, a);
    lemma_moved_gap(p@, w, h, gx, gy, Direction::Left, a);
    let s2 = moved(s1, w, w - 1, gy, Direction::Up, b);
    lemma_moved_parity(s1, w, h, w - 1, gy, Direction::Up, b);
    lemma_moved_gap(s1, w, h, w - 1, gy, Direction::Up, b);
    assert(s2 == gap_to_corner(p));
    let n = s2.len() as int;
    assert((w - 1) + w * (h - 1) == n - 1) by (nonlinear_arith)
        requires
            n == w * h,
    ;
    assert(s2[n - 1] == 0);
    let e = gap_last(s2);
    lemma_gap_last_permutation(s2);
    assert(e[n - 1] == (n - 1) as u64);
    lemma_index_of(e, (n - 1) as u64);
    let k = index_of(e, (n - 1) as u64);
    if k < n - 1 {
        assert(e[k] == e[n - 1]);
    }
    assert(odd_perm(e) == odd_perm(e.drop_last()));
    assert forall|i: int| 0 <= i < n - 1 implies s2[i] != 0 by {
        assert(s2[i] != s2[n - 1]);
    }
    assert(e.drop_last() =~= corner_permutation(p));
}

/// Solvability by rows, on a puzzle with at least two rows and two columns: the parity of the
/// pieces (with the gap counted as the last piece) matches the parity of the number of steps
/// between the gap and the bottom right corner.
pub proof fn lemma_solvable_parity(p: &Puzzle)
    requires
        p.wf(),
        !is_line(p),
    ensures
        <RowGrids as Solvable>::spec_is_solvable(p) == (odd_perm(gap_last(p@)) == ((p.w() - 1
            - p.gx() + p.h() - 1 - p.gy()) % 2 == 1)),
{
    lemma_corner_parity(p);
}

/// The pieces of `a + b` other than the gap are those of `a`, then those of `b`.
proof fn lemma_nonzero_pieces_add(a: Seq<u64>, b: Seq<u64>)
    ensures
        nonzero_pieces(a + b) == nonzero_pieces(a) + nonzero_pieces(b),
    decreases b.len(),
{
    if b.len() == 0 {
        assert(a + b =~= a);
        assert(nonzero_pieces(a) + nonzero_pieces(b) =~= nonzero_pieces(a));
    } else {
        lemma_nonzero_pieces_add(a, b.drop_last());
        assert((a + b).drop_last() =~= a + b.drop_last());
        assert((a + b).last() == b.last());
        if b.last() != 0 {
            assert((nonzero_pieces(a) + nonzero_pieces(b.drop_last())).push(b.last())
                =~= nonzero_pieces(a) + nonzero_pieces(b.drop_last()).push(b.last()));
        }
    }
}

/// Exchanging the gap with a neighbour keeps the order of the other pieces.
proof fn lemma_nonzero_pieces_swap(s: Seq<u64>, k: int)
    requires
        0 <= k,
        k + 1 < s.len(),
        s[k] == 0 || s[k + 1] == 0,
    ensures
        nonzero_pieces(swap_seq(s, k, k + 1)) == nonzero_pieces(s),
{
    let t = swap_seq(s, k, k + 1);
    let (front, back) = (s.take(k), s.skip(k + 2));
    let (x, y) = (s[k], s[k + 1]);
    assert(s =~= front + seq![x, y] + back);
    assert(t =~= front + seq![y, x] + back);
    lemma_nonzero_pieces_add(front + seq![x, y], back);
    lemma_nonzero_pieces_add(front, seq![x, y]);
    lemma_nonzero_pieces_add(front + seq![y, x], back);
    lemma_nonzero_pieces_add(front, seq![y, x]);
    assert(seq![x, y].drop_last() =~= seq![x]);
    assert(seq![y, x].drop_last() =~= seq![y]);
    assert(seq![x].drop_last() =~= Seq::<u64>::empty());
    assert(seq![y].drop_last() =~= Seq::<u64>::empty());
    assert(nonzero_pieces(Seq::<u64>::empty()) == Seq::<u64>::empty());
    assert(seq![x].last() == x && seq![y].last() == y);
    assert(seq![x, y].last() == y && seq![y, x].last() == x);
    let one = |v: u64|
        if v == 0 {
            Seq::<u64>::empty()
        } else {
            seq![v]
        };
    assert(nonzero_pieces(seq![x]) =~= one(x));
    assert(nonzero_pieces(seq![y]) =~= one(y));
    if x == 0 {
        assert(nonzero_pieces(seq![x, y]) =~= one(y));
        assert(nonzero_pieces(seq![y, x]) =~= one(y));
    } else {
        assert(nonzero_pieces(seq![x, y]) =~= one(x));
        assert(nonzero_pieces(seq![y, x]) =~= one(x));
    }
}

/// On a single row or column, moving the gap keeps the order of the other pieces.
pub proof fn lemma_moved_line(s: Seq<u64>, w: int, h: int, gx: int, gy: int, dir: Direction, n: nat)
    requires
        w == 1 || h == 1,
        s.len() == w * h,
        0 <= gx < w,
        0 <= gy < h,
        0 <= gx + offset(dir, n as int).0 < w,
        0 <= gy + offset(dir, n as int).1 < h,
        s[gx + w * gy] == 0,
    ensures
        nonzero_pieces(moved(s, w, gx, gy, dir, n)) == nonzero_pieces(s),
    decreases n,
{
    if n > 0 {
        let (dx, dy) = offset(dir, 1);
        lemma_offset_between(w, h, gx, gy, dir, n as int, 1);
        lemma_offset_add(dir, 1, n - 1);
        lemma_index_bound(gx, gy, w, h);
        lemma_index_bound(gx + dx, gy + dy, w, h);
        let (g, g1) = (gx + w * gy, (gx + dx) + w * (gy + dy));
        assert(g1 == g + 1 || g1 == g - 1) by {
            if w == 1 {
                assert(dx == 0);
            } else {
                assert(dy == 0);
            }
        }
        let t = swap_seq(s, g, g1);
        if g1 == g + 1 {
            lemma_nonzero_pieces_swap(s, g);
        } else {
            assert(t =~= swap_seq(s, g1, g));
            lemma_nonzero_pieces_swap(s, g1);
        }
        lemma_moved_line(t, w, h, gx + dx, gy + dy, dir, (n - 1) as nat);
    }
}

/// A move keeps solvability by rows. On a puzzle with at least two rows and two columns, `n`
/// steps of the gap flip the parity of the pieces `n` times and change the gap's distance to the
/// corner by `n`; on a single row or column, they keep the order of the pieces.
pub proof fn lemma_move_keeps_solvability(p: &Puzzle, q: &Puzzle, mv: Move)
    requires
        p.wf(),
        q.wf(),
        p.spec_can_apply_move(mv),
        q.spec_size() == p.spec_size(),
        q@ == moved(p@, p.w(), p.gx(), p.gy(), mv.direction, mv.amount as nat),
        q.gx() == p.gx() + offset(mv.direction, mv.amount as int).0,
        q.gy() == p.gy() + offset(mv.direction, mv.amount as int).1,
    ensures
        <RowGrids as Solvable>::spec_is_solvable(q) == <RowGrids as Solvable>::spec_is_solvable(p),
{
    p.lemma_wf();
    let n = mv.amount as nat;
    if is_line(p) {
        lemma_moved_line(p@, p.w(), p.h(), p.gx(), p.gy(), mv.direction, n);
        assert(is_line(q));
        assert forall|i: int| 0 <= i < nonzero_pieces(p@).len() implies line_position(q, i)
            == line_position(p, i) && line_position(q, nonzero_pieces(q@)[i] - 1) == line_position(
            p,
            nonzero_pieces(p@)[i] - 1,
        ) by {}
        assert(line_solvable(&RowGrids, q) == line_solvable(&RowGrids, p));
    } else {
        lemma_moved_parity(p@, p.w(), p.h(), p.gx(), p.gy(), mv.direction, n);
        lemma_solvable_parity(p);
        lemma_solvable_parity(q);
        let dp = p.w() - 1 - p.gx() + p.h() - 1 - p.gy();
        let dq = q.w() - 1 - q.gx() + q.h() - 1 - q.gy();
        assert((dq % 2 == 1) == ((dp % 2 == 1) != (n % 2 == 1))) by {
            match mv.direction {
                Direction::Up => assert(dq == dp - n),
                Direction::Left => assert(dq == dp - n),
                Direction::Down => assert(dq == dp + n),
                Direction::Right => assert(dq == dp + n),
            }
        }
    }
}

impl Puzzle {
    /// Checks if the puzzle is solvable by rows: see [`RowGrids`]'s [`Solvable`] implementation.
    pub fn is_solvable(&self) -> (r: bool)
        requires
            self.wf(),
        ensures
            r == <RowGrids as Solvable>::spec_is_solvable(self),
    {
        RowGrids::is_solvable(self)
    }
}

/// Exchanging two pieces other than the gap flips solvability by rows, on a puzzle with at least
/// two rows and two columns: the gap stays, and the parity of the pieces changes.
pub proof fn lemma_swap_flips_solvability(p: &Puzzle, q: &Puzzle, i: int, j: int)
    requires
        p.wf(),
        q.wf(),
        q.spec_size() == p.spec_size(),
        !is_line(p),
        0 <= i < p@.len(),
        0 <= j < p@.len(),
        i != j,
        p@[i] != 0,
        p@[j] != 0,
        q@ == swap_seq(p@, i, j),
    ensures
        <RowGrids as Solvable>::spec_is_solvable(q) == !<RowGrids as Solvable>::spec_is_solvable(p),
{
    p.lemma_wf();
    q.lemma_wf();
    let g = p.spec_gap();
    assert(q@[g] == 0);
    if q.spec_gap() != g {
        assert(q@[q.spec_gap()] != q@[g]);
    }
    lemma_gap_last_permutation(p@);
    lemma_gap_last_swap(p@, i, j);
    lemma_swap_parity(gap_last(p@), i, j);
    lemma_solvable_parity(p);
    lemma_solvable_parity(q);
}

/// A puzzle with two distinct positions that share a [`Spiral`] label is always solvable with
/// respect to [`Spiral`]: the pieces of those positions can be exchanged freely.
pub proof fn lemma_spiral_repeated_label_solvable(p: &Puzzle, a: (u64, u64), b: (u64, u64))
    requires
        p.wf(),
        p.spec_size().spec_is_within_bounds(a),
        p.spec_size().spec_is_within_bounds(b),
        a != b,
        Spiral.spec_position_label(p.spec_size(), a) == Spiral.spec_position_label(p.spec_size(), b),
    ensures
        <Spiral as Solvable>::spec_is_solvable(p),
{
    if p.w() == 2 && p.h() == 2 {
        // On a 2x2 puzzle the four positions have the four labels 0, 1, 3 and 2.
        let size = p.spec_size();
        assert(Spiral.spec_position_label(size, (0, 0)) == 0);
        assert(Spiral.spec_position_label(size, (1, 0)) == 1);
        assert(Spiral.spec_position_label(size, (0, 1)) == 3);
        assert(Spiral.spec_position_label(size, (1, 1)) == 2);
        assert(a.0 < 2 && a.1 < 2 && b.0 < 2 && b.1 < 2);
        assert(false);
    }
}

/// Every puzzle whose size is not 2x2 is solvable with respect to [`Spiral`]: a single position
/// is solved already, and on every other such size two distinct positions share a label (see
/// [`lemma_spiral_repeated_label_solvable`]).
pub proof fn lemma_spiral_solvable_unless_2x2(p: &Puzzle)
    requires
        p.wf(),
        !(p.w() == 2 && p.h() == 2),
    ensures
        <Spiral as Solvable>::spec_is_solvable(p),
{
    p.lemma_wf();
    let size = p.spec_size();
    let (w, h) = (p.w(), p.h());
    if w == 1 && h == 1 {
    } else if w == 1 {
        assert(h >= 2);
        assert(Spiral.spec_position_label(size, (0, 0)) == 0);
        assert(Spiral.spec_position_label(size, (0, 1)) == 0);
        lemma_spiral_repeated_label_solvable(p, (0, 0), (0, 1));
    } else if h == 1 {
        assert(Spiral.spec_position_label(size, (0, 0)) == 0);
        assert(Spiral.spec_position_label(size, (1, 0)) == 0);
        lemma_spiral_repeated_label_solvable(p, (0, 0), (1, 0));
    } else if w >= 3 {
        // Two positions of the top edge of the outer ring.
        assert(Spiral.spec_position_label(size, (0, 0)) == 0);
        assert(Spiral.spec_position_label(size, (1, 0)) == 0);
        lemma_spiral_repeated_label_solvable(p, (0, 0), (1, 0));
    } else {
        // Two positions of the right edge of the outer ring.
        assert(h >= 3);
        assert(Spiral.spec_position_label(size, (1, 0)) == 1);
        assert(Spiral.spec_position_label(size, (1, 1)) == 1);
        lemma_spiral_repeated_label_solvable(p, (1, 0), (1, 1));
    }
}

/// The pieces of a single row or column in the solved state are in their home order: the `i`-th
/// piece other than the gap is piece `i + 1`.
proof fn lemma_reset_line_order(p: Puzzle)
    requires
        p.wf(),
        p@ == label_solved_pieces(RowGrids, p.spec_size()),
    ensures
        nonzero_pieces(p@).len() == p@.len() - 1,
        forall|i: int| 0 <= i < p@.len() - 1 ==> #[trigger] nonzero_pieces(p@)[i] == i + 1,
{
    lemma_solved_pieces(p);
    p.lemma_wf();
    let body = p@.drop_last();
    assert(p@ =~= body.push(0));
    lemma_nonzero_pieces_all(body);
    assert(nonzero_pieces(p@) == body);
}

/// The solved state (the one that [`Puzzle::reset`] leaves) is solvable with respect to every
/// label.
pub proof fn lemma_reset_solvable_for_every_label(p: Puzzle)
    requires
        p.wf(),
        p@ == label_solved_pieces(RowGrids, p.spec_size()),
    ensures
        <RowGrids as Solvable>::spec_is_solvable(&p),
        <Spiral as Solvable>::spec_is_solvable(&p),
        <Trivial as Solvable>::spec_is_solvable(&p),
        <Fringe as Solvable>::spec_is_solvable(&p),
        <ConcentricRectangles as Solvable>::spec_is_solvable(&p),
        <Checkerboard as Solvable>::spec_is_solvable(&p),
        <Rows as Solvable>::spec_is_solvable(&p),
        <SquareFringe as Solvable>::spec_is_solvable(&p),
        <SplitFringe as Solvable>::spec_is_solvable(&p),
        <SplitSquareFringe as Solvable>::spec_is_solvable(&p),
        <Diagonals as Solvable>::spec_is_solvable(&p),
        <LastTwoRows as Solvable>::spec_is_solvable(&p),
        <SplitLastTwoRows as Solvable>::spec_is_solvable(&p),
{
    lemma_reset_is_solvable(p);
    if is_line(&p) {
        lemma_reset_line_order(p);
    }
}

/// A puzzle with more than one row and more than one column is solvable with respect to each of
/// these labels whenever two distinct positions share a label: the pieces at those positions can
/// be exchanged freely.
pub proof fn lemma_repeated_label_solvable(p: &Puzzle, a: (u64, u64), b: (u64, u64))
    requires
        p.wf(),
        !is_line(p),
        p.spec_size().spec_is_within_bounds(a),
        p.spec_size().spec_is_within_bounds(b),
        a != b,
    ensures
        ({
            let size = p.spec_size();
            &&& Rows.spec_position_label(size, a) == Rows.spec_position_label(size, b)
                ==> <Rows as Solvable>::spec_is_solvable(p)
            &&& SquareFringe.spec_position_label(size, a) == SquareFringe.spec_position_label(size, b)
                ==> <SquareFringe as Solvable>::spec_is_solvable(p)
            &&& SplitFringe.spec_position_label(size, a) == SplitFringe.spec_position_label(size, b)
                ==> <SplitFringe as Solvable>::spec_is_solvable(p)
            &&& SplitSquareFringe.spec_position_label(size, a)
                == SplitSquareFringe.spec_position_label(size, b)
                ==> <SplitSquareFringe as Solvable>::spec_is_solvable(p)
            &&& Diagonals.spec_position_label(size, a) == Diagonals.spec_position_label(size, b)
                ==> <Diagonals as Solvable>::spec_is_solvable(p)
            &&& LastTwoRows.spec_position_label(size, a) == LastTwoRows.spec_position_label(size, b)
                ==> <LastTwoRows as Solvable>::spec_is_solvable(p)
            &&& SplitLastTwoRows.spec_position_label(size, a)
                == SplitLastTwoRows.spec_position_label(size, b)
                ==> <SplitLastTwoRows as Solvable>::spec_is_solvable(p)
            &&& Spiral.spec_position_label(size, a) == Spiral.spec_position_label(size, b)
                ==> <Spiral as Solvable>::spec_is_solvable(p)
        }),
{
    if Spiral.spec_position_label(p.spec_size(), a) == Spiral.spec_position_label(p.spec_size(), b) {
        lemma_spiral_repeated_label_solvable(p, a, b);
    }
}

/// Every puzzle, of any size, is solvable with respect to [`Trivial`], [`Fringe`],
/// [`ConcentricRectangles`] and [`Checkerboard`], whenever two distinct positions share a label.
pub proof fn lemma_repeated_label_always_solvable(p: &Puzzle, a: (u64, u64), b: (u64, u64))
    requires
        p.wf(),
        p.spec_size().spec_is_within_bounds(a),
        p.spec_size().spec_is_within_bounds(b),
        a != b,
    ensures
        ({
            let size = p.spec_size();
            &&& <Trivial as Solvable>::spec_is_solvable(p)
            &&& Fringe.spec_position_label(size, a) == Fringe.spec_position_label(size, b)
                ==> <Fringe as Solvable>::spec_is_solvable(p)
            &&& ConcentricRectangles.spec_position_label(size, a)
                == ConcentricRectangles.spec_position_label(size, b)
                ==> <ConcentricRectangles as Solvable>::spec_is_solvable(p)
            &&& Checkerboard.spec_position_label(size, a) == Checkerboard.spec_position_label(size, b)
                ==> <Checkerboard as Solvable>::spec_is_solvable(p)
        }),
{
}

/// On a 2x2 puzzle, where every position has its own [`Spiral`] label, solvability with respect
/// to [`Spiral`] is solvability by rows, so exchanging two pieces other than the gap flips it.
pub proof fn lemma_spiral_2x2_swap_flips(p: &Puzzle, q: &Puzzle, i: int, j: int)
    requires
        p.wf(),
        q.wf(),
        q.spec_size() == p.spec_size(),
        p.w() == 2,
        p.h() == 2,
        0 <= i < p@.len(),
        0 <= j < p@.len(),
        i != j,
        p@[i] != 0,
        p@[j] != 0,
        q@ == swap_seq(p@, i, j),
    ensures
        <Spiral as Solvable>::spec_is_solvable(p) == <RowGrids as Solvable>::spec_is_solvable(p),
        <Spiral as Solvable>::spec_is_solvable(q) == !<Spiral as Solvable>::spec_is_solvable(p),
{
    lemma_swap_flips_solvability(p, q, i, j);
}

} // verus!
