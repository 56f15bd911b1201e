//! The operations of a sliding puzzle: finding pieces, swapping them and moving the gap.
//!
//! Positions are numbered from 0, left to right along the top row, then along the following
//! rows; position `(x, y)` of a puzzle of width `w` is position `x + w * y`. Piece 0 is the gap.

use vstd::prelude::*;

use crate::arith::{lemma_index_bound, lemma_index_split, lemma_split_bound};
use crate::perm::{lemma_permutation_onto, swap_seq};
use crate::puzzle::puzzle::Puzzle;
use crate::puzzle::label::label::{BijectiveLabel, Label, RowGrids};
use crate::puzzle::puzzle_move::{Direction, Move};
use crate::puzzle::size::{group_size, Size};

verus! {

broadcast use group_size;

/// The `(x, y)` coordinates of position `i` of a puzzle of width `w`.
pub open spec fn position_xy(i: int, w: int) -> (u64, u64) {
    ((i % w) as u64, (i / w) as u64)
}

/// The piece that the solved state of `label` puts at a position of label `l`, on a puzzle with
/// `area` positions: piece `l + 1`, or the gap for the last label.
pub open spec fn label_piece(l: int, area: int) -> u64 {
    if l + 1 == area {
        0
    } else {
        (l + 1) as u64
    }
}

/// The pieces of the solved state of `label` on a puzzle of the given size: each position holds
/// the piece of its label.
pub open spec fn label_solved_pieces<L: Label>(label: L, size: Size) -> Seq<u64> {
    Seq::new(
        size.spec_area(),
        |i: int|
            label_piece(
                label.spec_position_label(size, position_xy(i, size.spec_width() as int)),
                size.spec_area() as int,
            ),
    )
}

/// The change of the gap's `(x, y)` position when it moves `n` steps such that the pieces move
/// in direction `dir`.
pub open spec fn offset(dir: Direction, n: int) -> (int, int) {
    match dir {
        Direction::Up => (0, n),
        Direction::Left => (n, 0),
        Direction::Down => (0, -n),
        Direction::Right => (-n, 0),
    }
}

/// The pieces `s` of a `w`-wide puzzle with the gap at `(gx, gy)`, after `n` single-tile moves in
/// direction `dir`: each exchanges the gap with its neighbour.
pub open spec fn moved(s: Seq<u64>, w: int, gx: int, gy: int, dir: Direction, n: nat) -> Seq<u64>
    decreases n,
{
    if n == 0 {
        s
    } else {
        let (dx, dy) = offset(dir, 1);
        moved(
            swap_seq(s, gx + w * gy, (gx + dx) + w * (gy + dy)),
            w,
            gx + dx,
            gy + dy,
            dir,
            (n - 1) as nat,
        )
    }
}

/// The gap at `(gx, gy)` can move `amount` steps in direction `dir` on a `w x h` puzzle.
pub open spec fn move_fits(w: int, h: int, gx: int, gy: int, mv: Move) -> bool {
    let (dx, dy) = offset(mv.direction, mv.amount as int);
    0 <= gx + dx < w && 0 <= gy + dy < h
}

/// The moves of `moves`, one after the other, keep the gap, starting at `(gx, gy)`, on a `w x h`
/// puzzle.
pub open spec fn alg_fits(w: int, h: int, gx: int, gy: int, moves: Seq<Move>) -> bool
    decreases moves.len(),
{
    if moves.len() == 0 {
        true
    } else {
        let (dx, dy) = offset(moves[0].direction, moves[0].amount as int);
        move_fits(w, h, gx, gy, moves[0]) && alg_fits(w, h, gx + dx, gy + dy, moves.drop_first())
    }
}

/// The pieces `s` after all the moves of `moves`, with the gap starting at `(gx, gy)`.
pub open spec fn after_alg(s: Seq<u64>, w: int, gx: int, gy: int, moves: Seq<Move>) -> Seq<u64>
    decreases moves.len(),
{
    if moves.len() == 0 {
        s
    } else {
        let (dx, dy) = offset(moves[0].direction, moves[0].amount as int);
        after_alg(
            moved(s, w, gx, gy, moves[0].direction, moves[0].amount as nat),
            w,
            gx + dx,
            gy + dy,
            moves.drop_first(),
        )
    }
}

/// The move that brings the piece at `(x, y)` to the gap at `(gx, gy)`, moving the pieces
/// between them along, where the two share a row or a column.
pub open spec fn position_move(gx: int, gy: int, x: int, y: int) -> Move {
    if x == gx && y < gy {
        Move { direction: Direction::Down, amount: (gy - y) as u64 }
    } else if x == gx && y > gy {
        Move { direction: Direction::Up, amount: (y - gy) as u64 }
    } else if y == gy && x < gx {
        Move { direction: Direction::Right, amount: (gx - x) as u64 }
    } else {
        Move { direction: Direction::Left, amount: (x - gx) as u64 }
    }
}

impl Puzzle {
    /// The width, in specifications.
    pub open spec fn w(&self) -> int {
        self.spec_size().spec_width() as int
    }

    /// The height, in specifications.
    pub open spec fn h(&self) -> int {
        self.spec_size().spec_height() as int
    }

    /// The column of the gap.
    pub open spec fn gx(&self) -> int {
        self.spec_gap() % self.w()
    }

    /// The row of the gap.
    pub open spec fn gy(&self) -> int {
        self.spec_gap() / self.w()
    }

    /// The position of `(x, y)`.
    pub open spec fn index_xy(&self, pos: (u64, u64)) -> int {
        pos.0 + self.w() * pos.1
    }

    pub open spec fn spec_can_move_dir(&self, dir: Direction) -> bool {
        move_fits(self.w(), self.h(), self.gx(), self.gy(), Move { direction: dir, amount: 1 })
    }

    pub open spec fn spec_can_apply_move(&self, mv: Move) -> bool {
        move_fits(self.w(), self.h(), self.gx(), self.gy(), mv)
    }

    /// The piece at `(x, y)` can be moved: it shares a row or a column with the gap.
    pub open spec fn spec_can_move_position_xy(&self, pos: (u64, u64)) -> bool {
        &&& self.spec_size().spec_is_within_bounds(pos)
        &&& (pos.0 == self.gx() || pos.1 == self.gy())
    }

    /// Facts that hold of every well-formed puzzle.
    pub proof fn lemma_wf(&self)
        requires
            self.wf(),
        ensures
            self.w() > 0,
            self.h() > 0,
            self@.len() == self.w() * self.h(),
            0 <= self.gx() < self.w(),
            0 <= self.gy() < self.h(),
            self.spec_gap() == self.gx() + self.w() * self.gy(),
    {
        if self.w() <= 0 || self.h() <= 0 {
            assert(self.w() * self.h() <= 0) by (nonlinear_arith)
                requires
                    self.w() >= 0,
                    self.h() >= 0,
                    self.w() <= 0 || self.h() <= 0,
            ;
        }
        lemma_split_bound(self.spec_gap(), self.w(), self.h());
    }

    /// Product of the width and height.
    pub fn area(&self) -> (r: u64)
        requires
            self.wf(),
        ensures
            r == self@.len(),
    {
        self.size().area()
    }

    /// Number of pieces in the puzzle.
    pub fn num_pieces(&self) -> (r: u64)
        requires
            self.wf(),
        ensures
            r == self@.len() - 1,
    {
        self.size().num_pieces()
    }

    /// The position of piece `piece`, or `None` if there is no such piece.
    pub fn try_piece_position(&self, piece: u64) -> (r: Option<u64>)
        requires
            self.wf(),
        ensures
            r is Some <==> piece < self@.len(),
            r matches Some(i) ==> i < self@.len() && self@[i as int] == piece,
    {
        let area = self.area();
        let mut i: u64 = 0;
        while i < area
            invariant
                self.wf(),
                area == self@.len(),
                i <= area,
                forall|k: int| 0 <= k < i ==> self@[k] != piece,
            decreases area - i,
        {
            if self.piece_at(i) == piece {
                return Some(i);
            }
            i = i + 1;
        }
        proof {
            if piece < self@.len() {
                lemma_permutation_onto(self@, piece as int);
            }
        }
        None
    }

    /// Position of piece `piece`.
    pub fn piece_position(&self, piece: u64) -> (r: u64)
        requires
            self.wf(),
            piece < self@.len(),
        ensures
            r < self@.len(),
            self@[r as int] == piece,
    {
        match self.try_piece_position(piece) {
            Some(i) => i,
            None => 0,
        }
    }

    /// Position of piece `piece` as (x, y) coordinates.
    pub fn piece_position_xy(&self, piece: u64) -> (r: (u64, u64))
        requires
            self.wf(),
            piece < self@.len(),
        ensures
            self.spec_size().spec_is_within_bounds(r),
            self@[self.index_xy(r)] == piece,
    {
        let pos = self.piece_position(piece);
        let w = self.size().width();
        proof {
            self.lemma_wf();
            lemma_split_bound(pos as int, self.w(), self.h());
        }
        (pos % w, pos / w)
    }

    /// See [`Puzzle::piece_position_xy`]; `None` if there is no piece `piece`.
    pub fn try_piece_position_xy(&self, piece: u64) -> (r: Option<(u64, u64)>)
        requires
            self.wf(),
        ensures
            r is Some <==> piece < self@.len(),
            r matches Some(pos) ==> self.spec_size().spec_is_within_bounds(pos) && self@[self.index_xy(pos)] == piece,
    {
        if piece < self.area() {
            Some(self.piece_position_xy(piece))
        } else {
            None
        }
    }

    /// Position of the gap; always `Some`.
    pub fn try_gap_position(&self) -> (r: Option<u64>)
        requires
            self.wf(),
        ensures
            r == Some(self.spec_gap() as u64),
    {
        Some(self.gap_position())
    }

    /// Position of the empty space as (x, y) coordinates.
    pub fn gap_position_xy(&self) -> (r: (u64, u64))
        requires
            self.wf(),
        ensures
            r.0 == self.gx(),
            r.1 == self.gy(),
    {
        let g = self.gap_position();
        let w = self.size().width();
        (g % w, g / w)
    }

    /// See [`Puzzle::gap_position_xy`]; always `Some`.
    pub fn try_gap_position_xy(&self) -> (r: Option<(u64, u64)>)
        requires
            self.wf(),
        ensures
            r == Some((self.gx() as u64, self.gy() as u64)),
    {
        proof {
            self.lemma_wf();
        }
        Some(self.gap_position_xy())
    }

    /// See [`Puzzle::solved_pos`]; `None` if `piece` is not a piece of the puzzle.
    pub fn try_solved_pos(&self, piece: u64) -> (r: Option<u64>)
        requires
            self.wf(),
        ensures
            r == if piece < self@.len() {
                Some(
                    if piece == 0 {
                        (self@.len() - 1) as u64
                    } else {
                        (piece - 1) as u64
                    },
                )
            } else {
                None::<u64>
            },
    {
        if piece <= self.num_pieces() {
            Some(self.solved_pos(piece))
        } else {
            None
        }
    }

    /// The position of `piece` when the puzzle is solved as (x, y) coordinates.
    pub fn solved_pos_xy(&self, piece: u64) -> (r: (u64, u64))
        requires
            self.wf(),
        ensures
            ({
                let p = if piece == 0 {
                    self@.len() - 1
                } else {
                    piece - 1
                };
                r == ((p % self.w()) as u64, (p / self.w()) as u64)
            }),
    {
        let p = self.solved_pos(piece);
        let w = self.size().width();
        (p % w, p / w)
    }

    /// See [`Puzzle::solved_pos_xy`]; `None` if `piece` is not a piece of the puzzle.
    pub fn try_solved_pos_xy(&self, piece: u64) -> (r: Option<(u64, u64)>)
        requires
            self.wf(),
        ensures
            piece >= self@.len() ==> r is None,
            piece < self@.len() ==> ({
                let p = if piece == 0 {
                    self@.len() - 1
                } else {
                    piece - 1
                };
                r == Some(((p % self.w()) as u64, (p / self.w()) as u64))
            }),
    {
        if piece <= self.num_pieces() {
            Some(self.solved_pos_xy(piece))
        } else {
            None
        }
    }

    /// See [`Puzzle::piece_at`]; `None` if `idx` is not a position of the puzzle.
    pub fn try_piece_at(&self, idx: u64) -> (r: Option<u64>)
        requires
            self.wf(),
        ensures
            r == if idx < self@.len() {
                Some(self@[idx as int])
            } else {
                None::<u64>
            },
    {
        if idx < self.area() {
            Some(self.piece_at(idx))
        } else {
            None
        }
    }

    /// The piece at a given (x, y) position.
    pub fn piece_at_xy(&self, pos: (u64, u64)) -> (r: u64)
        requires
            self.wf(),
            self.spec_size().spec_is_within_bounds(pos),
        ensures
            r == self@[self.index_xy(pos)],
    {
        proof {
            self.lemma_wf();
            lemma_index_bound(pos.0 as int, pos.1 as int, self.w(), self.h());
        }
        self.piece_at(pos.0 + self.size().width() * pos.1)
    }

    /// See [`Puzzle::piece_at_xy`]; `None` if `pos` is not a position of the puzzle.
    pub fn try_piece_at_xy(&self, pos: (u64, u64)) -> (r: Option<u64>)
        requires
            self.wf(),
        ensures
            r == if self.spec_size().spec_is_within_bounds(pos) {
                Some(self@[self.index_xy(pos)])
            } else {
                None::<u64>
            },
    {
        if self.size().is_within_bounds(pos) {
            Some(self.piece_at_xy(pos))
        } else {
            None
        }
    }

    /// See [`Puzzle::swap_pieces`]. Returns `true` if `idx1` and `idx2` are within the valid
    /// range for the puzzle and the pieces were swapped, and `false` otherwise.
    pub fn try_swap_pieces(&mut self, idx1: u64, idx2: u64) -> (r: bool)
        requires
            old(self).wf(),
        ensures
            final(self).wf(),
            final(self).spec_size() == old(self).spec_size(),
            r == (idx1 < old(self)@.len() && idx2 < old(self)@.len()),
            final(self)@ == if r {
                swap_seq(old(self)@, idx1 as int, idx2 as int)
            } else {
                old(self)@
            },
    {
        let area = self.area();
        if idx1 < area && idx2 < area {
            self.swap_pieces(idx1, idx2);
            true
        } else {
            false
        }
    }

    /// Swaps the pieces at positions `(x1, y1)` and `(x2, y2)`.
    pub fn swap_pieces_xy(&mut self, pos1: (u64, u64), pos2: (u64, u64))
        requires
            old(self).wf(),
            old(self).index_xy(pos1) < old(self)@.len(),
            old(self).index_xy(pos2) < old(self)@.len(),
        ensures
            final(self).wf(),
            final(self).spec_size() == old(self).spec_size(),
            final(self)@ == swap_seq(old(self)@, old(self).index_xy(pos1), old(self).index_xy(pos2)),
    {
        let w = self.size().width();
        proof {
            assert(0 <= w * pos1.1) by (nonlinear_arith)
                requires
                    w > 0,
            ;
            assert(0 <= w * pos2.1) by (nonlinear_arith)
                requires
                    w > 0,
            ;
        }
        self.swap_pieces(pos1.0 + w * pos1.1, pos2.0 + w * pos2.1);
    }

    /// See [`Puzzle::swap_pieces_xy`]. Returns `true` if both positions number a position of
    /// the puzzle and the pieces were swapped, and `false` otherwise.
    pub fn try_swap_pieces_xy(&mut self, pos1: (u64, u64), pos2: (u64, u64)) -> (r: bool)
        requires
            old(self).wf(),
            old(self).index_xy(pos1) <= u64::MAX,
            old(self).index_xy(pos2) <= u64::MAX,
        ensures
            final(self).wf(),
            final(self).spec_size() == old(self).spec_size(),
            r == (old(self).index_xy(pos1) < old(self)@.len() && old(self).index_xy(pos2)
                < old(self)@.len()),
            final(self)@ == if r {
                swap_seq(old(self)@, old(self).index_xy(pos1), old(self).index_xy(pos2))
            } else {
                old(self)@
            },
    {
        let w = self.size().width();
        proof {
            assert(0 <= w * pos1.1) by (nonlinear_arith)
                requires
                    w > 0,
            ;
            assert(0 <= w * pos2.1) by (nonlinear_arith)
                requires
                    w > 0,
            ;
        }
        self.try_swap_pieces(pos1.0 + w * pos1.1, pos2.0 + w * pos2.1)
    }

    /// See [`Puzzle::swap_piece_with_gap`]. Returns `true` if `idx` is a position of the puzzle
    /// and the piece was swapped, and `false` otherwise.
    pub fn try_swap_piece_with_gap(&mut self, idx: u64) -> (r: bool)
        requires
            old(self).wf(),
        ensures
            final(self).wf(),
            final(self).spec_size() == old(self).spec_size(),
            r == (idx < old(self)@.len()),
            final(self)@ == if r {
                swap_seq(old(self)@, old(self).spec_gap(), idx as int)
            } else {
                old(self)@
            },
    {
        if idx < self.area() {
            self.swap_piece_with_gap(idx);
            true
        } else {
            false
        }
    }

    /// Checks if it is possible to move a piece in the given [`Direction`].
    pub fn can_move_dir(&self, dir: Direction) -> (r: bool)
        requires
            self.wf(),
        ensures
            r == self.spec_can_move_dir(dir),
    {
        proof {
            self.lemma_wf();
        }
        let (gx, gy) = self.gap_position_xy();
        let size = self.size();
        match dir {
            Direction::Up => gy + 1 < size.height(),
            Direction::Left => gx + 1 < size.width(),
            Direction::Down => gy > 0,
            Direction::Right => gx > 0,
        }
    }

    /// Moves a piece in the given [`Direction`]: the piece next to the gap in the opposite
    /// direction takes the gap's place.
    pub fn move_dir(&mut self, dir: Direction)
        requires
            old(self).wf(),
            old(self).spec_can_move_dir(dir),
        ensures
            final(self).wf(),
            final(self).spec_size() == old(self).spec_size(),
            final(self)@ == moved(old(self)@, old(self).w(), old(self).gx(), old(self).gy(), dir, 1),
            final(self).gx() == old(self).gx() + offset(dir, 1).0,
            final(self).gy() == old(self).gy() + offset(dir, 1).1,
    {
        proof {
            self.lemma_wf();
        }
        let ghost (gx, gy, w) = (self.gx(), self.gy(), self.w());
        let gap = self.gap_position();
        let w = self.size().width();
        let ghost (nx, ny) = (gx + offset(dir, 1).0, gy + offset(dir, 1).1);
        proof {
            assert(nx + w * ny == gap + offset(dir, 1).0 + w * offset(dir, 1).1) by (nonlinear_arith)
                requires
                    gap == gx + w * gy,
                    nx == gx + offset(dir, 1).0,
                    ny == gy + offset(dir, 1).1,
            ;
            lemma_index_bound(nx, ny, self.w(), self.h());
            lemma_index_split(nx, ny, self.w());
        }
        let piece = match dir {
            Direction::Up => gap + w,
            Direction::Left => gap + 1,
            Direction::Down => gap - w,
            Direction::Right => gap - 1,
        };
        assert(piece == nx + w * ny);
        self.swap_piece_with_gap(piece);
        proof {
            let n1: nat = 1;
            assert(moved(old(self)@, w as int, gx, gy, dir, n1) == moved(
                swap_seq(old(self)@, gx + w * gy, nx + w * ny),
                w as int,
                nx,
                ny,
                dir,
                0,
            ));
        }
    }

    /// See [`Puzzle::move_dir`]. Returns `true` if the piece was moved, `false` otherwise.
    pub fn try_move_dir(&mut self, dir: Direction) -> (r: bool)
        requires
            old(self).wf(),
        ensures
            final(self).wf(),
            final(self).spec_size() == old(self).spec_size(),
            r == old(self).spec_can_move_dir(dir),
            final(self)@ == if r {
                moved(old(self)@, old(self).w(), old(self).gx(), old(self).gy(), dir, 1)
            } else {
                old(self)@
            },
    {
        if self.can_move_dir(dir) {
            self.move_dir(dir);
            true
        } else {
            false
        }
    }

    /// Checks if it is possible to apply the given [`Move`].
    pub fn can_apply_move(&self, mv: Move) -> (r: bool)
        requires
            self.wf(),
        ensures
            r == self.spec_can_apply_move(mv),
    {
        proof {
            self.lemma_wf();
        }
        let (gx, gy) = self.gap_position_xy();
        let size = self.size();
        let amount = mv.amount;
        match mv.direction {
            Direction::Up => amount < size.height() - gy,
            Direction::Left => amount < size.width() - gx,
            Direction::Down => gy >= amount,
            Direction::Right => gx >= amount,
        }
    }

    /// Applies the given [`Move`] to the puzzle: `mv.amount` single-tile moves in direction
    /// `mv.direction`.
    pub fn apply_move(&mut self, mv: Move)
        requires
            old(self).wf(),
            old(self).spec_can_apply_move(mv),
        ensures
            final(self).wf(),
            final(self).spec_size() == old(self).spec_size(),
            final(self)@ == moved(
                old(self)@,
                old(self).w(),
                old(self).gx(),
                old(self).gy(),
                mv.direction,
                mv.amount as nat,
            ),
            final(self).gx() == old(self).gx() + offset(mv.direction, mv.amount as int).0,
            final(self).gy() == old(self).gy() + offset(mv.direction, mv.amount as int).1,
    {
        proof {
            self.lemma_wf();
        }
        let ghost (w, gx, gy, s) = (self.w(), self.gx(), self.gy(), self@);
        let mut k: u64 = 0;
        while k < mv.amount
            invariant
                self.wf(),
                self.spec_size() == old(self).spec_size(),
                w == self.w(),
                k <= mv.amount,
                0 <= gx < w,
                0 <= gy < self.h(),
                move_fits(self.w(), self.h(), gx, gy, mv),
                self.gx() == gx + offset(mv.direction, k as int).0,
                self.gy() == gy + offset(mv.direction, k as int).1,
                moved(s, w, gx, gy, mv.direction, mv.amount as nat) == moved(
                    self@,
                    w,
                    self.gx(),
                    self.gy(),
                    mv.direction,
                    (mv.amount - k) as nat,
                ),
            decreases mv.amount - k,
        {
            let ghost (s0, x0, y0) = (self@, self.gx(), self.gy());
            self.move_dir(mv.direction);
            proof {
                let n = (mv.amount - k) as nat;
                let (dx, dy) = offset(mv.direction, 1);
                assert(moved(s0, w, x0, y0, mv.direction, 1) == moved(
                    swap_seq(s0, x0 + w * y0, (x0 + dx) + w * (y0 + dy)),
                    w,
                    x0 + dx,
                    y0 + dy,
                    mv.direction,
                    0,
                ));
                assert(moved(s0, w, x0, y0, mv.direction, n) == moved(
                    swap_seq(s0, x0 + w * y0, (x0 + dx) + w * (y0 + dy)),
                    w,
                    x0 + dx,
                    y0 + dy,
                    mv.direction,
                    (n - 1) as nat,
                ));
            }
            k = k + 1;
        }
    }

    /// See [`Puzzle::apply_move`]. Returns `true` if the move was applied, `false` otherwise.
    pub fn try_apply_move(&mut self, mv: Move) -> (r: bool)
        requires
            old(self).wf(),
        ensures
            final(self).wf(),
            final(self).spec_size() == old(self).spec_size(),
            r == old(self).spec_can_apply_move(mv),
            final(self)@ == if r {
                moved(
                    old(self)@,
                    old(self).w(),
                    old(self).gx(),
                    old(self).gy(),
                    mv.direction,
                    mv.amount as nat,
                )
            } else {
                old(self)@
            },
    {
        if self.can_apply_move(mv) {
            self.apply_move(mv);
            true
        } else {
            false
        }
    }

    /// The move that brings the piece at `pos` to the gap, if `pos` shares a row or a column
    /// with the gap.
    fn move_to_position(&self, pos: (u64, u64)) -> (r: Option<Move>)
        requires
            self.wf(),
        ensures
            r is Some <==> self.spec_can_move_position_xy(pos),
            r matches Some(m) ==> m == position_move(self.gx(), self.gy(), pos.0 as int, pos.1 as int)
                && self.spec_can_apply_move(m),
    {
        proof {
            self.lemma_wf();
        }
        if !self.size().is_within_bounds(pos) {
            return None;
        }
        let (gx, gy) = self.gap_position_xy();
        let (x, y) = pos;
        if x == gx && y < gy {
            Some(Move::new(Direction::Down, gy - y))
        } else if x == gx && y > gy {
            Some(Move::new(Direction::Up, y - gy))
        } else if y == gy && x < gx {
            Some(Move::new(Direction::Right, gx - x))
        } else if y == gy {
            Some(Move::new(Direction::Left, x - gx))
        } else {
            None
        }
    }

    /// Checks if it is possible to move the piece at position `(x, y)`: `true` if `(x, y)` is in
    /// the same row or column as the gap, including the gap position itself.
    pub fn can_move_position_xy(&self, pos: (u64, u64)) -> (r: bool)
        requires
            self.wf(),
        ensures
            r == self.spec_can_move_position_xy(pos),
    {
        if self.size().is_within_bounds(pos) {
            let (gx, gy) = self.gap_position_xy();
            pos.0 == gx || pos.1 == gy
        } else {
            false
        }
    }

    /// Moves the piece in position `(x, y)` to the gap, along with the pieces between them.
    /// Returns `true` if the piece was moved, `false` otherwise.
    pub fn try_move_position_xy(&mut self, pos: (u64, u64)) -> (r: bool)
        requires
            old(self).wf(),
        ensures
            final(self).wf(),
            final(self).spec_size() == old(self).spec_size(),
            r == old(self).spec_can_move_position_xy(pos),
            final(self)@ == if r {
                ({
                    let m = position_move(
                        old(self).gx(),
                        old(self).gy(),
                        pos.0 as int,
                        pos.1 as int,
                    );
                    moved(
                        old(self)@,
                        old(self).w(),
                        old(self).gx(),
                        old(self).gy(),
                        m.direction,
                        m.amount as nat,
                    )
                })
            } else {
                old(self)@
            },
    {
        match self.move_to_position(pos) {
            Some(mv) => {
                self.apply_move(mv);
                true
            },
            None => false,
        }
    }

    /// Moves the piece in position `(x, y)`; see [`Puzzle::try_move_position_xy`]. Does nothing
    /// if the piece cannot be moved.
    pub fn move_position_xy(&mut self, pos: (u64, u64))
        requires
            old(self).wf(),
        ensures
            final(self).wf(),
            final(self).spec_size() == old(self).spec_size(),
            final(self)@ == if old(self).spec_can_move_position_xy(pos) {
                ({
                    let m = position_move(
                        old(self).gx(),
                        old(self).gy(),
                        pos.0 as int,
                        pos.1 as int,
                    );
                    moved(
                        old(self)@,
                        old(self).w(),
                        old(self).gx(),
                        old(self).gy(),
                        m.direction,
                        m.amount as nat,
                    )
                })
            } else {
                old(self)@
            },
    {
        self.try_move_position_xy(pos);
    }

    /// Checks if it is possible to move the piece at position `idx`.
    pub fn can_move_position(&self, idx: u64) -> (r: bool)
        requires
            self.wf(),
        ensures
            r == self.spec_can_move_position_xy((((idx as int) % self.w()) as u64, ((idx as int) / self.w()) as u64)),
    {
        let w = self.size().width();
        self.can_move_position_xy((idx % w, idx / w))
    }

    /// Moves the piece in position `idx`. Returns `true` if the piece was moved, `false`
    /// otherwise.
    pub fn try_move_position(&mut self, idx: u64) -> (r: bool)
        requires
            old(self).wf(),
        ensures
            final(self).wf(),
            final(self).spec_size() == old(self).spec_size(),
            ({
                let pos = (((idx as int) % old(self).w()) as u64, ((idx as int) / old(self).w()) as u64);
                &&& r == old(self).spec_can_move_position_xy(pos)
                &&& final(self)@ == if r {
                    ({
                        let m = position_move(
                            old(self).gx(),
                            old(self).gy(),
                            pos.0 as int,
                            pos.1 as int,
                        );
                        moved(
                            old(self)@,
                            old(self).w(),
                            old(self).gx(),
                            old(self).gy(),
                            m.direction,
                            m.amount as nat,
                        )
                    })
                } else {
                    old(self)@
                }
            }),
    {
        let w = self.size().width();
        self.try_move_position_xy((idx % w, idx / w))
    }

    /// Moves the piece in position `idx`; see [`Puzzle::try_move_position`]. Does nothing if the
    /// piece cannot be moved.
    pub fn move_position(&mut self, idx: u64)
        requires
            old(self).wf(),
        ensures
            final(self).wf(),
            final(self).spec_size() == old(self).spec_size(),
            ({
                let pos = (((idx as int) % old(self).w()) as u64, ((idx as int) / old(self).w()) as u64);
                final(self)@ == if old(self).spec_can_move_position_xy(pos) {
                    ({
                        let m = position_move(
                            old(self).gx(),
                            old(self).gy(),
                            pos.0 as int,
                            pos.1 as int,
                        );
                        moved(
                            old(self)@,
                            old(self).w(),
                            old(self).gx(),
                            old(self).gy(),
                            m.direction,
                            m.amount as nat,
                        )
                    })
                } else {
                    old(self)@
                }
            }),
    {
        self.try_move_position(idx);
    }

    /// Checks if it is possible to move piece `piece`: `true` if the piece is in the same row
    /// or column as the gap, including the gap itself.
    pub fn can_move_piece(&self, piece: u64) -> (r: bool)
        requires
            self.wf(),
        ensures
            r == (piece < self@.len() && exists|pos: (u64, u64)|
                self.spec_size().spec_is_within_bounds(pos) && self@[self.index_xy(pos)] == piece
                    && #[trigger] self.spec_can_move_position_xy(pos)),
    {
        proof {
            self.lemma_wf();
        }
        match self.try_piece_position_xy(piece) {
            Some(pos) => {
                let r = self.can_move_position_xy(pos);
                proof {
                    assert forall|q: (u64, u64)|
                        self.spec_size().spec_is_within_bounds(q) && self@[self.index_xy(q)]
                            == piece implies q == pos by {
                        lemma_index_bound(q.0 as int, q.1 as int, self.w(), self.h());
                        lemma_index_bound(pos.0 as int, pos.1 as int, self.w(), self.h());
                        lemma_index_split(q.0 as int, q.1 as int, self.w());
                        lemma_index_split(pos.0 as int, pos.1 as int, self.w());
                    }
                }
                r
            },
            None => false,
        }
    }

    /// Moves piece `piece` to the gap, along with the pieces between them. Returns `true` if
    /// the piece was moved, `false` otherwise.
    pub fn try_move_piece(&mut self, piece: u64) -> (r: bool)
        requires
            old(self).wf(),
        ensures
            final(self).wf(),
            final(self).spec_size() == old(self).spec_size(),
            r ==> piece < old(self)@.len(),
            piece < old(self)@.len() ==> ({
                let pos = choose|pos: (u64, u64)|
                    old(self).spec_size().spec_is_within_bounds(pos) && old(self)@[old(
                        self,
                    ).index_xy(pos)] == piece;
                &&& r == old(self).spec_can_move_position_xy(pos)
                &&& final(self)@ == if r {
                    ({
                        let m = position_move(
                            old(self).gx(),
                            old(self).gy(),
                            pos.0 as int,
                            pos.1 as int,
                        );
                        moved(
                            old(self)@,
                            old(self).w(),
                            old(self).gx(),
                            old(self).gy(),
                            m.direction,
                            m.amount as nat,
                        )
                    })
                } else {
                    old(self)@
                }
            }),
            piece >= old(self)@.len() ==> final(self)@ == old(self)@,
    {
        proof {
            self.lemma_wf();
        }
        match self.try_piece_position_xy(piece) {
            Some(pos) => {
                proof {
                    let c = choose|q: (u64, u64)|
                        self.spec_size().spec_is_within_bounds(q) && self@[self.index_xy(q)]
                            == piece;
                    lemma_index_bound(c.0 as int, c.1 as int, self.w(), self.h());
                    lemma_index_bound(pos.0 as int, pos.1 as int, self.w(), self.h());
                    lemma_index_split(c.0 as int, c.1 as int, self.w());
                    lemma_index_split(pos.0 as int, pos.1 as int, self.w());
                    assert(c == pos);
                }
                self.try_move_position_xy(pos)
            },
            None => false,
        }
    }

    /// Moves piece `piece`; see [`Puzzle::try_move_piece`].
    pub fn move_piece(&mut self, piece: u64)
        requires
            old(self).wf(),
            piece < old(self)@.len(),
        ensures
            final(self).wf(),
            final(self).spec_size() == old(self).spec_size(),
            ({
                let pos = choose|pos: (u64, u64)|
                    old(self).spec_size().spec_is_within_bounds(pos) && old(self)@[old(
                        self,
                    ).index_xy(pos)] == piece;
                final(self)@ == if old(self).spec_can_move_position_xy(pos) {
                    ({
                        let m = position_move(
                            old(self).gx(),
                            old(self).gy(),
                            pos.0 as int,
                            pos.1 as int,
                        );
                        moved(
                            old(self)@,
                            old(self).w(),
                            old(self).gx(),
                            old(self).gy(),
                            m.direction,
                            m.amount as nat,
                        )
                    })
                } else {
                    old(self)@
                }
            }),
    {
        self.try_move_piece(piece);
    }

    /// Checks if it is possible to apply the moves of `moves`, one after the other.
    pub fn can_apply_alg(&self, moves: &[Move]) -> (r: bool)
        requires
            self.wf(),
        ensures
            r == alg_fits(self.w(), self.h(), self.gx(), self.gy(), moves@),
    {
        proof {
            self.lemma_wf();
        }
        let (mut gx, mut gy) = self.gap_position_xy();
        let size = self.size();
        let mut i: usize = 0;
        assert(moves@.skip(0) =~= moves@);
        while i < moves.len()
            invariant
                i <= moves@.len(),
                0 <= gx < self.w(),
                0 <= gy < self.h(),
                size == self.spec_size(),
                alg_fits(self.w(), self.h(), self.gx(), self.gy(), moves@) == alg_fits(
                    self.w(),
                    self.h(),
                    gx as int,
                    gy as int,
                    moves@.skip(i as int),
                ),
            decreases moves@.len() - i,
        {
            let m = moves[i];
            let amount = m.amount;
            let next = match m.direction {
                Direction::Up => if amount < size.height() - gy {
                    Some((gx, gy + amount))
                } else {
                    None
                },
                Direction::Left => if amount < size.width() - gx {
                    Some((gx + amount, gy))
                } else {
                    None
                },
                Direction::Down => if amount <= gy {
                    Some((gx, gy - amount))
                } else {
                    None
                },
                Direction::Right => if amount <= gx {
                    Some((gx - amount, gy))
                } else {
                    None
                },
            };
            assert(moves@.skip(i as int)[0] == m);
            assert(moves@.skip(i as int).drop_first() =~= moves@.skip(i + 1));
            match next {
                Some((x, y)) => {
                    gx = x;
                    gy = y;
                },
                None => {
                    return false;
                },
            }
            i = i + 1;
        }
        true
    }

    /// Applies the moves of `moves` to the puzzle, one after the other.
    pub fn apply_alg(&mut self, moves: &[Move])
        requires
            old(self).wf(),
            alg_fits(old(self).w(), old(self).h(), old(self).gx(), old(self).gy(), moves@),
        ensures
            final(self).wf(),
            final(self).spec_size() == old(self).spec_size(),
            final(self)@ == after_alg(old(self)@, old(self).w(), old(self).gx(), old(self).gy(), moves@),
    {
        let ghost (s, w, gx, gy) = (self@, self.w(), self.gx(), self.gy());
        let mut i: usize = 0;
        assert(moves@.skip(0) =~= moves@);
        while i < moves.len()
            invariant
                self.wf(),
                self.spec_size() == old(self).spec_size(),
                w == self.w(),
                i <= moves@.len(),
                alg_fits(self.w(), self.h(), self.gx(), self.gy(), moves@.skip(i as int)),
                after_alg(s, w, gx, gy, moves@) == after_alg(
                    self@,
                    w,
                    self.gx(),
                    self.gy(),
                    moves@.skip(i as int),
                ),
            decreases moves@.len() - i,
        {
            let m = moves[i];
            assert(moves@.skip(i as int)[0] == m);
            assert(moves@.skip(i as int).drop_first() =~= moves@.skip(i + 1));
            self.apply_move(m);
            i = i + 1;
        }
    }

    /// See [`Puzzle::apply_alg`]. Returns `true` if the moves were applied, `false` otherwise.
    pub fn try_apply_alg(&mut self, moves: &[Move]) -> (r: bool)
        requires
            old(self).wf(),
        ensures
            final(self).wf(),
            final(self).spec_size() == old(self).spec_size(),
            r == alg_fits(old(self).w(), old(self).h(), old(self).gx(), old(self).gy(), moves@),
            final(self)@ == if r {
                after_alg(old(self)@, old(self).w(), old(self).gx(), old(self).gy(), moves@)
            } else {
                old(self)@
            },
    {
        if self.can_apply_alg(moves) {
            self.apply_alg(moves);
            true
        } else {
            false
        }
    }

    /// Sets the state to that of `other`, if both puzzles have the same size. Returns `true` if
    /// the state was set, `false` otherwise.
    pub fn try_set_state(&mut self, other: &Puzzle) -> (r: bool)
        requires
            old(self).wf(),
            other.wf(),
        ensures
            final(self).wf(),
            final(self).spec_size() == old(self).spec_size(),
            r == (old(self).spec_size() == other.spec_size()),
            final(self)@ == if r {
                other@
            } else {
                old(self)@
            },
    {
        if self.size() == other.size() {
            let area = other.area();
            let mut i: u64 = 0;
            while i < area
                invariant
                    self.wf(),
                    other.wf(),
                    self.spec_size() == old(self).spec_size(),
                    self.spec_size() == other.spec_size(),
                    area == other@.len(),
                    i <= area,
                    self@.take(i as int) == other@.take(i as int),
                decreases area - i,
            {
                let v = other.piece_at(i);
                let p = self.piece_position(v);
                proof {
                    if p < i {
                        assert(self@.take(i as int)[p as int] == other@[p as int]);
                        assert(other@[p as int] == other@[i as int]);
                    }
                }
                let ghost before = self@;
                self.swap_pieces(i, p);
                assert(self@.take(i + 1) =~= other@.take(i + 1)) by {
                    assert forall|k: int| 0 <= k < i implies self@[k] == other@[k] by {
                        assert(before.take(i as int)[k] == other@.take(i as int)[k]);
                    }
                }
                i = i + 1;
            }
            assert(self@ =~= self@.take(area as int));
            assert(other@ =~= other@.take(area as int));
            true
        } else {
            false
        }
    }

    /// Resets the puzzle to the solved state as defined by a [`BijectiveLabel`]: the position of
    /// label `l` gets piece `l + 1`, and the position of the last label gets the gap.
    pub fn reset_to_label<L: BijectiveLabel>(&mut self, label: &L)
        requires
            old(self).wf(),
            label.spec_valid_size(old(self).spec_size()),
        ensures
            final(self).wf(),
            final(self).spec_size() == old(self).spec_size(),
            final(self)@ == label_solved_pieces(*label, old(self).spec_size()),
    {
        let size = self.size();
        let area = self.area();
        let w = size.width();
        let ghost target = label_solved_pieces(*label, size);
        proof {
            self.lemma_wf();
            label.lemma_bijective(size);
        }
        let mut i: u64 = 0;
        while i < area
            invariant
                self.wf(),
                self.spec_size() == size,
                size == old(self).spec_size(),
                area == self@.len() == size.spec_area(),
                w == size.spec_width(),
                label.spec_valid_size(size),
                target == label_solved_pieces(*label, size),
                i <= area,
                forall|j: int| 0 <= j < i ==> #[trigger] self@[j] == target[j],
                forall|j: int|
                    0 <= j < i ==> 0 <= #[trigger] label.spec_position_label(
                        size,
                        position_xy(j, w as int),
                    ) < area,
                label.spec_num_labels(size) == size.spec_area(),
                forall|p: (u64, u64), q: (u64, u64)|
                    size.spec_is_within_bounds(p) && size.spec_is_within_bounds(q)
                        && #[trigger] label.spec_position_label(size, p)
                        == #[trigger] label.spec_position_label(size, q) ==> p == q,
            decreases area - i,
        {
            proof {
                self.lemma_wf();
                lemma_split_bound(i as int, w as int, size.spec_height() as int);
            }
            let l = label.position_label(size, (i % w, i / w));
            let piece = if l + 1 == area {
                0
            } else {
                l + 1
            };
            assert(piece == target[i as int]);
            let q = self.piece_position(piece);
            proof {
                if q < i {
                    // Position `q` already holds its own piece, so it has the label of `i`.
                    assert(self@[q as int] == target[q as int]);
                    lemma_split_bound(q as int, w as int, size.spec_height() as int);
                    let pq = position_xy(q as int, w as int);
                    let pi = position_xy(i as int, w as int);
                    assert(label.spec_position_label(size, pq) < area);
                    assert(label.spec_position_label(size, pq) == label.spec_position_label(size, pi));
                    assert(pq == pi);
                    assert(false);
                }
            }
            let ghost before = self@;
            self.swap_pieces(i, q);
            proof {
                assert forall|j: int| 0 <= j < i + 1 implies #[trigger] self@[j] == target[j] by {
                    if j < i {
                        assert(before[j] == target[j]);
                    }
                }
            }
            i = i + 1;
        }
        assert(self@ =~= target);
    }

    /// Resets the puzzle to the solved state: piece `i + 1` at position `i`, the gap last.
    pub fn reset(&mut self)
        requires
            old(self).wf(),
        ensures
            final(self).wf(),
            final(self).spec_size() == old(self).spec_size(),
            final(self)@ == label_solved_pieces(RowGrids, old(self).spec_size()),
    {
        self.reset_to_label(&RowGrids);
    }

    /// Sets the state to that of `other`, which must have the same size.
    pub fn set_state(&mut self, other: &Puzzle)
        requires
            old(self).wf(),
            other.wf(),
            old(self).spec_size() == other.spec_size(),
        ensures
            final(self).wf(),
            final(self).spec_size() == old(self).spec_size(),
            final(self)@ == other@,
    {
        self.try_set_state(other);
    }
}

/// Offsets add up along a direction, and the opposite direction goes back.
pub proof fn lemma_offset_add(dir: Direction, a: int, b: int)
    ensures
        offset(dir, a).0 + offset(dir, b).0 == offset(dir, a + b).0,
        offset(dir, a).1 + offset(dir, b).1 == offset(dir, a + b).1,
        offset(dir.spec_inverse(), a).0 == -offset(dir, a).0,
        offset(dir.spec_inverse(), a).1 == -offset(dir, a).1,
        offset(dir, 0) == (0int, 0int),
{
    match dir {
        Direction::Up => {},
        Direction::Left => {},
        Direction::Down => {},
        Direction::Right => {},
    }
}

/// A position between the gap and the end of a move that fits lies on the puzzle.
pub proof fn lemma_offset_between(w: int, h: int, gx: int, gy: int, dir: Direction, n: int, k: int)
    requires
        0 <= gx < w,
        0 <= gy < h,
        0 <= k <= n,
        0 <= gx + offset(dir, n).0 < w,
        0 <= gy + offset(dir, n).1 < h,
    ensures
        0 <= gx + offset(dir, k).0 < w,
        0 <= gy + offset(dir, k).1 < h,
{
    match dir {
        Direction::Up => {},
        Direction::Left => {},
        Direction::Down => {},
        Direction::Right => {},
    }
}

/// Moves that stay on the puzzle keep the number of positions.
pub proof fn lemma_moved_len(s: Seq<u64>, w: int, h: int, gx: int, gy: int, dir: Direction, n: nat)
    requires
        s.len() == w * h,
        0 <= gx < w,
        0 <= gy < h,
        0 <= gx + offset(dir, n as int).0 < w,
        0 <= gy + offset(dir, n as int).1 < h,
    ensures
        moved(s, w, gx, gy, dir, n).len() == s.len(),
    decreases n,
{
    if n > 0 {
        let (dx, dy) = offset(dir, 1);
        lemma_offset_between(w, h, gx, gy, dir, n as int, 1);
        lemma_offset_add(dir, 1, n - 1);
        lemma_index_bound(gx, gy, w, h);
        lemma_index_bound(gx + dx, gy + dy, w, h);
        let t = swap_seq(s, gx + w * gy, (gx + dx) + w * (gy + dy));
        lemma_moved_len(t, w, h, gx + dx, gy + dy, dir, (n - 1) as nat);
    }
}

/// Taking `n + 1` steps is taking `n` steps, then exchanging the gap with its next neighbour.
pub proof fn lemma_moved_last(s: Seq<u64>, w: int, gx: int, gy: int, dir: Direction, n: nat)
    ensures
        moved(s, w, gx, gy, dir, n + 1) == swap_seq(
            moved(s, w, gx, gy, dir, n),
            (gx + offset(dir, n as int).0) + w * (gy + offset(dir, n as int).1),
            (gx + offset(dir, n + 1int).0) + w * (gy + offset(dir, n + 1int).1),
        ),
    decreases n,
{
    let (dx, dy) = offset(dir, 1);
    let t = swap_seq(s, gx + w * gy, (gx + dx) + w * (gy + dy));
    lemma_offset_add(dir, 1, n as int);
    lemma_offset_add(dir, 0, 0);
    assert(moved(s, w, gx, gy, dir, n + 1) == moved(t, w, gx + dx, gy + dy, dir, n));
    if n > 0 {
        let m = (n - 1) as nat;
        lemma_moved_last(t, w, gx + dx, gy + dy, dir, m);
        lemma_offset_add(dir, 1, m as int);
        assert(m + 1 == n);
        assert(moved(s, w, gx, gy, dir, n) == moved(t, w, gx + dx, gy + dy, dir, m));
    }
}

/// Moving the gap `n` steps in a direction and then `n` steps in the opposite direction brings
/// back the pieces, where every step stays on the `w x h` puzzle.
proof fn lemma_moved_back(s: Seq<u64>, w: int, h: int, gx: int, gy: int, dir: Direction, n: nat)
    requires
        s.len() == w * h,
        0 <= gx < w,
        0 <= gy < h,
        0 <= gx + offset(dir, n as int).0 < w,
        0 <= gy + offset(dir, n as int).1 < h,
    ensures
        moved(
            moved(s, w, gx, gy, dir, n),
            w,
            gx + offset(dir, n as int).0,
            gy + offset(dir, n as int).1,
            dir.spec_inverse(),
            n,
        ) == s,
    decreases n,
{
    if n > 0 {
        let m = (n - 1) as nat;
        lemma_offset_between(w, h, gx, gy, dir, n as int, m as int);
        lemma_offset_add(dir, m as int, 1);
        lemma_offset_add(dir, 1, 0);
        let (ax, ay) = (gx + offset(dir, m as int).0, gy + offset(dir, m as int).1);
        let (bx, by) = (gx + offset(dir, n as int).0, gy + offset(dir, n as int).1);
        let x = moved(s, w, gx, gy, dir, m);
        lemma_moved_len(s, w, h, gx, gy, dir, m);
        lemma_moved_last(s, w, gx, gy, dir, m);
        lemma_index_bound(ax, ay, w, h);
        lemma_index_bound(bx, by, w, h);
        lemma_moved_back(s, w, h, gx, gy, dir, m);
        let (pa, pb) = (ax + w * ay, bx + w * by);
        let t = swap_seq(x, pa, pb);
        assert(m + 1 == n);
        assert(moved(s, w, gx, gy, dir, n) == t);
        let (ix, iy) = offset(dir.spec_inverse(), 1);
        assert(bx + ix == ax && by + iy == ay);
        assert(swap_seq(t, pb, pa) =~= x);
        assert(moved(t, w, bx, by, dir.spec_inverse(), n) == moved(
            swap_seq(t, pb, pa),
            w,
            ax,
            ay,
            dir.spec_inverse(),
            m,
        ));
    }
}

/// A move is undone by the move of the same amount in the opposite direction: that move fits
/// where the first one left the gap, and brings back the pieces (see [`Puzzle::apply_move`]).
pub proof fn lemma_apply_move_undone(p: Puzzle, mv: Move)
    requires
        p.wf(),
        p.spec_can_apply_move(mv),
    ensures
        ({
            let (dx, dy) = offset(mv.direction, mv.amount as int);
            let back = Move { direction: mv.direction.spec_inverse(), amount: mv.amount };
            &&& move_fits(p.w(), p.h(), p.gx() + dx, p.gy() + dy, back)
            &&& moved(
                moved(p@, p.w(), p.gx(), p.gy(), mv.direction, mv.amount as nat),
                p.w(),
                p.gx() + dx,
                p.gy() + dy,
                back.direction,
                back.amount as nat,
            ) == p@
        }),
{
    p.lemma_wf();
    lemma_offset_add(mv.direction, mv.amount as int, 0);
    lemma_moved_back(p@, p.w(), p.h(), p.gx(), p.gy(), mv.direction, mv.amount as nat);
}

} // verus!
