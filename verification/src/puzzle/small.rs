//! A fixed-size puzzle with at most 16 positions, its pieces packed 4 bits each in a `u64`.

use vstd::prelude::*;

use crate::arith::{lemma_index_bound, lemma_index_split, lemma_split_bound};
use crate::perm::{is_permutation, lemma_swap_permutation, swap_seq};
use crate::puzzle::puzzle::{first_bad_piece, solved_pieces, PuzzleError};
use crate::puzzle::puzzle_move::{Direction, Move};
use crate::puzzle::size::{group_size, Size};
use crate::puzzle::sliding_puzzle::{
    after_alg, alg_fits, lemma_offset_add, lemma_offset_between, move_fits, moved, offset,
    position_move,
};

verus! {

broadcast use group_size;

/// The 4-bit entry `i` of `x`.
pub open spec fn nibble(x: u64, i: u64) -> u64 {
    (x >> ((4 * i) as u64)) & 0xf
}

/// Exchanging two entries by the mask of their difference.
proof fn lemma_nibble_swap(x: u64, a: u64, b: u64, c: u64)
    by (bit_vector)
    requires
        a < 16,
        b < 16,
        c < 16,
        a != b,
    ensures
        ({
            let p = ((x >> ((4 * a) as u64)) & 0xf) ^ ((x >> ((4 * b) as u64)) & 0xf);
            let y = x ^ ((p << ((4 * a) as u64)) | (p << ((4 * b) as u64)));
            &&& (y >> ((4 * a) as u64)) & 0xf == (x >> ((4 * b) as u64)) & 0xf
            &&& (y >> ((4 * b) as u64)) & 0xf == (x >> ((4 * a) as u64)) & 0xf
            &&& (c != a && c != b) ==> (y >> ((4 * c) as u64)) & 0xf == (x >> ((4 * c) as u64)) & 0xf
        }),
{
}

/// Setting an entry that is 0.
proof fn lemma_nibble_set(x: u64, a: u64, v: u64, c: u64)
    by (bit_vector)
    requires
        a < 16,
        c < 16,
        v < 16,
        (x >> ((4 * a) as u64)) & 0xf == 0,
    ensures
        ((x | (v << ((4 * a) as u64))) >> ((4 * c) as u64)) & 0xf == if c == a {
            v
        } else {
            (x >> ((4 * c) as u64)) & 0xf
        },
{
}

/// A `W x H` puzzle, with `W * H` at most 16: position `i` holds the piece in bits `4 * i` to
/// `4 * i + 3` of `pieces`, and `gap` is the position of the gap.
#[derive(Clone, Copy, Debug)]
pub struct Puzzle<const W: usize, const H: usize> {
    pieces: u64,
    gap: u8,
}

/// The entries `0..n` of `x`.
pub open spec fn nibbles(x: u64, n: nat) -> Seq<u64> {
    Seq::new(n, |i: int| nibble(x, i as u64))
}

impl<const W: usize, const H: usize> View for Puzzle<W, H> {
    type V = Seq<u64>;

    /// The pieces, position by position.
    closed spec fn view(&self) -> Seq<u64> {
        nibbles(self.pieces, Self::n())
    }
}

impl<const W: usize, const H: usize> Puzzle<W, H> {
    /// The number of positions.
    pub open spec fn n() -> nat {
        (W * H) as nat
    }

    /// The sizes that this puzzle can have: at least one row and one column, and at most 16
    /// positions.
    pub open spec fn valid_size() -> bool {
        1 <= W && 1 <= H && W * H <= 16
    }

    /// The position of the gap, in specifications.
    pub closed spec fn spec_gap(&self) -> int {
        self.gap as int
    }

    /// The packed pieces, in specifications.
    pub closed spec fn spec_pieces(&self) -> u64 {
        self.pieces
    }

    /// The column of the gap.
    pub open spec fn gx(&self) -> int {
        self.spec_gap() % (W as int)
    }

    /// The row of the gap.
    pub open spec fn gy(&self) -> int {
        self.spec_gap() / (W as int)
    }

    /// The pieces form a permutation, with the gap where `gap` says.
    #[verifier::type_invariant]
    spec fn inv(self) -> bool {
        &&& Self::valid_size()
        &&& is_permutation(self@)
        &&& 0 <= self.gap < Self::n()
        &&& self@[self.gap as int] == 0
    }

    /// The same state as a general [`Puzzle`](crate::puzzle::puzzle::Puzzle), which the
    /// solvability checks, the scramblers and the drawing take.
    pub fn to_puzzle(&self) -> (r: crate::puzzle::puzzle::Puzzle)
        ensures
            r.wf(),
            r@ == self@,
            r.spec_size() == Size::spec_new(W as u64, H as u64),
    {
        self.facts();
        let arr = self.piece_array();
        let mut v: Vec<u64> = Vec::new();
        let mut i: usize = 0;
        while i < arr.len()
            invariant
                i <= arr@.len(),
                v@.len() == i,
                forall|j: int| 0 <= j < i ==> #[trigger] v@[j] == arr@[j] as u64,
            decreases arr@.len() - i,
        {
            v.push(arr[i] as u64);
            i = i + 1;
        }
        assert(v@ =~= self@);
        let size = self.size();
        assert(size.spec_area() == Self::n());
        proof {
            let want = Size::spec_new(W as u64, H as u64);
            assert(want.spec_width() == size.spec_width() && want.spec_height() == size.spec_height());
            assert(size == want);
        }
        proof {
            crate::puzzle::puzzle::lemma_distinct_no_bad_piece(v@, Self::n(), 0);
        }
        match crate::puzzle::puzzle::Puzzle::with_pieces(v, size) {
            Ok(p) => p,
            Err(_) => {
                proof {
                    assert(false);
                }
                crate::puzzle::puzzle::Puzzle::new(size)
            },
        }
    }

    /// Facts that hold of every puzzle.
    fn facts(&self)
        ensures
            Self::valid_size(),
            is_permutation(self@),
            self@.len() == Self::n(),
            0 <= self.spec_gap() < Self::n(),
            self@[self.spec_gap()] == 0,
            0 <= self.gx() < W,
            0 <= self.gy() < H,
            self.spec_gap() == self.gx() + W * self.gy(),
    {
        proof {
            use_type_invariant(self);
            lemma_split_bound(self.spec_gap(), W as int, H as int);
        }
    }

    /// Packs the first `n` values of `values`, each below 16.
    fn pack(values: &Vec<u64>, n: usize) -> (r: u64)
        requires
            n <= 16,
            n <= values@.len(),
            forall|i: int| 0 <= i < n ==> #[trigger] values@[i] < 16,
        ensures
            nibbles(r, n as nat) == values@.take(n as int),
            forall|c: u64| n <= c < 16 ==> #[trigger] nibble(r, c) == 0,
    {
        let mut x: u64 = 0;
        let mut i: usize = 0;
        assert forall|c: u64| c < 16 implies #[trigger] nibble(0, c) == 0 by {
            assert(((0u64 >> ((4 * c) as u64)) & 0xf) == 0) by (bit_vector);
        }
        while i < n
            invariant
                i <= n <= 16,
                n <= values@.len(),
                forall|j: int| 0 <= j < n ==> #[trigger] values@[j] < 16,
                forall|j: int| 0 <= j < i ==> #[trigger] nibble(x, j as u64) == values@[j],
                forall|c: u64| i <= c < 16 ==> #[trigger] nibble(x, c) == 0,
            decreases n - i,
        {
            let v = values[i];
            let old_x = x;
            proof {
                assert(nibble(old_x, i as u64) == 0);
                assert forall|c: u64| c < 16 implies #[trigger] nibble(old_x | (v << ((4 * i) as u64)), c)
                    == if c == i as u64 {
                    v
                } else {
                    nibble(old_x, c)
                } by {
                    lemma_nibble_set(old_x, i as u64, v, c);
                }
            }
            x = x | (v << (4 * i as u64));
            proof {
                assert forall|j: int| 0 <= j < i + 1 implies #[trigger] nibble(x, j as u64)
                    == values@[j] by {
                    assert(nibble(x, j as u64) == if j as u64 == i as u64 {
                        v
                    } else {
                        nibble(old_x, j as u64)
                    });
                }
            }
            i = i + 1;
        }
        assert(nibbles(x, n as nat) =~= values@.take(n as int));
        x
    }

    /// Creates a solved puzzle: piece `i + 1` at position `i`, and the gap last.
    pub fn new() -> (r: Self)
        requires
            Self::valid_size(),
        ensures
            r@ == solved_pieces(Self::n()),
            r.spec_gap() == Self::n() - 1,
    {
        let n = W * H;
        assert(n >= 1) by (nonlinear_arith)
            requires
                n == W * H,
                W >= 1,
                H >= 1,
        ;
        let mut values: Vec<u64> = Vec::new();
        let mut i: usize = 0;
        while i < n
            invariant
                n == Self::n(),
                n <= 16,
                i <= n,
                values@ == solved_pieces(n as nat).take(i as int),
            decreases n - i,
        {
            let v: u64 = if i + 1 == n {
                0
            } else {
                (i + 1) as u64
            };
            values.push(v);
            i = i + 1;
            assert(values@ =~= solved_pieces(n as nat).take(i as int));
        }
        let pieces = Self::pack(&values, n);
        proof {
            assert(values@.take(n as int) =~= solved_pieces(n as nat));
            assert forall|a: int, b: int|
                0 <= a < n && 0 <= b < n && a != b implies #[trigger] solved_pieces(n as nat)[a]
                != #[trigger] solved_pieces(n as nat)[b] by {}
        }
        Self { pieces, gap: (n - 1) as u8 }
    }

    /// Creates a puzzle from its pieces, position by position: an error for the first piece that
    /// is out of range or seen before (see [`first_bad_piece`]).
    pub fn try_from_pieces(pieces: &[u8]) -> (r: Result<Self, PuzzleError>)
        requires
            Self::valid_size(),
            pieces@.len() == Self::n(),
        ensures
            ({
                let s = Seq::new(pieces@.len(), |i: int| pieces@[i] as u64);
                &&& first_bad_piece(s, Self::n(), 0) matches Some(e) ==> r == Err::<Self, PuzzleError>(e)
                &&& first_bad_piece(s, Self::n(), 0) is None ==> r is Ok && r->Ok_0@ == s
            }),
    {
        let n = W * H;
        let mut values: Vec<u64> = Vec::new();
        let mut i: usize = 0;
        while i < n
            invariant
                n == Self::n(),
                n == pieces@.len(),
                i <= n,
                values@ == Seq::new(i as nat, |k: int| pieces@[k] as u64),
            decreases n - i,
        {
            values.push(pieces[i] as u64);
            i = i + 1;
            assert(values@ =~= Seq::new(i as nat, |k: int| pieces@[k] as u64));
        }
        let size = match Size::new(W as u64, H as u64) {
            Ok(s) => s,
            Err(_) => {
                return Err(PuzzleError::Empty);
            },
        };
        let ghost s = values@;
        match crate::puzzle::puzzle::Puzzle::with_pieces(values.clone(), size) {
            Err(e) => Err(e),
            Ok(p) => {
                let gap = p.gap_position();
                proof {
                    p.lemma_wf();
                }
                let mut checked: Vec<u64> = Vec::new();
                let mut j: u64 = 0;
                while j < n as u64
                    invariant
                        p.wf(),
                        p@.len() == n,
                        n <= 16,
                        j <= n,
                        checked@ == p@.take(j as int),
                    decreases n - j,
                {
                    checked.push(p.piece_at(j));
                    j = j + 1;
                    assert(checked@ =~= p@.take(j as int));
                }
                let packed = Self::pack(&checked, n);
                proof {
                    assert(p@.take(n as int) =~= p@);
                }
                Ok(Self { pieces: packed, gap: gap as u8 })
            },
        }
    }

    /// The packed pieces: entry `i` (bits `4 * i` to `4 * i + 3`) holds the piece at position
    /// `i`.
    pub fn pieces(&self) -> (r: u64)
        ensures
            r == self.spec_pieces(),
            nibbles(r, Self::n()) == self@,
    {
        self.pieces
    }

    /// The position of the gap.
    pub fn gap(&self) -> (r: u8)
        ensures
            r == self.spec_gap(),
    {
        self.gap
    }

    /// The pieces, position by position.
    pub fn piece_array(&self) -> (r: Vec<u8>)
        ensures
            r@.len() == self@.len(),
            forall|i: int| 0 <= i < r@.len() ==> #[trigger] r@[i] as u64 == self@[i],
    {
        self.facts();
        let n = W * H;
        let mut out: Vec<u8> = Vec::new();
        let mut i: usize = 0;
        while i < n
            invariant
                n == Self::n(),
                n <= 16,
                i <= n,
                self@.len() == n,
                is_permutation(self@),
                out@.len() == i,
                forall|k: int| 0 <= k < i ==> #[trigger] out@[k] as u64 == self@[k],
            decreases n - i,
        {
            let v = self.piece_at(i as u64);
            out.push(v);
            i = i + 1;
        }
        out
    }

    /// The size of the puzzle.
    pub fn size(&self) -> (r: Size)
        ensures
            r.spec_width() == W,
            r.spec_height() == H,
    {
        self.facts();
        match Size::new(W as u64, H as u64) {
            Ok(s) => {
                assert(Size::spec_new(W as u64, H as u64).spec_width() == W);
                s
            },
            Err(_) => {
                assert(false);
                Size::default()
            },
        }
    }

    /// The number of positions.
    pub fn area(&self) -> (r: u64)
        ensures
            r == Self::n(),
    {
        self.facts();
        (W * H) as u64
    }

    /// The piece at position `idx`.
    pub fn piece_at(&self, idx: u64) -> (r: u8)
        requires
            idx < self@.len(),
        ensures
            r as u64 == self@[idx as int],
    {
        self.facts();
        proof {
            assert(self@[idx as int] < 16);
            let x = self.pieces;
            assert(((x >> ((4 * idx) as u64)) & 0xf) < 16) by (bit_vector);
        }
        ((self.pieces >> (idx * 4)) & 0xF) as u8
    }

    /// Exchanges the pieces at positions `idx1` and `idx2`, keeping track of the gap.
    pub fn swap_pieces(&mut self, idx1: u64, idx2: u64)
        requires
            idx1 < old(self)@.len(),
            idx2 < old(self)@.len(),
        ensures
            final(self)@ == swap_seq(old(self)@, idx1 as int, idx2 as int),
            final(self)@[final(self).spec_gap()] == 0,
    {
        self.facts();
        let piece1 = self.piece_at(idx1);
        let piece2 = self.piece_at(idx2);
        let ghost before = self@;
        let x = self.pieces;
        let p = (piece1 ^ piece2) as u64;
        let mask = (p << (idx1 * 4)) | (p << (idx2 * 4));
        let y = x ^ mask;
        proof {
            if idx1 == idx2 {
                assert(p == 0) by (bit_vector)
                    requires
                        p == (piece1 ^ piece2) as u64,
                        piece1 == piece2,
                ;
                assert(y == x) by (bit_vector)
                    requires
                        y == x ^ ((p << (idx1 * 4)) | (p << (idx2 * 4))),
                        p == 0,
                ;
                assert(swap_seq(before, idx1 as int, idx2 as int) =~= before);
            } else {
                assert(p == ((x >> ((4 * idx1) as u64)) & 0xf) ^ ((x >> ((4 * idx2) as u64)) & 0xf))
                    by (bit_vector)
                    requires
                        p == (piece1 ^ piece2) as u64,
                        piece1 as u64 == (x >> ((4 * idx1) as u64)) & 0xf,
                        piece2 as u64 == (x >> ((4 * idx2) as u64)) & 0xf,
                ;
                assert(mask == (p << ((4 * idx1) as u64)) | (p << ((4 * idx2) as u64)));
                assert forall|c: int| 0 <= c < before.len() implies #[trigger] nibble(y, c as u64)
                    == swap_seq(before, idx1 as int, idx2 as int)[c] by {
                    lemma_nibble_swap(x, idx1, idx2, c as u64);
                }
                assert(nibbles(y, Self::n()) =~= swap_seq(before, idx1 as int, idx2 as int));
            }
            lemma_swap_permutation(before, idx1 as int, idx2 as int);
            assert(nibbles(y, Self::n()) == swap_seq(before, idx1 as int, idx2 as int));
        }
        let gap = if piece1 == 0 {
            idx2 as u8
        } else if piece2 == 0 {
            idx1 as u8
        } else {
            self.gap
        };
        proof {
            let t = swap_seq(before, idx1 as int, idx2 as int);
            if piece1 != 0 && piece2 != 0 {
                assert(self.spec_gap() != idx1 && self.spec_gap() != idx2);
            }
            assert(t[gap as int] == 0);
        }
        *self = Self { pieces: y, gap };
    }

    /// The position of the gap.
    pub fn gap_position(&self) -> (r: u64)
        ensures
            r == self.spec_gap(),
            self@[r as int] == 0,
    {
        self.facts();
        self.gap as u64
    }

    /// The position of the gap; always `Some`.
    pub fn try_gap_position(&self) -> (r: Option<u64>)
        ensures
            r == Some(self.spec_gap() as u64),
    {
        Some(self.gap_position())
    }

    /// The `(x, y)` position of the gap.
    pub fn gap_position_xy(&self) -> (r: (u64, u64))
        ensures
            r == (self.gx() as u64, self.gy() as u64),
    {
        self.facts();
        ((self.gap as usize % W) as u64, (self.gap as usize / W) as u64)
    }

    /// The `(x, y)` position of the gap; always `Some`.
    pub fn try_gap_position_xy(&self) -> (r: Option<(u64, u64)>)
        ensures
            r == Some((self.gx() as u64, self.gy() as u64)),
    {
        Some(self.gap_position_xy())
    }

    /// Resets the puzzle to the solved state.
    pub fn reset(&mut self)
        ensures
            final(self)@ == solved_pieces(Self::n()),
            final(self).spec_gap() == Self::n() - 1,
    {
        self.facts();
        *self = Self::new();
    }

    /// Exchanges the gap with the piece at position `idx`.
    pub fn swap_piece_with_gap(&mut self, idx: u64)
        requires
            idx < old(self)@.len(),
        ensures
            final(self)@ == swap_seq(old(self)@, old(self).spec_gap(), idx as int),
            final(self).spec_gap() == idx,
    {
        self.facts();
        let gap = self.gap as u64;
        self.swap_pieces(gap, idx);
        proof {
            use_type_invariant(&*self);
            let t = swap_seq(old(self)@, old(self).spec_gap(), idx as int);
            assert(t[idx as int] == 0);
            if self.spec_gap() != idx {
                assert(t[self.spec_gap()] != t[idx as int]);
            }
        }
    }

    /// Exchanges the gap with the piece at position `idx` if it is a position of the puzzle;
    /// returns whether it is.
    pub fn try_swap_piece_with_gap(&mut self, idx: u64) -> (r: bool)
        ensures
            r == (idx < old(self)@.len()),
            r ==> final(self)@ == swap_seq(old(self)@, old(self).spec_gap(), idx as int),
            !r ==> *final(self) == *old(self),
    {
        if idx < self.area() {
            self.swap_piece_with_gap(idx);
            true
        } else {
            false
        }
    }

    /// Whether a piece can move in direction `dir`: the gap has a neighbour on the other side.
    pub fn can_move_dir(&self, dir: Direction) -> (r: bool)
        ensures
            r == move_fits(W as int, H as int, self.gx(), self.gy(), Move { direction: dir, amount: 1 }),
    {
        self.facts();
        let (gx, gy) = self.gap_position_xy();
        match dir {
            Direction::Up => gy + 1 < H as u64,
            Direction::Left => gx + 1 < W as u64,
            Direction::Down => gy > 0,
            Direction::Right => gx > 0,
        }
    }

    /// Moves a piece in direction `dir`, if there is one to move: see
    /// [`Puzzle::try_move_dir`].
    pub fn move_dir(&mut self, dir: Direction)
        ensures
            final(self)@ == if move_fits(
                W as int,
                H as int,
                old(self).gx(),
                old(self).gy(),
                Move { direction: dir, amount: 1 },
            ) {
                moved(old(self)@, W as int, old(self).gx(), old(self).gy(), dir, 1)
            } else {
                old(self)@
            },
    {
        self.try_move_dir(dir);
    }

    /// Moves a piece in direction `dir`: the piece next to the gap on the other side takes the
    /// gap's place. Returns whether there was such a piece; if not, nothing changes.
    pub fn try_move_dir(&mut self, dir: Direction) -> (r: bool)
        ensures
            r == move_fits(
                W as int,
                H as int,
                old(self).gx(),
                old(self).gy(),
                Move { direction: dir, amount: 1 },
            ),
            final(self)@ == if r {
                moved(old(self)@, W as int, old(self).gx(), old(self).gy(), dir, 1)
            } else {
                old(self)@
            },
            r ==> final(self).gx() == old(self).gx() + offset(dir, 1).0 && final(self).gy()
                == old(self).gy() + offset(dir, 1).1,
            !r ==> *final(self) == *old(self),
    {
        self.facts();
        if !self.can_move_dir(dir) {
            return false;
        }
        let ghost (gx, gy) = (self.gx(), self.gy());
        let ghost (nx, ny) = (gx + offset(dir, 1).0, gy + offset(dir, 1).1);
        let gap = self.gap as u64;
        let w = W as u64;
        proof {
            lemma_index_bound(nx, ny, W as int, H as int);
            lemma_index_split(nx, ny, W as int);
            assert(nx + W * ny == gap + offset(dir, 1).0 + W * offset(dir, 1).1) by (nonlinear_arith)
                requires
                    gap == gx + W * gy,
                    nx == gx + offset(dir, 1).0,
                    ny == gy + offset(dir, 1).1,
            ;
        }
        let other = match dir {
            Direction::Up => gap + w,
            Direction::Left => gap + 1,
            Direction::Down => gap - w,
            Direction::Right => gap - 1,
        };
        assert(other == nx + W * ny);
        self.swap_piece_with_gap(other);
        proof {
            let n1: nat = 1;
            assert(moved(old(self)@, W as int, gx, gy, dir, n1) == moved(
                swap_seq(old(self)@, gx + W * gy, nx + W * ny),
                W as int,
                nx,
                ny,
                dir,
                0,
            ));
        }
        true
    }
    /// Whether the move `mv` fits: see [`crate::puzzle::puzzle::Puzzle::can_apply_move`].
    pub fn can_apply_move(&self, mv: Move) -> (r: bool)
        ensures
            r == move_fits(W as int, H as int, self.gx(), self.gy(), mv),
    {
        self.facts();
        let (gx, gy) = self.gap_position_xy();
        let (w, h) = (W as u64, H as u64);
        match mv.direction {
            Direction::Up => mv.amount < h - gy,
            Direction::Left => mv.amount < w - gx,
            Direction::Down => mv.amount <= gy,
            Direction::Right => mv.amount <= gx,
        }
    }

    /// Applies the move `mv`: `mv.amount` single-tile moves in direction `mv.direction`.
    pub fn apply_move(&mut self, mv: Move)
        requires
            move_fits(W as int, H as int, old(self).gx(), old(self).gy(), mv),
        ensures
            final(self)@ == moved(
                old(self)@,
                W as int,
                old(self).gx(),
                old(self).gy(),
                mv.direction,
                mv.amount as nat,
            ),
            final(self).gx() == old(self).gx() + offset(mv.direction, mv.amount as int).0,
            final(self).gy() == old(self).gy() + offset(mv.direction, mv.amount as int).1,
    {
        self.facts();
        let ghost (w, gx, gy, s) = (W as int, self.gx(), self.gy(), self@);
        let mut k: u64 = 0;
        while k < mv.amount
            invariant
                k <= mv.amount,
                w == W,
                0 <= gx < W,
                0 <= gy < H,
                move_fits(W as int, H as int, gx, gy, mv),
                self.gx() == gx + offset(mv.direction, k as int).0,
                self.gy() == gy + offset(mv.direction, k as int).1,
                moved(s, w, gx, gy, mv.direction, mv.amount as nat) == moved(
                    self@,
                    w,
                    self.gx(),
                    self.gy(),
                    mv.direction,
                    (mv.amount - k) as nat,
                ),
            decreases mv.amount - k,
        {
            let ghost (s0, x0, y0) = (self@, self.gx(), self.gy());
            proof {
                lemma_offset_add(mv.direction, k as int, 1);
                lemma_offset_between(W as int, H as int, gx, gy, mv.direction, mv.amount as int, k + 1);
            }
            let moved_one = self.try_move_dir(mv.direction);
            assert(moved_one);
            proof {
                let n = (mv.amount - k) as nat;
                let (dx, dy) = offset(mv.direction, 1);
                assert(moved(s0, w, x0, y0, mv.direction, n) == moved(
                    swap_seq(s0, x0 + w * y0, (x0 + dx) + w * (y0 + dy)),
                    w,
                    x0 + dx,
                    y0 + dy,
                    mv.direction,
                    (n - 1) as nat,
                ));
                assert(moved(s0, w, x0, y0, mv.direction, 1) == moved(
                    swap_seq(s0, x0 + w * y0, (x0 + dx) + w * (y0 + dy)),
                    w,
                    x0 + dx,
                    y0 + dy,
                    mv.direction,
                    0,
                ));
            }
            k = k + 1;
        }
    }

    /// Applies the move `mv` if it fits; returns whether it did.
    pub fn try_apply_move(&mut self, mv: Move) -> (r: bool)
        ensures
            r == move_fits(W as int, H as int, old(self).gx(), old(self).gy(), mv),
            final(self)@ == if r {
                moved(old(self)@, W as int, old(self).gx(), old(self).gy(), mv.direction, mv.amount as nat)
            } else {
                old(self)@
            },
            r ==> final(self).gx() == old(self).gx() + offset(mv.direction, mv.amount as int).0
                && final(self).gy() == old(self).gy() + offset(mv.direction, mv.amount as int).1,
    {
        if self.can_apply_move(mv) {
            self.apply_move(mv);
            true
        } else {
            false
        }
    }

    /// Whether the moves `moves` fit, one after the other.
    pub fn can_apply_alg(&self, moves: &[Move]) -> (r: bool)
        ensures
            r == alg_fits(W as int, H as int, self.gx(), self.gy(), moves@),
    {
        let mut copy = *self;
        let mut i: usize = 0;
        assert(moves@.skip(0) =~= moves@);
        while i < moves.len()
            invariant
                i <= moves@.len(),
                alg_fits(W as int, H as int, self.gx(), self.gy(), moves@) == alg_fits(
                    W as int,
                    H as int,
                    copy.gx(),
                    copy.gy(),
                    moves@.skip(i as int),
                ),
            decreases moves@.len() - i,
        {
            let m = moves[i];
            assert(moves@.skip(i as int)[0] == m);
            assert(moves@.skip(i as int).drop_first() =~= moves@.skip(i + 1));
            if !copy.try_apply_move(m) {
                return false;
            }
            i = i + 1;
        }
        true
    }

    /// Applies the moves `moves`, one after the other.
    pub fn apply_alg(&mut self, moves: &[Move])
        requires
            alg_fits(W as int, H as int, old(self).gx(), old(self).gy(), moves@),
        ensures
            final(self)@ == after_alg(old(self)@, W as int, old(self).gx(), old(self).gy(), moves@),
    {
        let ghost (s, gx, gy) = (self@, self.gx(), self.gy());
        let mut i: usize = 0;
        assert(moves@.skip(0) =~= moves@);
        while i < moves.len()
            invariant
                i <= moves@.len(),
                alg_fits(W as int, H as int, self.gx(), self.gy(), moves@.skip(i as int)),
                after_alg(s, W as int, gx, gy, moves@) == after_alg(
                    self@,
                    W as int,
                    self.gx(),
                    self.gy(),
                    moves@.skip(i as int),
                ),
            decreases moves@.len() - i,
        {
            let m = moves[i];
            assert(moves@.skip(i as int)[0] == m);
            assert(moves@.skip(i as int).drop_first() =~= moves@.skip(i + 1));
            self.apply_move(m);
            i = i + 1;
        }
    }

    /// Applies the moves `moves` if they fit, one after the other; returns whether they did.
    pub fn try_apply_alg(&mut self, moves: &[Move]) -> (r: bool)
        ensures
            r == alg_fits(W as int, H as int, old(self).gx(), old(self).gy(), moves@),
            final(self)@ == if r {
                after_alg(old(self)@, W as int, old(self).gx(), old(self).gy(), moves@)
            } else {
                old(self)@
            },
    {
        if self.can_apply_alg(moves) {
            self.apply_alg(moves);
            true
        } else {
            false
        }
    }

    /// Moves the piece in position `(x, y)` to the gap, along with the pieces between them,
    /// where it shares a row or a column with the gap (see
    /// [`crate::puzzle::puzzle::Puzzle::try_move_position_xy`]). Returns whether it moved.
    pub fn try_move_position_xy(&mut self, pos: (u64, u64)) -> (r: bool)
        ensures
            r == (pos.0 < W && pos.1 < H && (pos.0 == old(self).gx() || pos.1 == old(self).gy())),
            final(self)@ == if r {
                ({
                    let m = position_move(
                        old(self).gx(),
                        old(self).gy(),
                        pos.0 as int,
                        pos.1 as int,
                    );
                    moved(old(self)@, W as int, old(self).gx(), old(self).gy(), m.direction, m.amount as nat)
                })
            } else {
                old(self)@
            },
    {
        self.facts();
        let (x, y) = pos;
        if !(x < W as u64 && y < H as u64) {
            return false;
        }
        let (gx, gy) = self.gap_position_xy();
        let mv = if x == gx && y < gy {
            Move::new(Direction::Down, gy - y)
        } else if x == gx && y > gy {
            Move::new(Direction::Up, y - gy)
        } else if y == gy && x < gx {
            Move::new(Direction::Right, gx - x)
        } else if y == gy {
            Move::new(Direction::Left, x - gx)
        } else {
            return false;
        };
        assert(mv == position_move(gx as int, gy as int, x as int, y as int));
        self.apply_move(mv);
        true
    }

    /// Sets the state to that of `other`.
    pub fn set_state(&mut self, other: &Self)
        ensures
            final(self)@ == other@,
            final(self).spec_gap() == other.spec_gap(),
    {
        *self = *other;
    }
}

/// A puzzle of a fixed size with at most 16 positions, packed into a `u64`.
pub trait SmallPuzzle: Sized {
    /// The number of positions.
    spec fn spec_positions() -> nat;

    /// Whether the fixed size has at least one row and one column and at most 16 positions.
    spec fn spec_size_ok() -> bool;

    /// The pieces, position by position.
    spec fn spec_pieces_view(&self) -> Seq<u64>;

    /// Creates a solved puzzle.
    fn new() -> (r: Self)
        requires
            Self::spec_size_ok(),
        ensures
            r.spec_pieces_view() == solved_pieces(Self::spec_positions()),
    ;

    /// The packed pieces.
    fn pieces(&self) -> (r: u64)
        ensures
            nibbles(r, Self::spec_positions()) == self.spec_pieces_view(),
    ;

    /// The position of the gap.
    fn gap(&self) -> (r: u8)
        ensures
            r < self.spec_pieces_view().len(),
            self.spec_pieces_view()[r as int] == 0,
    ;

    /// The pieces, position by position.
    fn piece_array(&self) -> (r: Vec<u8>)
        ensures
            r@.len() == self.spec_pieces_view().len(),
            forall|i: int| 0 <= i < r@.len() ==> #[trigger] r@[i] as u64 == self.spec_pieces_view()[i],
    ;
}

impl<const W: usize, const H: usize> SmallPuzzle for Puzzle<W, H> {
    open spec fn spec_positions() -> nat {
        Self::n()
    }

    open spec fn spec_size_ok() -> bool {
        Self::valid_size()
    }

    open spec fn spec_pieces_view(&self) -> Seq<u64> {
        self@
    }

    fn new() -> (r: Self) {
        Puzzle::<W, H>::new()
    }

    fn pieces(&self) -> (r: u64) {
        Puzzle::<W, H>::pieces(self)
    }

    fn gap(&self) -> (r: u8) {
        self.facts();
        Puzzle::<W, H>::gap(self)
    }

    fn piece_array(&self) -> (r: Vec<u8>) {
        Puzzle::<W, H>::piece_array(self)
    }
}

} // verus!
