//! Defines the [`Scrambler`] trait and several implementations.
//!
//! Scramblers draw their random numbers from a [`StdRng`]. Where a scrambler's result depends on
//! the random numbers, its contract states what holds of every outcome.

use rand::rngs::StdRng;

use vstd::prelude::*;

use crate::perm::{
    is_permutation, lemma_identity_even, lemma_swap_parity, lemma_swap_permutation, odd_perm,
    swap_seq,
};
use crate::puzzle::label::label::RowGrids;
use crate::puzzle::puzzle::{solved_pieces, Puzzle};
use crate::puzzle::puzzle_move::{Direction, Move};
use crate::puzzle::size::{group_size, Size};
use crate::arith::{lemma_index_bound, lemma_index_split};
use crate::puzzle::sliding_puzzle::{
    label_solved_pieces, lemma_offset_add, move_fits, moved, offset,
};
use crate::puzzle::solvable::{
    corner_permutation, gap_last, gap_to_corner, is_line, lemma_gap_last_permutation,
    lemma_gap_last_swap, lemma_moved_gap, lemma_moved_line, lemma_move_keeps_solvability,
    lemma_moved_parity, lemma_solvable_parity, line_position, line_solvable, nonzero_pieces,
    Solvable,
};

verus! {

broadcast use group_size;

#[verifier::external_type_specification]
#[verifier::external_body]
pub struct ExStdRng(StdRng);

/// Calls `Rng::random_range` with the range `lo..hi`, which draws a number of the range; the
/// range must not be empty, as the call panics on an empty range. Which number is drawn depends
/// on the state of `rng`, and is left unsaid.
#[verifier::external_body]
fn random_below(rng: &mut StdRng, lo: u64, hi: u64) -> (r: u64)
    requires
        lo < hi,
    ensures
        lo <= r < hi,
{
    rand::Rng::random_range(rng, lo..hi)
}

/// Calls `rand::seq::index::sample`, which draws `amount` distinct indices below `length`, in a
/// random order; the call panics when `amount` exceeds `length`. The indices drawn depend on the
/// state of `rng`, and are left unsaid.
#[verifier::external_body]
fn sample_indices(rng: &mut StdRng, length: usize, amount: usize) -> (r: Vec<usize>)
    requires
        amount <= length,
    ensures
        r@.len() == amount,
        forall|i: int| 0 <= i < r@.len() ==> #[trigger] r@[i] < length,
        forall|i: int, j: int| 0 <= i < j < r@.len() ==> #[trigger] r@[i] != #[trigger] r@[j],
{
    rand::seq::index::sample(rng, length, amount).into_vec()
}

/// Trait defining a scrambling algorithm.
pub trait Scrambler {
    /// The sizes on which the scrambler can be used.
    spec fn spec_valid_size(&self, size: Size) -> bool;

    /// The scrambler runs on `puzzle` (of a valid size) without failing.
    spec fn spec_can_scramble(&self, puzzle: &Puzzle) -> bool;

    /// `after` is a possible outcome of scrambling `before`.
    spec fn spec_scrambled(&self, before: &Puzzle, after: &Puzzle) -> bool;

    /// Checks if this `Scrambler` can be used with a given puzzle size.
    fn is_valid_size(&self, size: Size) -> (r: bool)
        ensures
            r == self.spec_valid_size(size),
    ;

    /// Scrambles the puzzle using a given random number generator.
    fn scramble_with_rng(&self, puzzle: &mut Puzzle, rng: &mut StdRng)
        requires
            old(puzzle).wf(),
            self.spec_valid_size(old(puzzle).spec_size()),
            self.spec_can_scramble(old(puzzle)),
        ensures
            final(puzzle).wf(),
            final(puzzle).spec_size() == old(puzzle).spec_size(),
            self.spec_scrambled(old(puzzle), final(puzzle)),
    ;
}

/// Methods that every [`Scrambler`] has.
pub trait ScramblerExt: Scrambler {
    /// Scrambles the puzzle using a given random number generator. If the puzzle is not of a
    /// valid size for the scrambler, the function returns false and the puzzle is not modified.
    fn try_scramble_with_rng(&self, puzzle: &mut Puzzle, rng: &mut StdRng) -> (r: bool)
        requires
            old(puzzle).wf(),
            self.spec_valid_size(old(puzzle).spec_size()) ==> self.spec_can_scramble(old(puzzle)),
        ensures
            final(puzzle).wf(),
            final(puzzle).spec_size() == old(puzzle).spec_size(),
            r == self.spec_valid_size(old(puzzle).spec_size()),
            r ==> self.spec_scrambled(old(puzzle), final(puzzle)),
            !r ==> *final(puzzle) == *old(puzzle),
    ;
}

impl<S: Scrambler> ScramblerExt for S {
    fn try_scramble_with_rng(&self, puzzle: &mut Puzzle, rng: &mut StdRng) -> (r: bool) {
        if self.is_valid_size(puzzle.size()) {
            self.scramble_with_rng(puzzle, rng);
            true
        } else {
            false
        }
    }
}

/// The puzzle has its gap in the bottom right corner and its other pieces form an even
/// permutation, so that moves can solve it.
pub open spec fn invertible(p: &Puzzle) -> bool {
    &&& p.spec_gap() == p@.len() - 1
    &&& !odd_perm(corner_permutation(p))
}

/// The home positions of the pieces at the positions other than the last one of `s`.
pub open spec fn home_positions(s: Seq<u64>) -> Seq<u64> {
    Seq::new((s.len() - 1) as nat, |i: int| (s[i] - 1) as u64)
}

/// Random state scrambler, but leaving the gap in the bottom right corner so that the resulting
/// state is invertible.
///
/// See [`RandomState`].
#[derive(Clone, Copy, Default, Debug, PartialEq, Eq)]
pub struct RandomInvertibleState;

/// Draws fit for [`RandomInvertibleState`] on a puzzle with `n` pieces: for each position `i`
/// before the last two pieces, the position `draws[i]` of the piece that goes there, at or after
/// `i`.
pub open spec fn valid_draws(draws: Seq<u64>, n: int) -> bool {
    &&& draws.len() == n - 2
    &&& forall|i: int| 0 <= i < n - 2 ==> i <= #[trigger] draws[i] < n
}

/// `s` after exchanging, for each `i < k` in turn, the entry at `i` with the one at `draws[i]`.
pub open spec fn swap_steps(s: Seq<u64>, draws: Seq<u64>, k: int) -> Seq<u64>
    decreases k,
{
    if k <= 0 {
        s
    } else {
        swap_seq(swap_steps(s, draws, k - 1), k - 1, draws[k - 1] as int)
    }
}

/// The state that [`RandomInvertibleState`] makes from the draws `draws`: the solved state of
/// `n + 1` positions with the exchanges of [`swap_steps`], then with its last two pieces exchanged
/// if the pieces were left an odd permutation.
pub open spec fn invertible_state(n: nat, draws: Seq<u64>) -> Seq<u64> {
    let t = swap_steps(solved_pieces(n + 1), draws, n - 2);
    if odd_perm(home_positions(t)) {
        swap_seq(t, n - 2, n - 1)
    } else {
        t
    }
}

impl RandomInvertibleState {
    /// Sets `puzzle` to the state that the draws `draws` give (see [`invertible_state`]): for each
    /// position `i` but the last three, the piece at position `draws[i]` goes to position `i`.
    pub fn scramble_with_draws(&self, puzzle: &mut Puzzle, draws: &[u64])
        requires
            old(puzzle).wf(),
            self.spec_valid_size(old(puzzle).spec_size()),
            valid_draws(draws@, old(puzzle)@.len() - 1),
        ensures
            final(puzzle).wf(),
            final(puzzle).spec_size() == old(puzzle).spec_size(),
            final(puzzle)@ == invertible_state((old(puzzle)@.len() - 1) as nat, draws@),
            invertible(final(puzzle)),
    {
        puzzle.reset();
        let n = puzzle.num_pieces();
        let ghost s0 = puzzle@;
        proof {
            puzzle.lemma_wf();
            crate::arith::lemma_mul_ge(puzzle.w(), puzzle.h());
            assert(n >= 3) by (nonlinear_arith)
                requires
                    puzzle.w() >= 2,
                    puzzle.h() >= 2,
                    n == puzzle.w() * puzzle.h() - 1,
            ;
            let s = puzzle@;
            assert(s == label_solved_pieces(RowGrids, puzzle.spec_size()));
            assert forall|i: int| 0 <= i < s.len() implies #[trigger] s[i] == if i == n {
                0
            } else {
                (i + 1) as u64
            } by {
                crate::arith::lemma_split_bound(i, puzzle.w(), puzzle.h());
            }
            assert(s =~= solved_pieces((n + 1) as nat));
            assert(home_positions(s) =~= Seq::new(n as nat, |i: int| i as u64));
            lemma_identity_even(n as nat);
        }
        let mut parity = false;
        let mut i: u64 = 0;
        while i < n - 2
            invariant
                puzzle.wf(),
                puzzle.spec_size() == old(puzzle).spec_size(),
                n == puzzle@.len() - 1,
                n == old(puzzle)@.len() - 1,
                n >= 3,
                i <= n - 2,
                valid_draws(draws@, n as int),
                s0 == solved_pieces((n + 1) as nat),
                puzzle@ == swap_steps(s0, draws@, i as int),
                puzzle@[n as int] == 0,
                is_permutation(home_positions(puzzle@)),
                odd_perm(home_positions(puzzle@)) == parity,
            decreases n - 2 - i,
        {
            // The piece at position `draws[i]` goes in position i.
            let j = draws[i as usize];
            let ghost before = puzzle@;
            // Swap, and keep track of the parity.
            if i != j {
                puzzle.swap_pieces(i, j);
                proof {
                    assert(home_positions(puzzle@) =~= swap_seq(
                        home_positions(before),
                        i as int,
                        j as int,
                    ));
                    lemma_swap_parity(home_positions(before), i as int, j as int);
                    crate::perm::lemma_swap_permutation(home_positions(before), i as int, j as int);
                }
                parity = !parity;
            } else {
                assert(swap_seq(before, i as int, j as int) =~= before);
            }
            i = i + 1;
        }
        let ghost t = puzzle@;
        // Swap the last two pieces if necessary to make it solvable.
        if parity {
            let ghost before = puzzle@;
            puzzle.swap_pieces(n - 2, n - 1);
            proof {
                assert(home_positions(puzzle@) =~= swap_seq(
                    home_positions(before),
                    n - 2,
                    n - 1,
                ));
                lemma_swap_parity(home_positions(before), n - 2, n - 1);
            }
        }
        proof {
            assert(t == swap_steps(solved_pieces((n + 1) as nat), draws@, n - 2));
            puzzle.lemma_wf();
            crate::perm::lemma_permutation_onto(puzzle@, 0);
            let g = puzzle.spec_gap();
            if g != n {
                assert(puzzle@[g] == puzzle@[n as int]);
            }
            assert(gap_to_corner(puzzle) == puzzle@) by {
                assert(puzzle.gx() == puzzle.w() - 1 && puzzle.gy() == puzzle.h() - 1) by {
                    crate::arith::lemma_index_split(puzzle.w() - 1, puzzle.h() - 1, puzzle.w());
                    assert((puzzle.w() - 1) + puzzle.w() * (puzzle.h() - 1) == n) by (nonlinear_arith)
                        requires
                            n == puzzle.w() * puzzle.h() - 1,
                    ;
                }
            }
            assert(corner_permutation(puzzle) =~= home_positions(puzzle@));
        }
    }
}

impl Scrambler for RandomInvertibleState {
    open spec fn spec_valid_size(&self, size: Size) -> bool {
        size.spec_width() > 1 && size.spec_height() > 1
    }

    open spec fn spec_can_scramble(&self, puzzle: &Puzzle) -> bool {
        true
    }

    /// The state that some draws give (see [`invertible_state`]): an invertible state.
    open spec fn spec_scrambled(&self, before: &Puzzle, after: &Puzzle) -> bool {
        &&& exists|draws: Seq<u64>|
            #![trigger invertible_state((before@.len() - 1) as nat, draws)]
            valid_draws(draws, before@.len() - 1) && after@ == invertible_state(
                (before@.len() - 1) as nat,
                draws,
            )
        &&& invertible(after)
    }

    fn is_valid_size(&self, size: Size) -> (r: bool) {
        size.width() > 1 && size.height() > 1
    }

    /// Draws, for each position in turn, the piece that goes there among those not yet placed,
    /// then places them (see [`RandomInvertibleState::scramble_with_draws`]).
    fn scramble_with_rng(&self, puzzle: &mut Puzzle, rng: &mut StdRng) {
        let n = puzzle.num_pieces();
        proof {
            puzzle.lemma_wf();
            assert(n >= 3) by (nonlinear_arith)
                requires
                    puzzle.w() >= 2,
                    puzzle.h() >= 2,
                    n == puzzle.w() * puzzle.h() - 1,
            ;
        }
        let draws = invertible_draws(rng, n);
        self.scramble_with_draws(puzzle, draws.as_slice());
    }
}

/// Draws, for each position `i` before the last two pieces of a puzzle with `n` pieces, a
/// position from `i` to `n - 1`.
fn invertible_draws(rng: &mut StdRng, n: u64) -> (r: Vec<u64>)
    requires
        n >= 3,
    ensures
        valid_draws(r@, n as int),
{
    let mut draws: Vec<u64> = Vec::new();
    let mut i: u64 = 0;
    while i < n - 2
        invariant
            n >= 3,
            i <= n - 2,
            draws@.len() == i,
            forall|k: int| 0 <= k < i ==> k <= #[trigger] draws@[k] < n,
        decreases n - 2 - i,
    {
        // Pick a random piece to go in position i.
        draws.push(random_below(rng, i, n));
        i = i + 1;
    }
    draws
}

/// The move that brings the gap of a single column from row `from` to row `to` (`vertical`), or
/// of a single row from column `from` to column `to`.
pub open spec fn gap_move_to(from: int, to: int, vertical: bool) -> Move {
    if to <= from {
        Move {
            direction: if vertical {
                Direction::Down
            } else {
                Direction::Right
            },
            amount: (from - to) as u64,
        }
    } else {
        Move {
            direction: if vertical {
                Direction::Up
            } else {
                Direction::Left
            },
            amount: (to - from) as u64,
        }
    }
}

/// The gap of a well-formed puzzle is in its bottom right corner exactly when it is at the last
/// position.
proof fn lemma_gap_corner(p: &Puzzle)
    requires
        p.wf(),
    ensures
        p.spec_gap() == p@.len() - 1 <==> (p.gx() == p.w() - 1 && p.gy() == p.h() - 1),
{
    p.lemma_wf();
    crate::arith::lemma_index_split(p.w() - 1, p.h() - 1, p.w());
    assert((p.w() - 1) + p.w() * (p.h() - 1) == p.w() * p.h() - 1) by (nonlinear_arith);
}

/// Random state scrambler. Scrambles the puzzle in such a way that every solvable state is equally
/// likely to occur.
#[derive(Clone, Copy, Default, Debug, PartialEq, Eq)]
pub struct RandomState;

impl Scrambler for RandomState {
    open spec fn spec_valid_size(&self, size: Size) -> bool {
        true
    }

    open spec fn spec_can_scramble(&self, puzzle: &Puzzle) -> bool {
        true
    }

    /// The state that some draws give: see [`RandomState::scramble_with_draws`]. On a puzzle
    /// with at least two rows and two columns, the state before the gap moves is an invertible
    /// one.
    open spec fn spec_scrambled(&self, before: &Puzzle, after: &Puzzle) -> bool {
        if is_line(before) {
            exists|d: nat|
                #![trigger random_state_pieces(before, Seq::<u64>::empty(), d as int, 0)]
                random_state_draws_ok(before, Seq::<u64>::empty(), d as int, 0) && after@
                    == random_state_pieces(before, Seq::<u64>::empty(), d as int, 0)
        } else {
            exists|draws: Seq<u64>, d: nat, r: nat, p: Puzzle|
                #![trigger random_state_pieces(before, draws, d as int, r as int), invertible(&p)]
                random_state_draws_ok(before, draws, d as int, r as int) && after@
                    == random_state_pieces(before, draws, d as int, r as int) && p.wf()
                    && p.spec_size() == before.spec_size() && p@ == invertible_state(
                    (before@.len() - 1) as nat,
                    draws,
                ) && invertible(&p)
        }
    }

    fn is_valid_size(&self, size: Size) -> (r: bool) {
        true
    }

    /// Draws the random numbers that [`RandomState::scramble_with_draws`] takes, then calls it.
    fn scramble_with_rng(&self, puzzle: &mut Puzzle, rng: &mut StdRng) {
        let size = puzzle.size();
        let (w, h) = (size.width(), size.height());
        proof {
            puzzle.lemma_wf();
        }
        if w == 1 || h == 1 {
            let len = if w == 1 {
                h
            } else {
                w
            };
            let d = random_below(rng, 0, len);
            let none: Vec<u64> = Vec::new();
            self.scramble_with_draws(puzzle, none.as_slice(), d, 0);
            proof {
                assert(none@ =~= Seq::<u64>::empty());
            }
            return;
        }
        let n = puzzle.num_pieces();
        proof {
            assert(n >= 3) by (nonlinear_arith)
                requires
                    w >= 2,
                    h >= 2,
                    n == w * h - 1,
            ;
        }
        let draws = invertible_draws(rng, n);
        let (d, r) = (random_below(rng, 0, h), random_below(rng, 0, w));
        self.scramble_with_draws(puzzle, draws.as_slice(), d, r);
    }
}

/// The move that [`RandomState`] makes on a single row or column from the draw `d`: the gap goes
/// `d` steps back from the end of the line.
pub open spec fn line_move(p: &Puzzle, d: int) -> Move {
    let vertical = p.w() == 1;
    let len = if vertical {
        p.h()
    } else {
        p.w()
    };
    let from = if vertical {
        p.gy()
    } else {
        p.gx()
    };
    gap_move_to(from, len - 1 - d, vertical)
}

/// Draws fit for [`RandomState`] on `p`: on a single row or column, one draw `d` below the length
/// of the line (and no others); otherwise the draws of [`RandomInvertibleState`], a row `d` and a
/// column `r`.
pub open spec fn random_state_draws_ok(p: &Puzzle, draws: Seq<u64>, d: int, r: int) -> bool {
    if is_line(p) {
        &&& 0 <= d < (if p.w() == 1 {
            p.h()
        } else {
            p.w()
        })
        &&& draws.len() == 0
        &&& r == 0
    } else {
        &&& valid_draws(draws, p@.len() - 1)
        &&& 0 <= d < p.h()
        &&& 0 <= r < p.w()
    }
}

/// The pieces that [`RandomState`] makes of `p` from its draws: on a single row or column, `p`
/// with its gap moved [`line_move`]; otherwise the invertible state of the draws (see
/// [`invertible_state`]) with its gap moved up `d` rows, then left `r` columns.
pub open spec fn random_state_pieces(p: &Puzzle, draws: Seq<u64>, d: int, r: int) -> Seq<u64> {
    let (w, h) = (p.w(), p.h());
    if is_line(p) {
        let mv = line_move(p, d);
        moved(p@, w, p.gx(), p.gy(), mv.direction, mv.amount as nat)
    } else {
        moved(
            moved(
                invertible_state((p@.len() - 1) as nat, draws),
                w,
                w - 1,
                h - 1,
                Direction::Down,
                d as nat,
            ),
            w,
            w - 1,
            h - 1 - d,
            Direction::Right,
            r as nat,
        )
    }
}

impl RandomState {
    /// Scrambles `puzzle` with the given draws (see [`random_state_pieces`]): on a single row or
    /// column, the gap goes `d` steps back from the end of the line; otherwise the puzzle takes
    /// the invertible state of `draws`, and its gap moves up `d` rows and left `r` columns.
    pub fn scramble_with_draws(&self, puzzle: &mut Puzzle, draws: &[u64], d: u64, r: u64)
        requires
            old(puzzle).wf(),
            random_state_draws_ok(old(puzzle), draws@, d as int, r as int),
        ensures
            final(puzzle).wf(),
            final(puzzle).spec_size() == old(puzzle).spec_size(),
            final(puzzle)@ == random_state_pieces(old(puzzle), draws@, d as int, r as int),
            self.spec_scrambled(old(puzzle), final(puzzle)),
    {
        let ghost before = *puzzle;
        let size = puzzle.size();
        let (w, h) = (size.width(), size.height());
        proof {
            puzzle.lemma_wf();
        }
        if w == 1 || h == 1 {
            // The gap goes `d` steps back from the end of the line.
            let vertical = w == 1;
            let len = if vertical {
                h
            } else {
                w
            };
            let t = len - 1 - d;
            let (gx, gy) = puzzle.gap_position_xy();
            let from = if vertical {
                gy
            } else {
                gx
            };
            let mv = if t <= from {
                Move::new(
                    if vertical {
                        Direction::Down
                    } else {
                        Direction::Right
                    },
                    from - t,
                )
            } else {
                Move::new(
                    if vertical {
                        Direction::Up
                    } else {
                        Direction::Left
                    },
                    t - from,
                )
            };
            assert(mv == line_move(&before, d as int));
            puzzle.apply_move(mv);
            proof {
                assert(draws@ =~= Seq::<u64>::empty());
                let dn: nat = d as nat;
                assert(random_state_pieces(&before, Seq::<u64>::empty(), dn as int, 0) == puzzle@);
            }
            return;
        }
        RandomInvertibleState.scramble_with_draws(puzzle, draws);
        let ghost mid = *puzzle;
        proof {
            lemma_gap_corner(puzzle);
        }
        // Move the gap up and left.
        puzzle.apply_move(Move::new(Direction::Down, d));
        puzzle.apply_move(Move::new(Direction::Right, r));
        proof {
            assert(mid.wf() && invertible(&mid));
            let (dn, rn): (nat, nat) = (d as nat, r as nat);
            assert(random_state_pieces(&before, draws@, dn as int, rn as int) == puzzle@);
        }
    }
}

/// The pieces and the gap's `(x, y)` position after trying, one after the other, the single-tile
/// moves in the directions `dirs` on a `w x h` puzzle: a move that does not fit is skipped.
pub open spec fn walk(s: Seq<u64>, w: int, h: int, gx: int, gy: int, dirs: Seq<Direction>) -> (
    Seq<u64>,
    int,
    int,
)
    decreases dirs.len(),
{
    if dirs.len() == 0 {
        (s, gx, gy)
    } else {
        let (s1, x1, y1) = walk(s, w, h, gx, gy, dirs.drop_last());
        let d = dirs.last();
        if move_fits(w, h, x1, y1, Move { direction: d, amount: 1 }) {
            (moved(s1, w, x1, y1, d, 1), x1 + offset(d, 1).0, y1 + offset(d, 1).1)
        } else {
            (s1, x1, y1)
        }
    }
}

/// Every move of `dirs` fits when its turn comes.
pub open spec fn walk_legal(s: Seq<u64>, w: int, h: int, gx: int, gy: int, dirs: Seq<Direction>) -> bool {
    forall|k: int|
        0 <= k < dirs.len() ==> {
            let (s1, x1, y1) = #[trigger] walk(s, w, h, gx, gy, dirs.take(k));
            move_fits(w, h, x1, y1, Move { direction: dirs[k], amount: 1 })
        }
}

/// No move of `dirs` undoes the one before it.
pub open spec fn no_backtracking(dirs: Seq<Direction>) -> bool {
    forall|k: int| 0 < k < dirs.len() ==> #[trigger] dirs[k] != dirs[k - 1].spec_inverse()
}

/// Scrambles the puzzle by applying a fixed number of random single-tile moves.
#[derive(Clone, Copy, Debug, PartialEq, Eq)]
pub struct RandomMoves {
    /// Number of random moves to apply.
    pub moves: u64,
    /// Are backtracking moves allowed? E.g. If one move of the scramble is R, is the next move
    /// allowed to be L? If this is false, the L move will not be allowed and a different move will
    /// be generated.
    pub allow_backtracking: bool,
    /// Are illegal moves counted? E.g. If the first generated move of the scramble is L (which
    /// can not be applied to the puzzle), should this be counted towards the total move count? If
    /// this is false, the L move will not be counted and a different move will be generated.
    pub allow_illegal_moves: bool,
}

/// The last of the moves `dirs`, if there is one.
pub open spec fn last_direction(dirs: Seq<Direction>) -> Option<Direction> {
    if dirs.len() == 0 {
        None
    } else {
        Some(dirs.last())
    }
}

/// The four directions, in the order in which the scramble considers them.
pub open spec fn all_directions() -> Seq<Direction> {
    seq![Direction::Up, Direction::Left, Direction::Down, Direction::Right]
}

impl RandomMoves {
    /// Whether the scramble may move in direction `d` next.
    fn allowed(&self, puzzle: &Puzzle, last: Option<Direction>, d: Direction) -> (r: bool)
        requires
            puzzle.wf(),
        ensures
            r == ((self.allow_backtracking || last != Some(d.spec_inverse())) && (
            self.allow_illegal_moves || puzzle.spec_can_move_dir(d))),
    {
        let backtracks = match last {
            Some(l) => l == d.inverse(),
            None => false,
        };
        (self.allow_backtracking || !backtracks) && (self.allow_illegal_moves
            || puzzle.can_move_dir(d))
    }
}

/// A move that fits after the moves of `dirs` keeps the moves fitting.
proof fn lemma_walk_legal_push(
    s: Seq<u64>,
    w: int,
    h: int,
    gx: int,
    gy: int,
    dirs: Seq<Direction>,
    d: Direction,
)
    requires
        walk_legal(s, w, h, gx, gy, dirs),
        move_fits(
            w,
            h,
            walk(s, w, h, gx, gy, dirs).1,
            walk(s, w, h, gx, gy, dirs).2,
            Move { direction: d, amount: 1 },
        ),
    ensures
        walk_legal(s, w, h, gx, gy, dirs.push(d)),
{
    let e = dirs.push(d);
    assert forall|k: int| 0 <= k < e.len() implies {
        let (s1, x1, y1) = #[trigger] walk(s, w, h, gx, gy, e.take(k));
        move_fits(w, h, x1, y1, Move { direction: e[k], amount: 1 })
    } by {
        if k == dirs.len() {
            assert(e.take(k) == dirs);
        } else {
            assert(e.take(k) == dirs.take(k));
        }
    }
}

/// A move that does not undo the last one keeps the moves free of backtracking.
proof fn lemma_no_backtracking_push(dirs: Seq<Direction>, d: Direction)
    requires
        no_backtracking(dirs),
        dirs.len() > 0 ==> d != dirs.last().spec_inverse(),
    ensures
        no_backtracking(dirs.push(d)),
{
    let e = dirs.push(d);
    assert forall|k: int| 0 < k < e.len() implies #[trigger] e[k] != e[k - 1].spec_inverse() by {
        if k < dirs.len() {
            assert(e[k] == dirs[k] && e[k - 1] == dirs[k - 1]);
        }
    }
}

impl RandomMoves {
    /// Whether the scramble may move in direction `d` next, after the move `last`: it must not
    /// undo `last` unless backtracking is allowed, and it must fit unless illegal moves are allowed.
    pub open spec fn spec_allowed(&self, puzzle: &Puzzle, last: Option<Direction>, d: Direction) -> bool {
        (self.allow_backtracking || last != Some(d.spec_inverse())) && (self.allow_illegal_moves
            || puzzle.spec_can_move_dir(d))
    }

    /// The directions in which the scramble may move next: those of up, left, down and right, in
    /// that order, that [`RandomMoves::spec_allowed`] admits.
    fn allowed_dirs(&self, puzzle: &Puzzle, last: Option<Direction>) -> (r: Vec<Direction>)
        requires
            puzzle.wf(),
        ensures
            r@ == all_directions().filter(|d: Direction| self.spec_allowed(puzzle, last, d)),
            forall|j: int|
                0 <= j < r@.len() ==> ((self.allow_backtracking || last != Some(
                    (#[trigger] r@[j]).spec_inverse(),
                )) && (self.allow_illegal_moves || puzzle.spec_can_move_dir(r@[j]))),
    {
        let ghost pred = |d: Direction| self.spec_allowed(puzzle, last, d);
        let mut allowed: Vec<Direction> = Vec::new();
        let candidates = [Direction::Up, Direction::Left, Direction::Down, Direction::Right];
        assert(candidates@ =~= all_directions());
        assert(candidates@.take(0).filter(pred) =~= Seq::<Direction>::empty()) by {
            reveal_with_fuel(Seq::filter, 1);
        }
        let mut c: usize = 0;
        while c < 4
            invariant
                puzzle.wf(),
                c <= 4,
                candidates@ == all_directions(),
                pred == (|d: Direction| self.spec_allowed(puzzle, last, d)),
                allowed@ == candidates@.take(c as int).filter(pred),
                forall|j: int|
                    0 <= j < allowed@.len() ==> ((self.allow_backtracking || last != Some(
                        (#[trigger] allowed@[j]).spec_inverse(),
                    )) && (self.allow_illegal_moves || puzzle.spec_can_move_dir(allowed@[j]))),
            decreases 4 - c,
        {
            let d = candidates[c];
            proof {
                let t = candidates@.take(c + 1);
                assert(t.drop_last() =~= candidates@.take(c as int));
                assert(t.last() == d);
                reveal_with_fuel(Seq::filter, 1);
                assert(t.filter(pred) == if pred(d) {
                    candidates@.take(c as int).filter(pred).push(d)
                } else {
                    candidates@.take(c as int).filter(pred)
                });
            }
            if self.allowed(puzzle, last, d) {
                allowed.push(d);
            }
            c = c + 1;
        }
        assert(candidates@.take(4) =~= candidates@);
        allowed
    }
}

impl RandomMoves {
    /// The directions in which the scramble may move next on `puzzle`, after the move `last`:
    /// those of up, left, down and right, in that order, that [`RandomMoves::spec_allowed`]
    /// admits.
    pub open spec fn allowed_directions(&self, puzzle: &Puzzle, last: Option<Direction>) -> Seq<
        Direction,
    > {
        all_directions().filter(|d: Direction| self.spec_allowed(puzzle, last, d))
    }

    /// Returns the number of directions in which the scramble may move next (see
    /// [`RandomMoves::allowed_directions`]).
    pub fn num_allowed(&self, puzzle: &Puzzle, last: Option<Direction>) -> (r: u64)
        requires
            puzzle.wf(),
        ensures
            r == self.allowed_directions(puzzle, last).len(),
    {
        self.allowed_dirs(puzzle, last).len() as u64
    }

    /// One move of the scramble: the direction at index `choice` among those allowed (see
    /// [`RandomMoves::allowed_directions`]), tried on `puzzle`: the piece moves if it can, and is
    /// left as it is otherwise (an allowed illegal move). Returns the direction.
    pub fn scramble_step(&self, puzzle: &mut Puzzle, last: Option<Direction>, choice: u64) -> (r:
        Direction)
        requires
            old(puzzle).wf(),
            choice < self.allowed_directions(old(puzzle), last).len(),
        ensures
            r == self.allowed_directions(old(puzzle), last)[choice as int],
            self.spec_allowed(old(puzzle), last, r),
            final(puzzle).wf(),
            final(puzzle).spec_size() == old(puzzle).spec_size(),
            final(puzzle)@ == if old(puzzle).spec_can_move_dir(r) {
                moved(old(puzzle)@, old(puzzle).w(), old(puzzle).gx(), old(puzzle).gy(), r, 1)
            } else {
                old(puzzle)@
            },
            (final(puzzle).gx(), final(puzzle).gy()) == if old(puzzle).spec_can_move_dir(r) {
                (old(puzzle).gx() + offset(r, 1).0, old(puzzle).gy() + offset(r, 1).1)
            } else {
                (old(puzzle).gx(), old(puzzle).gy())
            },
    {
        let allowed = self.allowed_dirs(puzzle, last);
        let dir = allowed[choice as usize];
        if puzzle.can_move_dir(dir) {
            puzzle.move_dir(dir);
        }
        dir
    }
}

impl Scrambler for RandomMoves {
    /// On a single row or column, without backtracking or illegal moves, the scramble has at most
    /// `width * height - 1` moves to make.
    open spec fn spec_valid_size(&self, size: Size) -> bool {
        if (size.spec_width() == 1 || size.spec_height() == 1) && !self.allow_backtracking
            && !self.allow_illegal_moves {
            self.moves < size.spec_area()
        } else {
            true
        }
    }

    open spec fn spec_can_scramble(&self, puzzle: &Puzzle) -> bool {
        true
    }

    /// The puzzle after `moves` tried single-tile moves (each one a
    /// [`RandomMoves::scramble_step`]), which all fit unless illegal moves are allowed, and none
    /// of which undoes the one before unless backtracking is allowed. Fewer moves are made only
    /// where no direction is allowed after them.
    open spec fn spec_scrambled(&self, before: &Puzzle, after: &Puzzle) -> bool {
        exists|dirs: Seq<Direction>|
            #![trigger walk(before@, before.w(), before.h(), before.gx(), before.gy(), dirs)]
            {
                &&& dirs.len() <= self.moves
                &&& after@ == walk(before@, before.w(), before.h(), before.gx(), before.gy(), dirs).0
                &&& !self.allow_illegal_moves ==> walk_legal(
                    before@,
                    before.w(),
                    before.h(),
                    before.gx(),
                    before.gy(),
                    dirs,
                )
                &&& !self.allow_backtracking ==> no_backtracking(dirs)
                &&& dirs.len() == self.moves || forall|d: Direction|
                    !#[trigger] self.spec_allowed(after, last_direction(dirs), d)
            }
    }

    fn is_valid_size(&self, size: Size) -> (r: bool) {
        if (size.width() == 1 || size.height() == 1) && !self.allow_backtracking
            && !self.allow_illegal_moves {
            let (w, h) = (size.width(), size.height());
            proof {
                crate::arith::lemma_mul_ge(w as int, h as int);
            }
            if size.width() == 1 {
                self.moves < size.height()
            } else {
                self.moves < size.width()
            }
        } else {
            true
        }
    }

    /// Draws, for each move, the index of its direction among those allowed, and makes it with
    /// [`RandomMoves::scramble_step`]. When no direction is allowed, no further move can be
    /// made, and the scramble ends.
    #[verifier::rlimit(40)]
    fn scramble_with_rng(&self, puzzle: &mut Puzzle, rng: &mut StdRng) {
        let ghost (s0, w, h, x0, y0) = (puzzle@, puzzle.w(), puzzle.h(), puzzle.gx(), puzzle.gy());
        let mut last: Option<Direction> = None;
        let ghost mut dirs: Seq<Direction> = Seq::empty();
        let mut k: u64 = 0;
        while k < self.moves
            invariant
                puzzle.wf(),
                puzzle.spec_size() == old(puzzle).spec_size(),
                s0 == old(puzzle)@,
                w == old(puzzle).w() == puzzle.w(),
                h == old(puzzle).h() == puzzle.h(),
                x0 == old(puzzle).gx(),
                y0 == old(puzzle).gy(),
                k <= self.moves,
                dirs.len() == k,
                (puzzle@, puzzle.gx(), puzzle.gy()) == walk(s0, w, h, x0, y0, dirs),
                !self.allow_illegal_moves ==> walk_legal(s0, w, h, x0, y0, dirs),
                !self.allow_backtracking ==> no_backtracking(dirs),
                last == last_direction(dirs),
            ensures
                dirs.len() == self.moves || forall|d: Direction|
                    !#[trigger] self.spec_allowed(puzzle, last, d),
            decreases self.moves - k,
        {
            // The directions that the scramble may take.
            let allowed = self.allowed_dirs(puzzle, last);
            if allowed.len() == 0 {
                proof {
                    let pred = |d: Direction| self.spec_allowed(puzzle, last, d);
                    broadcast use vstd::seq_lib::group_filter_ensures;
                    assert forall|d: Direction| !#[trigger] self.spec_allowed(puzzle, last, d) by {
                        let i: int = match d {
                            Direction::Up => 0,
                            Direction::Left => 1,
                            Direction::Down => 2,
                            Direction::Right => 3,
                        };
                        assert(all_directions()[i] == d);
                        if pred(d) {
                            assert(all_directions().filter(pred).contains(d));
                        }
                    }
                }
                break;
            }
            let choice = random_below(rng, 0, allowed.len() as u64);
            let ghost before_dirs = dirs;
            let ghost pz = *puzzle;
            let dir = self.scramble_step(puzzle, last, choice);
            proof {
                if !self.allow_illegal_moves {
                    assert(pz.spec_can_move_dir(dir));
                    lemma_walk_legal_push(s0, w, h, x0, y0, dirs, dir);
                }
                if !self.allow_backtracking {
                    lemma_no_backtracking_push(dirs, dir);
                }
                dirs = dirs.push(dir);
                assert(dirs.drop_last() == before_dirs);
            }
            last = Some(dir);
            k = k + 1;
        }
    }
}

/// The length of the cycle that [`Cycle`] applies on a puzzle with `n` pieces: at most `length`,
/// and odd when it uses every piece.
pub open spec fn cycle_len(length: int, n: int) -> int {
    let most = if n % 2 == 0 {
        n - 1
    } else {
        n
    };
    if length <= most {
        length
    } else {
        most
    }
}

/// The positions from which [`Cycle`] picks the pieces of its cycle: all of them for a cycle of
/// odd length, and all but the last two otherwise.
pub open spec fn cycle_range(cycle_len: int, n: int) -> int {
    if cycle_len % 2 == 0 {
        n - 2
    } else {
        n
    }
}

/// Whether [`Cycle`] exchanges the last two pieces after a cycle of length `cycle_len`: exactly
/// when the cycle has even length (at least 2), which is an odd permutation, so that the state
/// stays solvable.
pub open spec fn cycle_swaps_last(cycle_len: int) -> bool {
    cycle_len >= 2 && cycle_len % 2 == 0
}

/// `s` after exchanging the piece at `ps[0]` with those at `ps[1]`, ..., `ps[k - 1]` in turn,
/// which cycles the pieces at those positions.
pub open spec fn swap_chain(s: Seq<u64>, ps: Seq<usize>, k: int) -> Seq<u64>
    decreases k,
{
    if k <= 1 {
        s
    } else {
        swap_seq(swap_chain(s, ps, k - 1), ps[0] as int, ps[k - 1] as int)
    }
}

/// Scrambler that applies a single cycle of pieces to the puzzle, of length `length` or, where
/// that does not fit, the longest odd length that does. If the cycle has even length, the last
/// two pieces in the puzzle will also be swapped to make it solvable.
#[derive(Clone, Copy, Debug, PartialEq, Eq)]
pub struct Cycle {
    /// Length of the cycle.
    pub length: u64,
}

impl Scrambler for Cycle {
    /// We can't do any cycles on a 1xn or nx1 puzzle.
    open spec fn spec_valid_size(&self, size: Size) -> bool {
        size.spec_width() > 1 && size.spec_height() > 1
    }

    /// An even cycle must find its pieces among all but the last two.
    open spec fn spec_can_scramble(&self, puzzle: &Puzzle) -> bool {
        let n = puzzle@.len() - 1;
        cycle_len(self.length as int, n) <= cycle_range(cycle_len(self.length as int, n), n)
    }

    /// The pieces at some distinct positions, from the range that [`cycle_range`] gives, are
    /// cycled; after a cycle of even length, the last two pieces are then exchanged: see
    /// [`Cycle::scramble_with_positions`].
    open spec fn spec_scrambled(&self, before: &Puzzle, after: &Puzzle) -> bool {
        let n = before@.len() - 1;
        let k = cycle_len(self.length as int, n);
        exists|ps: Seq<usize>|
            #![trigger cycle_state(before@, ps, k)]
            cycle_positions_ok(ps, k, n) && after@ == cycle_state(before@, ps, k)
    }

    fn is_valid_size(&self, size: Size) -> (r: bool) {
        size.width() > 1 && size.height() > 1
    }

    /// Draws the positions of the cycle, then applies it (see [`Cycle::scramble_with_positions`]).
    fn scramble_with_rng(&self, puzzle: &mut Puzzle, rng: &mut StdRng) {
        let (n, k, max) = self.cycle_bounds(puzzle);
        let positions = sample_indices(rng, max as usize, k as usize);
        self.scramble_with_positions(puzzle, positions.as_slice());
    }
}

/// The pieces `s` after the cycle of [`Cycle`] through the positions `ps`, `k` long: the cycle,
/// then, after a cycle of even length, the exchange of the last two pieces.
pub open spec fn cycle_state(s: Seq<u64>, ps: Seq<usize>, k: int) -> Seq<u64> {
    let n = s.len() - 1;
    if cycle_swaps_last(k) {
        swap_seq(swap_chain(s, ps, k), n - 2, n - 1)
    } else {
        swap_chain(s, ps, k)
    }
}

/// Positions fit for a cycle of length `k` on a puzzle with `n` pieces: `k` distinct positions
/// from the range that [`cycle_range`] gives.
pub open spec fn cycle_positions_ok(ps: Seq<usize>, k: int, n: int) -> bool {
    &&& ps.len() == k
    &&& forall|i: int| 0 <= i < k ==> (#[trigger] ps[i] as int) < cycle_range(k, n)
    &&& forall|i: int, j: int| 0 <= i < j < k ==> #[trigger] ps[i] != #[trigger] ps[j]
}

impl Cycle {
    /// The number of pieces `n` of `puzzle`, the length `k` of the cycle, and the number of
    /// positions that its pieces are picked from.
    fn cycle_bounds(&self, puzzle: &Puzzle) -> (r: (u64, u64, u64))
        requires
            puzzle.wf(),
            self.spec_valid_size(puzzle.spec_size()),
        ensures
            r.0 == puzzle@.len() - 1,
            r.0 >= 3,
            r.1 == cycle_len(self.length as int, r.0 as int),
            r.2 == cycle_range(r.1 as int, r.0 as int),
            r.1 <= r.0,
    {
        let n = puzzle.num_pieces();
        proof {
            puzzle.lemma_wf();
            assert(n >= 3) by (nonlinear_arith)
                requires
                    puzzle.w() >= 2,
                    puzzle.h() >= 2,
                    n == puzzle.w() * puzzle.h() - 1,
            ;
        }
        let most = if n % 2 == 0 {
            n - 1
        } else {
            n
        };
        let k = if self.length <= most {
            self.length
        } else {
            most
        };
        let max = if k % 2 == 0 {
            n - 2
        } else {
            n
        };
        (n, k, max)
    }

    /// Whether the cycle fits in `puzzle`: a cycle of even length must find its pieces among all
    /// but the last two. See [`Scrambler::spec_can_scramble`].
    pub fn can_scramble(&self, puzzle: &Puzzle) -> (r: bool)
        requires
            puzzle.wf(),
            self.spec_valid_size(puzzle.spec_size()),
        ensures
            r == self.spec_can_scramble(puzzle),
    {
        let (n, k, max) = self.cycle_bounds(puzzle);
        k <= max
    }

    /// Applies the cycle through the positions `positions` to `puzzle`: the piece at the first
    /// position is exchanged with those at the others in turn, and after a cycle of even length
    /// the last two pieces are exchanged (see [`cycle_state`]).
    pub fn scramble_with_positions(&self, puzzle: &mut Puzzle, positions: &[usize])
        requires
            old(puzzle).wf(),
            self.spec_valid_size(old(puzzle).spec_size()),
            cycle_positions_ok(
                positions@,
                cycle_len(self.length as int, old(puzzle)@.len() - 1),
                old(puzzle)@.len() - 1,
            ),
        ensures
            final(puzzle).wf(),
            final(puzzle).spec_size() == old(puzzle).spec_size(),
            final(puzzle)@ == cycle_state(
                old(puzzle)@,
                positions@,
                cycle_len(self.length as int, old(puzzle)@.len() - 1),
            ),
    {
        let (n, cycle_len, max) = self.cycle_bounds(puzzle);
        assert(max <= n < usize::MAX && cycle_len <= n);
        let ghost s0 = puzzle@;
        let mut i: usize = 1;
        while i < cycle_len as usize
            invariant
                puzzle.wf(),
                puzzle.spec_size() == old(puzzle).spec_size(),
                n == puzzle@.len() - 1,
                max <= n,
                positions@.len() == cycle_len,
                forall|j: int| 0 <= j < positions@.len() ==> #[trigger] positions@[j] < max,
                1 <= i,
                cycle_len > 0 ==> i <= cycle_len,
                cycle_len == 0 ==> i == 1,
                puzzle@ == swap_chain(s0, positions@, i as int),
            decreases cycle_len - i,
        {
            puzzle.try_swap_pieces(positions[0] as u64, positions[i] as u64);
            i = i + 1;
        }
        proof {
            if cycle_len == 0 {
                assert(swap_chain(s0, positions@, 0) == s0);
                assert(swap_chain(s0, positions@, 1) == s0);
                assert(i == 1);
            } else {
                assert(i == cycle_len);
            }
            assert(puzzle@ == swap_chain(s0, positions@, cycle_len as int));
        }
        if cycle_len >= 2 && cycle_len % 2 == 0 {
            puzzle.try_swap_pieces(n - 2, n - 1);
        }
    }
}

/// An invertible state (gap in the bottom right corner, even permutation of the pieces) is
/// solvable by rows.
pub proof fn lemma_invertible_solvable(p: &Puzzle)
    requires
        p.wf(),
        !is_line(p),
        invertible(p),
    ensures
        <RowGrids as Solvable>::spec_is_solvable(p),
{
    p.lemma_wf();
    assert(p.gx() == p.w() - 1 && p.gy() == p.h() - 1) by (nonlinear_arith)
        requires
            p.spec_gap() == p.w() * p.h() - 1,
            p.spec_gap() == p.gx() + p.w() * p.gy(),
            0 <= p.gx() < p.w(),
            0 <= p.gy() < p.h(),
    ;
    assert(gap_to_corner(p) == p@);
}

/// What [`RandomInvertibleState`] leaves is solvable by rows.
pub proof fn lemma_random_invertible_state_solvable(before: &Puzzle, after: &Puzzle)
    requires
        after.wf(),
        RandomInvertibleState.spec_valid_size(after.spec_size()),
        RandomInvertibleState.spec_scrambled(before, after),
    ensures
        <RowGrids as Solvable>::spec_is_solvable(after),
{
    lemma_invertible_solvable(after);
}

/// What [`RandomState`] leaves on a puzzle with at least two rows and two columns is solvable by
/// rows: an invertible state, with its gap then moved up and left. On a single row or column it
/// only moves the gap, which keeps solvability.
pub proof fn lemma_random_state_solvable(before: &Puzzle, after: &Puzzle)
    requires
        before.wf(),
        after.wf(),
        after.spec_size() == before.spec_size(),
        RandomState.spec_scrambled(before, after),
    ensures
        !is_line(before) ==> <RowGrids as Solvable>::spec_is_solvable(after),
        is_line(before) ==> <RowGrids as Solvable>::spec_is_solvable(after)
            == <RowGrids as Solvable>::spec_is_solvable(before),
{
    if is_line(before) {
        lemma_random_state_line(before, after);
    } else {
        lemma_random_state_grid(before, after);
    }
}

/// On a single row or column, [`RandomState`] moves the gap, which keeps solvability.
proof fn lemma_random_state_line(before: &Puzzle, after: &Puzzle)
    requires
        before.wf(),
        after.wf(),
        after.spec_size() == before.spec_size(),
        is_line(before),
        RandomState.spec_scrambled(before, after),
    ensures
        <RowGrids as Solvable>::spec_is_solvable(after) == <RowGrids as Solvable>::spec_is_solvable(
            before,
        ),
{
    let (w, h) = (before.w(), before.h());
    before.lemma_wf();
    after.lemma_wf();
    let vertical = w == 1;
    let from = if vertical { before.gy() } else { before.gx() };
    let len = if vertical { h } else { w };
    let t = choose|t: nat|
        #![trigger gap_move_to(from, t as int, vertical)]
        t < len && after@ == moved(
            before@,
            w,
            before.gx(),
            before.gy(),
            gap_move_to(from, t as int, vertical).direction,
            gap_move_to(from, t as int, vertical).amount as nat,
        );
    let mv = gap_move_to(from, t as int, vertical);
    assert(before.spec_can_apply_move(mv));
    let n = mv.amount as nat;
    lemma_offset_add(mv.direction, n as int, 0);
    lemma_moved_gap(before@, w, h, before.gx(), before.gy(), mv.direction, n);
    let (ex, ey) = (before.gx() + offset(mv.direction, n as int).0, before.gy() + offset(
        mv.direction,
        n as int,
    ).1);
    lemma_index_bound(ex, ey, w, h);
    assert(after@[ex + w * ey] == 0);
    if after.spec_gap() != ex + w * ey {
        assert(after@[after.spec_gap()] != after@[ex + w * ey]);
    }
    lemma_index_split(ex, ey, w);
    lemma_move_keeps_solvability(before, after, mv);
}

/// On a puzzle with at least two rows and two columns, [`RandomState`] leaves a solvable state.
proof fn lemma_random_state_grid(before: &Puzzle, after: &Puzzle)
    requires
        before.wf(),
        after.wf(),
        after.spec_size() == before.spec_size(),
        !is_line(before),
        RandomState.spec_scrambled(before, after),
    ensures
        <RowGrids as Solvable>::spec_is_solvable(after),
{
    let (w, h) = (before.w(), before.h());
    let (p, d, r) = choose|p: Puzzle, d: nat, r: nat|
        #![trigger invertible(&p), moved(p@, w, w - 1, h - 1, Direction::Down, d), moved(moved(p@, w, w - 1, h - 1, Direction::Down, d), w, w - 1, h - 1 - d, Direction::Right, r)]
        p.wf() && p.spec_size() == before.spec_size() && invertible(&p) && d < h && r < w
            && after@ == moved(
            moved(p@, w, w - 1, h - 1, Direction::Down, d),
            w,
            w - 1,
            h - 1 - d,
            Direction::Right,
            r,
        );
    p.lemma_wf();
    after.lemma_wf();
    lemma_invertible_solvable(&p);
    lemma_solvable_parity(&p);
    assert(p.gx() == p.w() - 1 && p.gy() == p.h() - 1) by (nonlinear_arith)
        requires
            p.spec_gap() == p.w() * p.h() - 1,
            p.spec_gap() == p.gx() + p.w() * p.gy(),
            0 <= p.gx() < p.w(),
            0 <= p.gy() < p.h(),
    ;
    lemma_offset_add(Direction::Down, d as int, 0);
    lemma_offset_add(Direction::Right, r as int, 0);
    let s1 = moved(p@, w, w - 1, h - 1, Direction::Down, d);
    lemma_moved_parity(p@, w, h, w - 1, h - 1, Direction::Down, d);
    lemma_moved_gap(p@, w, h, w - 1, h - 1, Direction::Down, d);
    lemma_moved_parity(s1, w, h, w - 1, h - 1 - d, Direction::Right, r);
    lemma_moved_gap(s1, w, h, w - 1, h - 1 - d, Direction::Right, r);
    // The gap ends at (w - 1 - r, h - 1 - d).
    let (ex, ey) = (w - 1 - r, h - 1 - d);
    lemma_index_bound(ex, ey, w, h);
    assert(after@[ex + w * ey] == 0);
    if after.spec_gap() != ex + w * ey {
        assert(after@[after.spec_gap()] != after@[ex + w * ey]);
    }
    lemma_index_split(ex, ey, w);
    assert(after.gx() == ex && after.gy() == ey);
    lemma_solvable_parity(after);
}

/// The parity of the pieces (with the gap counted as the last piece) differs from the parity of
/// the gap's distance to the bottom right corner.
pub open spec fn parity_mismatch(s: Seq<u64>, w: int, h: int, x: int, y: int) -> bool {
    odd_perm(gap_last(s)) != ((w - 1 - x + h - 1 - y) % 2 == 1)
}

/// A walk of single-tile moves keeps the pieces a permutation with the gap where the walk says,
/// keeps [`parity_mismatch`], and on a single row or column keeps the order of the pieces.
proof fn lemma_walk_keeps(s: Seq<u64>, w: int, h: int, gx: int, gy: int, dirs: Seq<Direction>)
    requires
        is_permutation(s),
        s.len() == w * h,
        s.len() <= u64::MAX,
        0 <= gx < w,
        0 <= gy < h,
        s[gx + w * gy] == 0,
    ensures
        ({
            let (s1, x1, y1) = walk(s, w, h, gx, gy, dirs);
            &&& is_permutation(s1)
            &&& s1.len() == s.len()
            &&& 0 <= x1 < w
            &&& 0 <= y1 < h
            &&& s1[x1 + w * y1] == 0
            &&& parity_mismatch(s1, w, h, x1, y1) == parity_mismatch(s, w, h, gx, gy)
            &&& (w == 1 || h == 1) ==> nonzero_pieces(s1) == nonzero_pieces(s)
        }),
    decreases dirs.len(),
{
    if dirs.len() > 0 {
        lemma_walk_keeps(s, w, h, gx, gy, dirs.drop_last());
        let (s1, x1, y1) = walk(s, w, h, gx, gy, dirs.drop_last());
        let d = dirs.last();
        if move_fits(w, h, x1, y1, Move { direction: d, amount: 1 }) {
            lemma_offset_add(d, 1, 0);
            lemma_moved_parity(s1, w, h, x1, y1, d, 1);
            lemma_moved_gap(s1, w, h, x1, y1, d, 1);
            if w == 1 || h == 1 {
                lemma_moved_line(s1, w, h, x1, y1, d, 1);
            }
            let (x2, y2) = (x1 + offset(d, 1).0, y1 + offset(d, 1).1);
            assert(((w - 1 - x2 + h - 1 - y2) % 2 == 1) != ((w - 1 - x1 + h - 1 - y1) % 2 == 1)) by {
                match d {
                    Direction::Up => {},
                    Direction::Left => {},
                    Direction::Down => {},
                    Direction::Right => {},
                }
            }
        }
    }
}

/// [`RandomMoves`] keeps solvability by rows: it only moves the gap.
pub proof fn lemma_random_moves_keep_solvability(
    scrambler: RandomMoves,
    before: &Puzzle,
    after: &Puzzle,
)
    requires
        before.wf(),
        after.wf(),
        after.spec_size() == before.spec_size(),
        scrambler.spec_scrambled(before, after),
    ensures
        <RowGrids as Solvable>::spec_is_solvable(after) == <RowGrids as Solvable>::spec_is_solvable(
            before,
        ),
{
    let (w, h) = (before.w(), before.h());
    let dirs = choose|dirs: Seq<Direction>|
        #![trigger walk(before@, before.w(), before.h(), before.gx(), before.gy(), dirs)]
        {
            &&& dirs.len() <= scrambler.moves
            &&& after@ == walk(before@, before.w(), before.h(), before.gx(), before.gy(), dirs).0
            &&& !scrambler.allow_illegal_moves ==> walk_legal(
                before@,
                before.w(),
                before.h(),
                before.gx(),
                before.gy(),
                dirs,
            )
            &&& !scrambler.allow_backtracking ==> no_backtracking(dirs)
        };
    before.lemma_wf();
    after.lemma_wf();
    lemma_walk_keeps(before@, w, h, before.gx(), before.gy(), dirs);
    let (s1, x1, y1) = walk(before@, w, h, before.gx(), before.gy(), dirs);
    lemma_index_bound(x1, y1, w, h);
    if after.spec_gap() != x1 + w * y1 {
        assert(after@[after.spec_gap()] != after@[x1 + w * y1]);
    }
    lemma_index_split(x1, y1, w);
    assert(after.gx() == x1 && after.gy() == y1);
    if is_line(before) {
        assert(is_line(after));
        assert forall|i: int| 0 <= i < nonzero_pieces(before@).len() implies line_position(after, i)
            == line_position(before, i) && line_position(after, nonzero_pieces(after@)[i] - 1)
            == line_position(before, nonzero_pieces(before@)[i] - 1) by {}
        assert(line_solvable(&RowGrids, after) == line_solvable(&RowGrids, before));
    } else {
        lemma_solvable_parity(before);
        lemma_solvable_parity(after);
    }
}

/// A chain of `k` exchanges with the first of `k` distinct positions, all before the last
/// position, flips the parity of the pieces `k - 1` times and leaves the last position alone.
proof fn lemma_swap_chain_parity(s: Seq<u64>, ps: Seq<usize>, k: int)
    requires
        is_permutation(s),
        s.len() <= u64::MAX,
        1 <= k <= ps.len(),
        forall|i: int| 0 <= i < k ==> (#[trigger] ps[i] as int) < s.len() - 1,
        forall|i: int, j: int| 0 <= i < j < k ==> #[trigger] ps[i] != #[trigger] ps[j],
    ensures
        is_permutation(swap_chain(s, ps, k)),
        swap_chain(s, ps, k).len() == s.len(),
        swap_chain(s, ps, k)[s.len() - 1] == s[s.len() - 1],
        odd_perm(gap_last(swap_chain(s, ps, k))) == (odd_perm(gap_last(s)) != ((k - 1) % 2 == 1)),
    decreases k,
{
    if k > 1 {
        lemma_swap_chain_parity(s, ps, k - 1);
        let t = swap_chain(s, ps, k - 1);
        let (a, b) = (ps[0] as int, ps[k - 1] as int);
        assert(ps[0] != ps[k - 1]);
        lemma_swap_permutation(t, a, b);
        lemma_gap_last_permutation(t);
        lemma_gap_last_swap(t, a, b);
        lemma_swap_parity(gap_last(t), a, b);
    }
}

/// [`Cycle`] keeps solvability by rows, when the gap is in the last position.
pub proof fn lemma_cycle_keeps_solvability(scrambler: Cycle, before: &Puzzle, after: &Puzzle)
    requires
        before.wf(),
        after.wf(),
        after.spec_size() == before.spec_size(),
        scrambler.spec_valid_size(before.spec_size()),
        before.spec_gap() == before@.len() - 1,
        scrambler.spec_scrambled(before, after),
    ensures
        <RowGrids as Solvable>::spec_is_solvable(after) == <RowGrids as Solvable>::spec_is_solvable(
            before,
        ),
{
    let n = before@.len() - 1;
    let k = cycle_len(scrambler.length as int, n);
    let ps = choose|ps: Seq<usize>|
        #![trigger swap_chain(before@, ps, k)]
        {
            &&& ps.len() == k
            &&& forall|i: int| 0 <= i < k ==> (#[trigger] ps[i] as int) < cycle_range(k, n)
            &&& forall|i: int, j: int| 0 <= i < j < k ==> #[trigger] ps[i] != #[trigger] ps[j]
            &&& after@ == if cycle_swaps_last(k) {
                swap_seq(swap_chain(before@, ps, k), n - 2, n - 1)
            } else {
                swap_chain(before@, ps, k)
            }
        };
    before.lemma_wf();
    after.lemma_wf();
    assert(n >= 3) by (nonlinear_arith)
        requires
            n + 1 == before.w() * before.h(),
            before.w() >= 2,
            before.h() >= 2,
    ;
    let t = swap_chain(before@, ps, k);
    if k == 0 {
        assert(t == before@);
    } else {
        assert(((k - 1) % 2 == 1) == cycle_swaps_last(k));
        lemma_swap_chain_parity(before@, ps, k);
    }
    if cycle_swaps_last(k) {
        lemma_swap_permutation(t, n - 2, n - 1);
        lemma_gap_last_permutation(t);
        lemma_gap_last_swap(t, n - 2, n - 1);
        lemma_swap_parity(gap_last(t), n - 2, n - 1);
    }
    // The gap stays in the last position.
    assert(after@[n] == 0);
    if after.spec_gap() != n {
        assert(after@[after.spec_gap()] != after@[n]);
    }
    lemma_invertible_corner(before);
    lemma_invertible_corner(after);
    lemma_solvable_parity(before);
    lemma_solvable_parity(after);
}

/// A puzzle with its gap in the last position has it in the bottom right corner.
proof fn lemma_invertible_corner(p: &Puzzle)
    requires
        p.wf(),
        p.spec_gap() == p@.len() - 1,
    ensures
        p.gx() == p.w() - 1,
        p.gy() == p.h() - 1,
{
    p.lemma_wf();
    assert(p.gx() == p.w() - 1 && p.gy() == p.h() - 1) by (nonlinear_arith)
        requires
            p.spec_gap() == p.w() * p.h() - 1,
            p.spec_gap() == p.gx() + p.w() * p.gy(),
            0 <= p.gx() < p.w(),
            0 <= p.gy() < p.h(),
    ;
}

} // verus!
