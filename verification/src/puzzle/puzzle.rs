//! Defines [`Puzzle`], a sliding puzzle of any size.

use vstd::prelude::*;

use crate::perm::{
    distinct_below, is_permutation, lemma_distinct_below_len, lemma_permutation_onto,
    lemma_swap_permutation, swap_seq,
};
use crate::puzzle::size::{group_size, Size, SizeError};
use crate::text::{
    char_is_whitespace, chars_of, is_ascii_digit, is_whitespace, parse_u64, parse_u64_error,
    parsed_u64, string_from_chars,
};

verus! {

broadcast use group_size;

/// A sliding puzzle. Position `i` (counting left to right along the top row, then along the
/// next rows) holds piece `i + 1` when the puzzle is solved; the last position holds the gap,
/// represented by 0.
#[derive(Clone, Debug, PartialEq, Eq, PartialOrd, Ord, Hash)]
pub struct Puzzle {
    pieces: Vec<u64>,
    size: Size,
    gap: u64,
}

/// Error type for [`Puzzle`].
#[derive(Clone, Debug, PartialEq, Eq, PartialOrd, Ord, Hash, Structural)]
pub enum PuzzleError {
    /// Returned when there was an error creating a [`Size`].
    InvalidSize(SizeError),
    /// Returned from [`Puzzle::new_from_grid`] when the given grid does not contain any pieces.
    Empty,
    /// Returned when the puzzle has rows of different lengths.
    UnequalRowLengths,
    /// Returned when the puzzle has a piece out of range (0 to `width * height - 1`).
    PieceOutOfRange(u64),
    /// Returned when the puzzle has multiple pieces with the same number.
    DuplicatePiece(u64),
    /// Returned from [`Puzzle::with_pieces`] when the list, free of duplicates and of numbers out
    /// of range, holds fewer numbers than the puzzle has positions (the number it holds).
    MissingPieces(u64),
}

/// The pieces of a solved puzzle with `n` positions: `1, 2, ..., n - 1, 0`.
pub open spec fn solved_pieces(n: nat) -> Seq<u64> {
    Seq::new(n, |i: int| if i == n - 1 { 0u64 } else { (i + 1) as u64 })
}

/// The first problem, scanning `s` from position `i` on, that keeps `s` from being the pieces of
/// a puzzle with `area` positions: a piece of `area` or more, or one seen before.
pub open spec fn first_bad_piece(s: Seq<u64>, area: nat, i: int) -> Option<PuzzleError>
    decreases s.len() - i,
{
    if i < 0 || i >= s.len() {
        None
    } else if s[i] >= area {
        Some(PuzzleError::PieceOutOfRange(s[i]))
    } else if s.take(i).contains(s[i]) {
        Some(PuzzleError::DuplicatePiece(s[i]))
    } else {
        first_bad_piece(s, area, i + 1)
    }
}

/// What [`Puzzle::with_pieces`] makes of `pieces` and `size`: the size and pieces of the new
/// puzzle, or the error.
pub open spec fn with_pieces_outcome(pieces: Seq<u64>, size: Size) -> Result<
    (Size, Seq<u64>),
    PuzzleError,
> {
    match first_bad_piece(pieces, size.spec_area(), 0) {
        Some(e) => Err(e),
        None => if pieces.len() < size.spec_area() {
            Err(PuzzleError::MissingPieces(pieces.len() as u64))
        } else {
            Ok((size, pieces))
        },
    }
}

/// What [`Puzzle::new_from_grid`] makes of a grid of rows.
pub open spec fn grid_outcome(grid: Seq<Seq<u64>>) -> Result<(Size, Seq<u64>), PuzzleError> {
    if grid.len() == 0 || grid[0].len() == 0 {
        Err(PuzzleError::Empty)
    } else if exists|r: int| 0 <= r < grid.len() && #[trigger] grid[r].len() != grid[0].len() {
        Err(PuzzleError::UnequalRowLengths)
    } else {
        with_pieces_outcome(grid.flatten(), Size::spec_new(grid[0].len() as u64, grid.len() as u64))
    }
}

/// `r` is the puzzle, or the error, that `outcome` describes.
pub open spec fn is_outcome(r: Result<Puzzle, PuzzleError>, outcome: Result<(Size, Seq<u64>), PuzzleError>) -> bool {
    match (r, outcome) {
        (Ok(p), Ok((size, pieces))) => p.wf() && p.spec_size() == size && p@ == pieces,
        (Err(e1), Err(e2)) => e1 == e2,
        _ => false,
    }
}

/// Finds [`first_bad_piece`] by comparing each number with those before it.
fn first_bad_piece_exec(pieces: &Vec<u64>, area: u64) -> (r: Option<PuzzleError>)
    ensures
        r == first_bad_piece(pieces@, area as nat, 0),
{
    let mut i: usize = 0;
    while i < pieces.len()
        invariant
            i <= pieces@.len(),
            first_bad_piece(pieces@, area as nat, 0) == first_bad_piece(pieces@, area as nat, i as int),
        decreases pieces@.len() - i,
    {
        let n = pieces[i];
        if n >= area {
            return Some(PuzzleError::PieceOutOfRange(n));
        }
        let mut k: usize = 0;
        while k < i
            invariant
                k <= i < pieces@.len(),
                n == pieces@[i as int],
                n < area,
                first_bad_piece(pieces@, area as nat, 0) == first_bad_piece(pieces@, area as nat, i as int),
                forall|j: int| 0 <= j < k ==> pieces@[j] != n,
            decreases i - k,
        {
            if pieces[k] == n {
                proof {
                    assert(pieces@.take(i as int)[k as int] == n);
                }
                return Some(PuzzleError::DuplicatePiece(n));
            }
            k = k + 1;
        }
        proof {
            assert(!pieces@.take(i as int).contains(n)) by {
                if pieces@.take(i as int).contains(n) {
                    let j = choose|j: int| 0 <= j < i && pieces@.take(i as int)[j] == n;
                    assert(pieces@[j] == n);
                }
            }
        }
        i = i + 1;
    }
    None
}

/// A list of distinct numbers below `area` has no bad piece.
pub proof fn lemma_distinct_no_bad_piece(s: Seq<u64>, area: nat, i: int)
    requires
        distinct_below(s, area as int),
        0 <= i,
    ensures
        first_bad_piece(s, area, i) is None,
    decreases s.len() - i,
{
    if i < s.len() {
        assert(!s.take(i).contains(s[i])) by {
            if s.take(i).contains(s[i]) {
                let j = choose|j: int| 0 <= j < i && s.take(i)[j] == s[i];
                assert(s[j] == s[i]);
            }
        }
        lemma_distinct_no_bad_piece(s, area, i + 1);
    }
}

proof fn lemma_first_bad_none(s: Seq<u64>, area: nat, i: int)
    requires
        0 <= i <= s.len(),
        first_bad_piece(s, area, 0) == first_bad_piece(s, area, i),
        distinct_below(s.take(i), area as int),
    ensures
        first_bad_piece(s, area, 0) is None ==> distinct_below(s, area as int),
    decreases s.len() - i,
{
    if i < s.len() && first_bad_piece(s, area, i) is None {
        assert(s[i] < area);
        assert(!s.take(i).contains(s[i]));
        assert(distinct_below(s.take(i + 1), area as int)) by {
            assert forall|a: int, b: int|
                0 <= a < i + 1 && 0 <= b < i + 1 && a != b implies #[trigger] s.take(i + 1)[a]
                != #[trigger] s.take(i + 1)[b] by {
                if a == i {
                    assert(s.take(i)[b] == s[b]);
                } else if b == i {
                    assert(s.take(i)[a] == s[a]);
                } else {
                    assert(s.take(i)[a] == s[a] && s.take(i)[b] == s[b]);
                }
            }
        }
        lemma_first_bad_none(s, area, i + 1);
    } else if i == s.len() {
        assert(s.take(i) =~= s);
    }
}

/// The flattening of `h` rows of length `w` has `w * h` entries.
proof fn lemma_flatten_len(grid: Seq<Seq<u64>>, w: int)
    requires
        forall|r: int| 0 <= r < grid.len() ==> #[trigger] grid[r].len() == w,
    ensures
        grid.flatten().len() == w * grid.len(),
    decreases grid.len(),
{
    if grid.len() > 0 {
        lemma_flatten_len(grid.drop_first(), w);
        assert(grid.first().len() == w);
        assert(grid.flatten() == grid.first() + grid.drop_first().flatten());
        assert(grid.flatten().len() == w + grid.drop_first().flatten().len());
        assert(grid.drop_first().len() == grid.len() - 1);
        let n = grid.len() as int;
        let m = grid.drop_first().len() as int;
        assert(w * n == w + w * m) by (nonlinear_arith)
            requires
                m == n - 1,
        ;
    } else {
        assert(grid.flatten().len() == 0);
        assert(w * 0 == 0);
    }
}

impl View for Puzzle {
    type V = Seq<u64>;

    /// The pieces, position by position.
    closed spec fn view(&self) -> Seq<u64> {
        self.pieces@
    }
}

impl Puzzle {
    /// The size, in specifications.
    pub closed spec fn spec_size(&self) -> Size {
        self.size
    }

    /// The position of the gap, in specifications.
    pub closed spec fn spec_gap(&self) -> int {
        self.gap as int
    }

    /// A well-formed puzzle holds each of `0..area` once, and knows where its gap is.
    pub open spec fn wf(&self) -> bool {
        &&& self@.len() == self.spec_size().spec_area()
        &&& self.spec_size().area_fits()
        &&& self@.len() <= usize::MAX
        &&& is_permutation(self@)
        &&& 0 <= self.spec_gap() < self@.len()
        &&& self@[self.spec_gap()] == 0
    }

    /// Create a new [`Puzzle`] of a given size in the solved state.
    pub fn new(size: Size) -> (r: Self)
        requires
            size.area_fits(),
        ensures
            r.wf(),
            r.spec_size() == size,
            r@ == solved_pieces(size.spec_area()),
    {
        let area = size.area();
        let w = size.width();
        let h = size.height();
        proof {
            crate::arith::lemma_mul_ge(w as int, h as int);
        }
        let mut v: Vec<u64> = Vec::new();
        let mut i: u64 = 1;
        while i < area
            invariant
                1 <= i <= area,
                area == size.spec_area(),
                v@.len() == i - 1,
                forall|k: int| 0 <= k < v@.len() ==> v@[k] == k + 1,
            decreases area - i,
        {
            v.push(i);
            i = i + 1;
        }
        v.push(0);
        assert(v.len() <= usize::MAX);
        let p = Self { pieces: v, size, gap: area - 1 };
        assert(p@ =~= solved_pieces(size.spec_area()));
        assert(is_permutation(p@)) by {
            assert forall|a: int, b: int|
                0 <= a < p@.len() && 0 <= b < p@.len() && a != b implies #[trigger] p@[a]
                != #[trigger] p@[b] by {
            }
        }
        p
    }

    /// Create a new [`Puzzle`] from a list of numbers and a size.
    ///
    /// The list must hold `width * height` numbers: with more, it always holds a duplicate or a
    /// number out of range; with fewer, the error is [`PuzzleError::MissingPieces`].
    pub fn with_pieces(pieces: Vec<u64>, size: Size) -> (r: Result<Self, PuzzleError>)
        requires
            size.area_fits(),
        ensures
            is_outcome(r, with_pieces_outcome(pieces@, size)),
    {
        let w = size.width();
        let h = size.height();
        proof {
            crate::arith::lemma_mul_ge(w as int, h as int);
        }
        assert(pieces.len() <= usize::MAX);
        let area = size.area();
        if (pieces.len() as u64) < area {
            // Too few numbers: the first bad one, if any, else the missing ones.
            return match first_bad_piece_exec(&pieces, area) {
                Some(e) => Err(e),
                None => Err(PuzzleError::MissingPieces(pieces.len() as u64)),
            };
        }
        let mut seen: Vec<bool> = Vec::new();
        while seen.len() < area as usize
            invariant
                seen@.len() <= area,
                area == size.spec_area(),
                area <= pieces@.len(),
                forall|k: int| 0 <= k < seen@.len() ==> !seen@[k],
            decreases area - seen@.len(),
        {
            seen.push(false);
        }
        let mut gap: Option<u64> = None;
        let mut i: usize = 0;
        while i < pieces.len()
            invariant
                i <= pieces@.len(),
                area == size.spec_area(),
                area <= pieces@.len(),
                seen@.len() == area,
                first_bad_piece(pieces@, area as nat, 0) == first_bad_piece(pieces@, area as nat, i as int),
                distinct_below(pieces@.take(i as int), area as int),
                forall|v: int| 0 <= v < area ==> #[trigger] seen@[v] == pieces@.take(i as int).contains(v as u64),
                gap matches Some(g) ==> g < i && pieces@[g as int] == 0,
                gap is None ==> !pieces@.take(i as int).contains(0),
            decreases pieces@.len() - i,
        {
            let n = pieces[i];
            if n >= area {
                return Err(PuzzleError::PieceOutOfRange(n));
            }
            if seen[n as usize] {
                return Err(PuzzleError::DuplicatePiece(n));
            }
            seen.set(n as usize, true);
            if n == 0 {
                gap = Some(i as u64);
            }
            proof {
                let t = pieces@.take(i as int);
                let t2 = pieces@.take(i + 1);
                assert(t2 =~= t.push(n));
                assert forall|a: int, b: int|
                        0 <= a < t2.len() && 0 <= b < t2.len() && a != b implies #[trigger] t2[a]
                    != #[trigger] t2[b] by {
                    if a == i {
                        assert(t.contains(t2[b]) ==> true);
                        assert(t2[b] == t[b]);
                    } else if b == i {
                        assert(t2[a] == t[a]);
                    } else {
                        assert(t2[a] == t[a] && t2[b] == t[b]);
                    }
                }
                assert forall|v: int| 0 <= v < area implies #[trigger] seen@[v]
                    == t2.contains(v as u64) by {
                    if t.contains(v as u64) {
                        let k = choose|k: int| 0 <= k < t.len() && t[k] == v as u64;
                        assert(t2[k] == v as u64);
                    }
                    if v == n {
                        assert(t2[i as int] == n);
                    }
                    if t2.contains(v as u64) && v != n {
                        let k = choose|k: int| 0 <= k < t2.len() && t2[k] == v as u64;
                        assert(t[k] == v as u64);
                    }
                }
                if gap is None {
                    assert(!t2.contains(0)) by {
                        if t2.contains(0) {
                            let k = choose|k: int| 0 <= k < t2.len() && t2[k] == 0;
                            assert(k != i);
                            assert(t[k] == 0);
                        }
                    }
                }
            }
            i = i + 1;
        }
        proof {
            assert(pieces@.take(pieces@.len() as int) =~= pieces@);
            lemma_distinct_below_len(pieces@, area as int);
            lemma_first_bad_none(pieces@, area as nat, pieces@.len() as int);
        }
        if pieces.len() < area as usize {
            return Err(PuzzleError::MissingPieces(pieces.len() as u64));
        }
        proof {
            lemma_permutation_onto(pieces@, 0);
        }
        let g = match gap {
            Some(g) => g,
            None => {
                proof {
                    let k = choose|k: int| 0 <= k < pieces@.len() && pieces@[k] == 0;
                    assert(pieces@.take(pieces@.len() as int)[k] == 0);
                }
                0
            },
        };
        assert(pieces.len() <= usize::MAX);
        Ok(Self { pieces, size, gap: g })
    }

    /// Create a new [`Puzzle`] from a 2D grid of numbers.
    pub fn new_from_grid(grid: Vec<Vec<u64>>) -> (r: Result<Self, PuzzleError>)
        ensures
            is_outcome(r, grid_outcome(grid@.map_values(|row: Vec<u64>| row@))),
    {
        let ghost g = grid@.map_values(|row: Vec<u64>| row@);
        if grid.len() == 0 {
            return Err(PuzzleError::Empty);
        }
        if grid[0].len() == 0 {
            assert(g[0] == grid@[0]@);
            return Err(PuzzleError::Empty);
        }
        let w = grid[0].len();
        let h = grid.len();
        let mut r: usize = 0;
        while r < h
            invariant
                r <= h == grid@.len(),
                w == grid@[0]@.len(),
                w > 0,
                g == grid@.map_values(|row: Vec<u64>| row@),
                forall|k: int| 0 <= k < r ==> #[trigger] g[k].len() == w,
            decreases h - r,
        {
            if grid[r].len() != w {
                assert(g[r as int] == grid@[r as int]@);
                assert(g[0] == grid@[0]@);
                assert(g[r as int].len() != g[0].len());
                return Err(PuzzleError::UnequalRowLengths);
            }
            r = r + 1;
        }
        let mut pieces: Vec<u64> = Vec::new();
        let mut r: usize = 0;
        while r < h
            invariant
                r <= h == grid@.len(),
                g == grid@.map_values(|row: Vec<u64>| row@),
                pieces@ == g.take(r as int).flatten(),
            decreases h - r,
        {
            let row = &grid[r];
            let mut c: usize = 0;
            let ghost before = pieces@;
            while c < row.len()
                invariant
                    c <= row@.len(),
                    pieces@ == before + row@.take(c as int),
                decreases row@.len() - c,
            {
                pieces.push(row[c]);
                c = c + 1;
                assert(pieces@ =~= before + row@.take(c as int));
            }
            proof {
                assert(row@.take(c as int) =~= row@);
                assert(g.take(r + 1).drop_last() =~= g.take(r as int));
                lemma_flatten_push(g.take(r as int), g[r as int]);
                assert(g.take(r + 1) =~= g.take(r as int).push(g[r as int]));
            }
            r = r + 1;
        }
        proof {
            assert(g.take(h as int) =~= g);
            lemma_flatten_len(g, w as int);
        }
        let size = match Size::new(w as u64, h as u64) {
            Ok(s) => s,
            Err(e) => {
                return Err(PuzzleError::InvalidSize(e));
            },
        };
        assert(g[0].len() == w);
        assert(pieces@.len() == size.spec_area());
        assert(pieces.len() <= usize::MAX && usize::MAX <= u64::MAX);
        Self::with_pieces(pieces, size)
    }

    /// Parses a puzzle from text: rows of numbers separated by whitespace, each row ending at a
    /// new line or `/`. See [`parse_outcome`].
    pub fn from_str(s: &str) -> (r: Result<Self, ParsePuzzleError>)
        ensures
            is_parse_outcome(r, parse_outcome(s@)),
    {
        let cs = chars_of(s);
        let n = cs.len();
        // Check that no invalid characters are used.
        let mut i: usize = 0;
        while i < n
            invariant
                i <= n == cs@.len(),
                cs@ == s@,
                forall|j: int| 0 <= j < i ==> puzzle_char(#[trigger] cs@[j]),
            decreases n - i,
        {
            let c = cs[i];
            if !(char_is_whitespace(c) || ('0' <= c && c <= '9') || c == '/') {
                proof {
                    lemma_first_bad_char(cs@, i as int);
                    assert(cs@.skip(i as int)[0] == c);
                }
                return Err(ParsePuzzleError::InvalidCharacter(c));
            }
            i = i + 1;
        }
        proof {
            lemma_first_bad_char(cs@, n as int);
            assert(cs@.skip(n as int).len() == 0);
        }
        // Read the rows of numbers.
        let mut grid: Vec<Vec<u64>> = Vec::new();
        let mut row: Vec<u64> = Vec::new();
        let mut run: Vec<char> = Vec::new();
        let mut i: usize = 0;
        assert(cs@.take(0) == Seq::<char>::empty());
        while i < n
            invariant
                i <= n == cs@.len(),
                cs@ == s@,
                first_bad_char(s@) is None,
                run@ == scan_rows(cs@.take(i as int)).2,
                row@ == row_values(scan_rows(cs@.take(i as int)).1),
                grid@.map_values(|r: Vec<u64>| r@) == scan_rows(cs@.take(i as int)).0.map_values(
                    |row: Seq<Seq<char>>| row_values(row),
                ),
                first_bad_number(finished_numbers(cs@.take(i as int))) is None,
            decreases n - i,
        {
            let c = cs[i];
            let ghost t = cs@.take(i + 1);
            proof {
                assert(t.drop_last() == cs@.take(i as int));
                assert(t.last() == c);
                lemma_finished_step(t);
            }
            if '0' <= c && c <= '9' {
                run.push(c);
                assert(first_bad_number(finished_numbers(t)) is None);
            } else {
                if run.len() > 0 {
                    let text = string_from_chars(&run);
                    match parse_u64(text.as_str()) {
                        Ok(v) => {
                            let ghost old_row = row@;
                            row.push(v);
                            proof {
                                let sp = scan_rows(cs@.take(i as int)).1;
                                assert(row_values(sp.push(run@)) == row_values(sp).push(v));
                                let f = finished_numbers(cs@.take(i as int));
                                lemma_first_bad_number_append(f, seq![run@]);
                                assert(f.push(run@) == f + seq![run@]);
                                assert(seq![run@][0] == run@);
                                assert(seq![run@].drop_first() == Seq::<Seq<char>>::empty());
                                assert(first_bad_number(Seq::<Seq<char>>::empty()) is None);
                                assert(parsed_u64(run@) is Some);
                                assert(first_bad_number(seq![run@]) is None);
                                assert(first_bad_number(finished_numbers(t)) is None);
                            }
                        },
                        Err(e) => {
                            proof {
                                let f = finished_numbers(cs@.take(i as int));
                                lemma_first_bad_number_append(f, seq![run@]);
                                assert(f.push(run@) == f + seq![run@]);
                                assert(seq![run@][0] == run@);
                                lemma_finished_prefix(cs@, i + 1);
                                let all = text_rows(cs@).flatten();
                                let ft = finished_numbers(t);
                                assert(all == ft + all.skip(ft.len() as int));
                                lemma_first_bad_number_append(ft, all.skip(ft.len() as int));
                            }
                            return Err(ParsePuzzleError::ParseIntError(e));
                        },
                    }
                    run = Vec::new();
                }
                if c == '\n' || c == '/' {
                    grid.push(row);
                    row = Vec::new();
                    proof {
                        let (rows, rw, rn) = scan_rows(cs@.take(i as int));
                        assert(rows.push(close_run(rw, rn)).map_values(
                            |row: Seq<Seq<char>>| row_values(row),
                        ) == rows.map_values(|row: Seq<Seq<char>>| row_values(row)).push(
                            row_values(close_run(rw, rn)),
                        ));
                        assert(row_values(Seq::empty()) == Seq::<u64>::empty());
                    }
                }
            }
            i = i + 1;
        }
        proof {
            assert(cs@.take(n as int) == cs@);
            lemma_text_rows_flatten(cs@);
        }
        // Append the last row.
        let ghost (rows, rw, rn) = scan_rows(cs@);
        let ghost f = finished_numbers(cs@);
        proof {
            assert(first_bad_number(Seq::<Seq<char>>::empty()) is None);
            assert(seq![rn][0] == rn);
            assert(seq![rn].drop_first() == Seq::<Seq<char>>::empty());
            lemma_first_bad_number_append(f, seq![rn]);
            lemma_first_bad_number_append(f, Seq::empty());
            assert(f + Seq::<Seq<char>>::empty() == f);
        }
        if run.len() > 0 {
            let text = string_from_chars(&run);
            match parse_u64(text.as_str()) {
                Ok(v) => {
                    row.push(v);
                    proof {
                        assert(row_values(rw.push(rn)) == row_values(rw).push(v));
                    }
                },
                Err(e) => {
                    return Err(ParsePuzzleError::ParseIntError(e));
                },
            }
        }
        proof {
            assert(first_bad_number(text_rows(cs@).flatten()) is None);
            assert(row@ == row_values(close_run(rw, rn)));
            assert(rows.push(close_run(rw, rn)).map_values(|row: Seq<Seq<char>>| row_values(row))
                == rows.map_values(|row: Seq<Seq<char>>| row_values(row)).push(
                row_values(close_run(rw, rn)),
            ));
        }
        grid.push(row);
        proof {
            assert(grid@.map_values(|r: Vec<u64>| r@) == text_rows(cs@).map_values(
                |row: Seq<Seq<char>>| row_values(row),
            ));
        }
        match Self::new_from_grid(grid) {
            Ok(p) => Ok(p),
            Err(e) => Err(ParsePuzzleError::PuzzleError(e)),
        }
    }

    /// A copy of the puzzle.
    pub fn duplicate(&self) -> (r: Self)
        requires
            self.wf(),
        ensures
            r.wf(),
            r.spec_size() == self.spec_size(),
            r.spec_gap() == self.spec_gap(),
            r@ == self@,
    {
        let mut pieces: Vec<u64> = Vec::new();
        let mut i: usize = 0;
        while i < self.pieces.len()
            invariant
                i <= self.pieces@.len(),
                pieces@ == self.pieces@.take(i as int),
            decreases self.pieces@.len() - i,
        {
            pieces.push(self.pieces[i]);
            i = i + 1;
            assert(pieces@ == self.pieces@.take(i as int));
        }
        assert(self.pieces@.take(i as int) == self.pieces@);
        Self { pieces, size: self.size, gap: self.gap }
    }

    /// Size of the puzzle.
    pub fn size(&self) -> (r: Size)
        ensures
            r == self.spec_size(),
    {
        self.size
    }

    /// Position of the empty space.
    pub fn gap_position(&self) -> (r: u64)
        ensures
            r == self.spec_gap(),
    {
        self.gap
    }

    /// The piece at a given position.
    pub fn piece_at(&self, idx: u64) -> (r: u64)
        requires
            self.wf(),
            idx < self@.len(),
        ensures
            r == self@[idx as int],
    {
        self.pieces[idx as usize]
    }

    /// Swaps the pieces at positions `idx1` and `idx2`.
    pub fn swap_pieces(&mut self, idx1: u64, idx2: u64)
        requires
            old(self).wf(),
            idx1 < old(self)@.len(),
            idx2 < old(self)@.len(),
        ensures
            final(self).wf(),
            final(self).spec_size() == old(self).spec_size(),
            final(self)@ == swap_seq(old(self)@, idx1 as int, idx2 as int),
    {
        proof {
            lemma_swap_permutation(self@, idx1 as int, idx2 as int);
        }
        let a = self.pieces[idx1 as usize];
        let b = self.pieces[idx2 as usize];
        self.pieces.set(idx1 as usize, b);
        self.pieces.set(idx2 as usize, a);
        if b == 0 {
            self.gap = idx1;
        } else if a == 0 {
            self.gap = idx2;
        }
        assert(self@ =~= swap_seq(old(self)@, idx1 as int, idx2 as int));
    }

    /// Swaps piece in position `idx` with the gap.
    pub fn swap_piece_with_gap(&mut self, idx: u64)
        requires
            old(self).wf(),
            idx < old(self)@.len(),
        ensures
            final(self).wf(),
            final(self).spec_size() == old(self).spec_size(),
            final(self)@ == swap_seq(old(self)@, old(self).spec_gap(), idx as int),
            final(self).spec_gap() == idx,
    {
        proof {
            lemma_swap_permutation(self@, self.gap as int, idx as int);
        }
        let p = self.pieces[idx as usize];
        let g = self.gap as usize;
        self.pieces.set(g, p);
        self.pieces.set(idx as usize, 0);
        self.gap = idx;
        assert(self@ =~= swap_seq(old(self)@, old(self).spec_gap(), idx as int));
    }

    /// The position of `piece` when the puzzle is solved: `piece - 1`, or the last position for
    /// the gap.
    pub fn solved_pos(&self, piece: u64) -> (r: u64)
        requires
            self.wf(),
        ensures
            r == if piece == 0 {
                self@.len() - 1
            } else {
                piece - 1
            },
    {
        if piece == 0 {
            self.size.num_pieces()
        } else {
            piece - 1
        }
    }
}

/// Error type for [`Puzzle::from_str`].
#[derive(Clone, Debug, PartialEq, Eq)]
pub enum ParsePuzzleError {
    /// Returned when an unexpected character is found.
    InvalidCharacter(char),
    /// Returned when an integer parse fails.
    ParseIntError(std::num::ParseIntError),
    /// Returned when the string is parsed successfully, but creating a [`Puzzle`] fails.
    PuzzleError(PuzzleError),
}

/// A character that may appear in the text of a puzzle: whitespace, an ASCII digit or `/`.
pub open spec fn puzzle_char(c: char) -> bool {
    is_whitespace(c) || is_ascii_digit(c) || c == '/'
}

/// The first character of `s` that may not appear in the text of a puzzle.
pub open spec fn first_bad_char(s: Seq<char>) -> Option<char>
    decreases s.len(),
{
    if s.len() == 0 {
        None
    } else if !puzzle_char(s[0]) {
        Some(s[0])
    } else {
        first_bad_char(s.drop_first())
    }
}

/// A character that ends a row: a new line or `/`.
pub open spec fn row_break(c: char) -> bool {
    c == '\n' || c == '/'
}

/// The numbers of a row, with the number being read appended if there is one.
pub open spec fn close_run(row: Seq<Seq<char>>, run: Seq<char>) -> Seq<Seq<char>> {
    if run.len() > 0 {
        row.push(run)
    } else {
        row
    }
}

/// Reading the text `s` from the left: the finished rows, the numbers of the current row, and the
/// digits of the number being read. Numbers are runs of ASCII digits; rows end at each new line
/// or `/`.
pub open spec fn scan_rows(s: Seq<char>) -> (Seq<Seq<Seq<char>>>, Seq<Seq<char>>, Seq<char>)
    decreases s.len(),
{
    if s.len() == 0 {
        (Seq::empty(), Seq::empty(), Seq::empty())
    } else {
        let (rows, row, run) = scan_rows(s.drop_last());
        let c = s.last();
        if is_ascii_digit(c) {
            (rows, row, run.push(c))
        } else if row_break(c) {
            (rows.push(close_run(row, run)), Seq::empty(), Seq::empty())
        } else {
            (rows, close_run(row, run), Seq::empty())
        }
    }
}

/// The rows of the text `s`, each a sequence of numbers written in decimal.
pub open spec fn text_rows(s: Seq<char>) -> Seq<Seq<Seq<char>>> {
    let (rows, row, run) = scan_rows(s);
    rows.push(close_run(row, run))
}

/// The numbers that reading `s` has finished, in order.
pub open spec fn finished_numbers(s: Seq<char>) -> Seq<Seq<char>> {
    scan_rows(s).0.flatten() + scan_rows(s).1
}

/// The first number of `ts` that does not fit in a `u64`.
pub open spec fn first_bad_number(ts: Seq<Seq<char>>) -> Option<Seq<char>>
    decreases ts.len(),
{
    if ts.len() == 0 {
        None
    } else if parsed_u64(ts[0]) is None {
        Some(ts[0])
    } else {
        first_bad_number(ts.drop_first())
    }
}

/// The value of a number that fits in a `u64`.
pub open spec fn number_value(t: Seq<char>) -> u64 {
    match parsed_u64(t) {
        Some(v) => v,
        None => 0,
    }
}

/// The values of a row of numbers.
pub open spec fn row_values(row: Seq<Seq<char>>) -> Seq<u64> {
    row.map_values(|t: Seq<char>| number_value(t))
}

/// What [`Puzzle::from_str`] makes of the text `s`: the size and pieces of the puzzle, or the
/// error. The text may hold only whitespace, ASCII digits and `/`; it is read as rows of numbers,
/// rows ending at each new line or `/`, and the rows make the puzzle as in
/// [`Puzzle::new_from_grid`].
pub open spec fn parse_outcome(s: Seq<char>) -> Result<(Size, Seq<u64>), ParsePuzzleError> {
    match first_bad_char(s) {
        Some(c) => Err(ParsePuzzleError::InvalidCharacter(c)),
        None => match first_bad_number(text_rows(s).flatten()) {
            Some(t) => Err(ParsePuzzleError::ParseIntError(parse_u64_error(t))),
            None => match grid_outcome(text_rows(s).map_values(|row: Seq<Seq<char>>| row_values(row))) {
                Ok(x) => Ok(x),
                Err(e) => Err(ParsePuzzleError::PuzzleError(e)),
            },
        },
    }
}

/// `r` is the puzzle, or the error, that `outcome` describes.
pub open spec fn is_parse_outcome(
    r: Result<Puzzle, ParsePuzzleError>,
    outcome: Result<(Size, Seq<u64>), ParsePuzzleError>,
) -> bool {
    match (r, outcome) {
        (Ok(p), Ok((size, pieces))) => p.wf() && p.spec_size() == size && p@ == pieces,
        (Err(e1), Err(e2)) => e1 == e2,
        _ => false,
    }
}

/// The first bad number of two sequences one after the other.
proof fn lemma_first_bad_number_append(a: Seq<Seq<char>>, b: Seq<Seq<char>>)
    ensures
        first_bad_number(a + b) == if first_bad_number(a) is Some {
            first_bad_number(a)
        } else {
            first_bad_number(b)
        },
    decreases a.len(),
{
    if a.len() > 0 {
        assert((a + b).drop_first() == a.drop_first() + b);
        assert((a + b)[0] == a[0]);
        lemma_first_bad_number_append(a.drop_first(), b);
    } else {
        assert(a + b == b);
    }
}

/// Reading one more character finishes at most the number being read, which then comes after the
/// numbers finished before.
proof fn lemma_finished_step(s: Seq<char>)
    requires
        s.len() > 0,
    ensures
        ({
            let (rows, row, run) = scan_rows(s.drop_last());
            finished_numbers(s) == if !is_ascii_digit(s.last()) && run.len() > 0 {
                finished_numbers(s.drop_last()).push(run)
            } else {
                finished_numbers(s.drop_last())
            }
        }),
{
    let (rows, row, run) = scan_rows(s.drop_last());
    let c = s.last();
    if !is_ascii_digit(c) && row_break(c) {
        lemma_flatten_push(rows, close_run(row, run));
        assert(Seq::<Seq<char>>::empty() + Seq::empty() == Seq::<Seq<char>>::empty());
    }
}

/// The numbers finished after reading a prefix of `s` begin the numbers of the whole text.
proof fn lemma_finished_prefix(s: Seq<char>, i: int)
    requires
        0 <= i <= s.len(),
    ensures
        text_rows(s).flatten().take(finished_numbers(s.take(i)).len() as int) == finished_numbers(
            s.take(i),
        ),
        finished_numbers(s.take(i)).len() <= text_rows(s).flatten().len(),
    decreases s.len() - i,
{
    if i == s.len() {
        assert(s.take(i) == s);
        let (rows, row, run) = scan_rows(s);
        lemma_flatten_push(rows, close_run(row, run));
        assert(text_rows(s).flatten() == finished_numbers(s) + (if run.len() > 0 {
            seq![run]
        } else {
            Seq::empty()
        }));
    } else {
        lemma_finished_prefix(s, i + 1);
        assert(s.take(i + 1).drop_last() == s.take(i));
        lemma_finished_step(s.take(i + 1));
    }
}

/// The numbers of the whole text are those finished at its end, then the number being read.
proof fn lemma_text_rows_flatten(s: Seq<char>)
    ensures
        text_rows(s).flatten() == finished_numbers(s) + (if scan_rows(s).2.len() > 0 {
            seq![scan_rows(s).2]
        } else {
            Seq::empty()
        }),
{
    let (rows, row, run) = scan_rows(s);
    lemma_flatten_push(rows, close_run(row, run));
}

/// The first bad character is found by reading past good ones.
proof fn lemma_first_bad_char(s: Seq<char>, i: int)
    requires
        0 <= i <= s.len(),
        forall|j: int| 0 <= j < i ==> puzzle_char(#[trigger] s[j]),
    ensures
        first_bad_char(s) == first_bad_char(s.skip(i)),
    decreases i,
{
    if i > 0 {
        lemma_first_bad_char(s, i - 1);
        assert(s.skip(i - 1)[0] == s[i - 1]);
        assert(s.skip(i - 1).drop_first() == s.skip(i));
    } else {
        assert(s.skip(0) == s);
    }
}

/// Flattening a list of rows with one more row appends that row.
pub proof fn lemma_flatten_push<A>(rows: Seq<Seq<A>>, row: Seq<A>)
    ensures
        rows.push(row).flatten() == rows.flatten() + row,
    decreases rows.len(),
{
    if rows.len() == 0 {
        assert(rows.push(row).drop_first() =~= Seq::<Seq<A>>::empty());
        assert(rows.push(row).flatten() =~= row + Seq::<Seq<A>>::empty().flatten());
    } else {
        lemma_flatten_push(rows.drop_first(), row);
        assert(rows.push(row).drop_first() =~= rows.drop_first().push(row));
        assert(rows.push(row).flatten() =~= rows.flatten() + row);
    }
}

impl std::str::FromStr for Puzzle {
    type Err = ParsePuzzleError;

    /// See [`Puzzle::from_str`].
    fn from_str(s: &str) -> (r: Result<Self, Self::Err>)
        ensures
            is_parse_outcome(r, parse_outcome(s@)),
    {
        Puzzle::from_str(s)
    }
}

impl Default for Puzzle {
    /// The solved 4x4 puzzle.
    fn default() -> (r: Self)
        ensures
            r.wf(),
            r.spec_size() == Size::spec_new(4, 4),
            r@ == solved_pieces(16),
    {
        let size = Size::default();
        Self::new(size)
    }
}

} // verus!
