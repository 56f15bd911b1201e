//! Defines ways in which a [`Puzzle`] can be displayed.

pub mod puzzle;

use vstd::prelude::*;

use crate::perm::is_permutation;
use crate::puzzle::puzzle::{
    close_run, first_bad_char, first_bad_number, first_bad_piece, grid_outcome, lemma_flatten_push,
    number_value, parse_outcome, puzzle_char, row_values, scan_rows, text_rows, Puzzle,
};
use crate::puzzle::size::{group_size, Size};
use crate::text::{
    decimal, decimal_chars, is_ascii_digit, lemma_decimal_digits,
    parsed_u64, string_from_chars,
};

verus! {

broadcast use group_size;

/// The pieces `items` joined with `sep` between each two.
pub open spec fn join(items: Seq<Seq<char>>, sep: char) -> Seq<char>
    decreases items.len(),
{
    if items.len() == 0 {
        Seq::empty()
    } else if items.len() == 1 {
        items[0]
    } else {
        join(items.drop_last(), sep) + seq![sep] + items.last()
    }
}

/// `d` with spaces in front, to make it at least `width` characters long.
pub open spec fn pad_left(d: Seq<char>, width: int) -> Seq<char> {
    if d.len() >= width {
        d
    } else {
        Seq::new((width - d.len()) as nat, |i: int| ' ') + d
    }
}

/// The text of a puzzle with pieces `s`, `w` wide and `h` high: the rows joined with `row_sep`,
/// each the decimal numbers of its pieces, padded on the left to `width` characters and joined
/// with spaces.
pub open spec fn puzzle_text(s: Seq<u64>, w: int, h: int, width: int, row_sep: char) -> Seq<char> {
    join(
        Seq::new(
            h as nat,
            |y: int|
                join(Seq::new(w as nat, |x: int| pad_left(decimal(s[x + w * y] as nat), width)), ' '),
        ),
        row_sep,
    )
}

/// The width of the numbers in [`DisplayGrid`]: the number of digits of the largest piece.
pub open spec fn grid_width(puzzle: &Puzzle) -> int {
    decimal((puzzle@.len() - 1) as nat).len() as int
}

/// Joining one more item.
proof fn lemma_join_push(items: Seq<Seq<char>>, item: Seq<char>, sep: char)
    ensures
        join(items.push(item), sep) == if items.len() == 0 {
            item
        } else {
            join(items, sep) + seq![sep] + item
        },
{
    assert(items.push(item).drop_last() == items);
    if items.len() == 0 {
        assert(items.push(item)[0] == item);
    }
}

/// The text of `puzzle`, with each number padded to `width` characters and rows joined with
/// `row_sep`.
fn puzzle_text_exec(puzzle: &Puzzle, width: usize, row_sep: char) -> (r: String)
    requires
        puzzle.wf(),
    ensures
        r@ == puzzle_text(puzzle@, puzzle.w(), puzzle.h(), width as int, row_sep),
{
    let size = puzzle.size();
    let (w, h) = (size.width(), size.height());
    let ghost rows = Seq::new(
        h as nat,
        |y: int|
            join(
                Seq::new(
                    w as nat,
                    |x: int| pad_left(decimal(puzzle@[x + w * y] as nat), width as int),
                ),
                ' ',
            ),
    );
    let mut out: Vec<char> = Vec::new();
    let mut y: u64 = 0;
    proof {
        puzzle.lemma_wf();
        assert(rows.take(0) == Seq::<Seq<char>>::empty());
    }
    while y < h
        invariant
            puzzle.wf(),
            w == puzzle.w(),
            h == puzzle.h(),
            y <= h,
            rows == Seq::new(
                h as nat,
                |y: int|
                    join(
                        Seq::new(
                            w as nat,
                            |x: int| pad_left(decimal(puzzle@[x + w * y] as nat), width as int),
                        ),
                        ' ',
                    ),
            ),
            out@ == join(rows.take(y as int), row_sep),
        decreases h - y,
    {
        let ghost cells = Seq::new(
            w as nat,
            |x: int| pad_left(decimal(puzzle@[x + w * y] as nat), width as int),
        );
        let mut line: Vec<char> = Vec::new();
        let mut x: u64 = 0;
        assert(cells.take(0) == Seq::<Seq<char>>::empty());
        while x < w
            invariant
                puzzle.wf(),
                w == puzzle.w(),
                h == puzzle.h(),
                y < h,
                x <= w,
                cells == Seq::new(
                    w as nat,
                    |x: int| pad_left(decimal(puzzle@[x + w * y] as nat), width as int),
                ),
                line@ == join(cells.take(x as int), ' '),
            decreases w - x,
        {
            proof {
                crate::arith::lemma_index_bound(x as int, y as int, w as int, h as int);
            }
            let n = puzzle.piece_at_xy((x, y));
            let digits = decimal_chars(n);
            let ghost before = line@;
            if x > 0 {
                line.push(' ');
            }
            // Pad with spaces on the left.
            let mut k: usize = digits.len();
            while k < width
                invariant
                    digits@.len() <= k <= width || (k == digits@.len() && k >= width),
                    line@ == (if x > 0 {
                        before + seq![' ']
                    } else {
                        before
                    }) + Seq::new((k - digits@.len()) as nat, |i: int| ' '),
                decreases width - k,
            {
                line.push(' ');
                k = k + 1;
                assert(Seq::new((k - digits@.len()) as nat, |i: int| ' ') == Seq::new(
                    (k - 1 - digits@.len()) as nat,
                    |i: int| ' ',
                ).push(' '));
            }
            let ghost padded = line@;
            let mut d: usize = 0;
            while d < digits.len()
                invariant
                    d <= digits@.len(),
                    line@ == padded + digits@.take(d as int),
                decreases digits@.len() - d,
            {
                line.push(digits[d]);
                d = d + 1;
                assert(line@ == padded + digits@.take(d as int));
            }
            proof {
                assert(digits@.take(d as int) == digits@);
                assert(cells[x as int] == pad_left(digits@, width as int));
                if digits@.len() >= width {
                    assert(Seq::new(0, |i: int| ' ') + digits@ == digits@);
                    assert(Seq::new((k - digits@.len()) as nat, |i: int| ' ') == Seq::<char>::empty());
                }
                lemma_join_push(cells.take(x as int), cells[x as int], ' ');
                assert(cells.take(x + 1) == cells.take(x as int).push(cells[x as int]));
                if x > 0 {
                    assert(line@ == before + seq![' '] + cells[x as int]);
                } else {
                    assert(line@ == cells[x as int]);
                }
            }
            x = x + 1;
        }
        let ghost before_row = out@;
        if y > 0 {
            out.push(row_sep);
        }
        let mut c: usize = 0;
        let ghost start = out@;
        while c < line.len()
            invariant
                c <= line@.len(),
                out@ == start + line@.take(c as int),
            decreases line@.len() - c,
        {
            out.push(line[c]);
            c = c + 1;
            assert(out@ == start + line@.take(c as int));
        }
        proof {
            assert(line@.take(c as int) == line@);
            assert(cells.take(w as int) == cells);
            assert(rows[y as int] == line@);
            lemma_join_push(rows.take(y as int), rows[y as int], row_sep);
            assert(rows.take(y + 1) == rows.take(y as int).push(rows[y as int]));
        }
        y = y + 1;
    }
    proof {
        assert(rows.take(h as int) == rows);
    }
    string_from_chars(&out)
}

/// Displays the puzzle in a two dimensional grid with the numbers right-aligned.
pub struct DisplayGrid<'a> {
    puzzle: &'a Puzzle,
}

/// Displays the puzzle on a single line with numbers separated by spaces, and rows separated by
/// forward slashes.
pub struct DisplayInline<'a> {
    puzzle: &'a Puzzle,
}

impl<'a> DisplayGrid<'a> {
    /// Create a new [`DisplayGrid`] for displaying `puzzle`.
    pub fn new(puzzle: &'a Puzzle) -> (r: Self)
        ensures
            r.spec_puzzle() == puzzle,
    {
        Self { puzzle }
    }

    /// The puzzle, in specifications.
    pub closed spec fn spec_puzzle(&self) -> &'a Puzzle {
        self.puzzle
    }

    /// The puzzle as text: rows on lines of their own, each number right-aligned to the width of
    /// the largest piece, numbers separated by spaces.
    pub fn to_string(&self) -> (r: String)
        requires
            self.spec_puzzle().wf(),
            self.spec_puzzle()@.len() > 1,
        ensures
            r@ == puzzle_text(
                self.spec_puzzle()@,
                self.spec_puzzle().w(),
                self.spec_puzzle().h(),
                grid_width(self.spec_puzzle()),
                '\n',
            ),
    {
        let max_number = self.puzzle.num_pieces();
        let width = decimal_chars(max_number).len();
        puzzle_text_exec(self.puzzle, width, '\n')
    }
}

impl<'a> DisplayInline<'a> {
    /// Create a new [`DisplayInline`] for displaying `puzzle`.
    pub fn new(puzzle: &'a Puzzle) -> (r: Self)
        ensures
            r.spec_puzzle() == puzzle,
    {
        Self { puzzle }
    }

    /// The puzzle, in specifications.
    pub closed spec fn spec_puzzle(&self) -> &'a Puzzle {
        self.puzzle
    }

    /// The puzzle as text on a single line: numbers separated by spaces, rows by `/`.
    pub fn to_string(&self) -> (r: String)
        requires
            self.spec_puzzle().wf(),
        ensures
            r@ == puzzle_text(self.spec_puzzle()@, self.spec_puzzle().w(), self.spec_puzzle().h(), 0, '/'),
    {
        puzzle_text_exec(self.puzzle, 0, '/')
    }
}

impl Puzzle {
    /// Equivalent to [`DisplayInline::new`].
    pub fn display_inline(&self) -> (r: DisplayInline)
        ensures
            r.spec_puzzle() == self,
    {
        DisplayInline::new(self)
    }

    /// Equivalent to [`DisplayGrid::new`].
    pub fn display_grid(&self) -> (r: DisplayGrid)
        ensures
            r.spec_puzzle() == self,
    {
        DisplayGrid::new(self)
    }

    /// The puzzle as text: see [`DisplayInline::to_string`].
    pub fn to_string(&self) -> (r: String)
        requires
            self.wf(),
        ensures
            r@ == puzzle_text(self@, self.w(), self.h(), 0, '/'),
    {
        self.display_inline().to_string()
    }
}

/// `s` is a non-empty string of ASCII digits.
pub open spec fn digit_run(s: Seq<char>) -> bool {
    s.len() > 0 && forall|i: int| 0 <= i < s.len() ==> is_ascii_digit(#[trigger] s[i])
}

/// Reading more digits extends the number being read.
proof fn lemma_scan_digits(s: Seq<char>, d: Seq<char>)
    requires
        forall|i: int| 0 <= i < d.len() ==> is_ascii_digit(#[trigger] d[i]),
    ensures
        scan_rows(s + d) == (scan_rows(s).0, scan_rows(s).1, scan_rows(s).2 + d),
    decreases d.len(),
{
    if d.len() == 0 {
        assert(s + d =~= s);
        assert(scan_rows(s).2 + d =~= scan_rows(s).2);
    } else {
        let e = d.drop_last();
        lemma_scan_digits(s, e);
        assert((s + d).drop_last() =~= s + e);
        assert((s + d).last() == d.last());
        assert(is_ascii_digit(d.last()));
        assert((scan_rows(s).2 + e).push(d.last()) =~= scan_rows(s).2 + d);
    }
}

/// Reading a row of numbers separated by single spaces, from the start of a row: the numbers but
/// the last are finished, and the last is being read.
proof fn lemma_scan_row(s: Seq<char>, cells: Seq<Seq<char>>)
    requires
        cells.len() >= 1,
        forall|i: int| 0 <= i < cells.len() ==> digit_run(#[trigger] cells[i]),
        scan_rows(s).1 == Seq::<Seq<char>>::empty(),
        scan_rows(s).2 == Seq::<char>::empty(),
    ensures
        scan_rows(s + join(cells, ' ')) == (scan_rows(s).0, cells.drop_last(), cells.last()),
    decreases cells.len(),
{
    let last = cells.last();
    assert(digit_run(cells[cells.len() - 1]));
    if cells.len() == 1 {
        lemma_scan_digits(s, last);
        assert(cells.drop_last() =~= Seq::<Seq<char>>::empty());
        assert(Seq::<char>::empty() + last =~= last);
    } else {
        let front = cells.drop_last();
        assert forall|i: int| 0 <= i < front.len() implies digit_run(#[trigger] front[i]) by {
            assert(front[i] == cells[i]);
        }
        lemma_scan_row(s, front);
        let t = s + join(front, ' ');
        let u = t.push(' ');
        assert(u.drop_last() =~= t);
        assert(!is_ascii_digit(' '));
        assert(scan_rows(u) == (scan_rows(s).0, close_run(front.drop_last(), front.last()), Seq::<char>::empty()));
        assert(front.drop_last().push(front.last()) =~= front);
        lemma_scan_digits(u, last);
        assert(Seq::<char>::empty() + last =~= last);
        assert(s + join(cells, ' ') =~= u + last);
    }
}

/// The text of rows of numbers: numbers separated by single spaces, rows by `/`.
pub open spec fn inline_text(rows: Seq<Seq<Seq<char>>>) -> Seq<char> {
    join(Seq::new(rows.len(), |y: int| join(rows[y], ' ')), '/')
}

/// Reading the text of rows of numbers gives back the rows.
proof fn lemma_scan_text(rows: Seq<Seq<Seq<char>>>)
    requires
        rows.len() >= 1,
        forall|y: int| 0 <= y < rows.len() ==> (#[trigger] rows[y]).len() >= 1,
        forall|y: int, x: int|
            0 <= y < rows.len() && 0 <= x < rows[y].len() ==> digit_run(#[trigger] rows[y][x]),
    ensures
        scan_rows(inline_text(rows)) == (rows.drop_last(), rows.last().drop_last(), rows.last().last()),
        text_rows(inline_text(rows)) == rows,
    decreases rows.len(),
{
    let n = rows.len() as int;
    let last = rows[n - 1];
    assert forall|i: int| 0 <= i < last.len() implies digit_run(#[trigger] last[i]) by {
        assert(digit_run(rows[n - 1][i]));
    }
    let items = Seq::new(rows.len(), |y: int| join(rows[y], ' '));
    if n == 1 {
        let e = Seq::<char>::empty();
        assert(scan_rows(e) == (Seq::<Seq<Seq<char>>>::empty(), Seq::<Seq<char>>::empty(), e));
        lemma_scan_row(e, last);
        assert(e + join(last, ' ') =~= join(last, ' '));
        assert(inline_text(rows) == join(last, ' '));
        assert(rows.drop_last() =~= Seq::<Seq<Seq<char>>>::empty());
    } else {
        let front = rows.drop_last();
        assert forall|y: int, x: int|
            0 <= y < front.len() && 0 <= x < front[y].len() implies digit_run(#[trigger] front[y][x]) by {
            assert(front[y] == rows[y]);
        }
        lemma_scan_text(front);
        let t = inline_text(front);
        assert(items.drop_last() =~= Seq::new(front.len(), |y: int| join(front[y], ' ')));
        assert(inline_text(rows) == t + seq!['/'] + join(last, ' '));
        let u = t.push('/');
        assert(u.drop_last() =~= t);
        assert(!is_ascii_digit('/'));
        assert(front.last().drop_last().push(front.last().last()) =~= front.last());
        assert(front.drop_last().push(front.last()) =~= front);
        assert(scan_rows(u) == (front, Seq::<Seq<char>>::empty(), Seq::<char>::empty()));
        lemma_scan_row(u, last);
        assert(t + seq!['/'] + join(last, ' ') =~= u + join(last, ' '));
    }
    assert(last.drop_last().push(last.last()) =~= last);
    assert(rows.drop_last().push(last) =~= rows);
}

/// Every character of a join of items is a character of an item or the separator.
proof fn lemma_join_chars(items: Seq<Seq<char>>, sep: char, p: spec_fn(char) -> bool)
    requires
        p(sep),
        forall|i: int, j: int|
            0 <= i < items.len() && 0 <= j < items[i].len() ==> p(#[trigger] items[i][j]),
    ensures
        forall|k: int| 0 <= k < join(items, sep).len() ==> p(#[trigger] join(items, sep)[k]),
    decreases items.len(),
{
    if items.len() == 1 {
        assert forall|k: int| 0 <= k < join(items, sep).len() implies p(#[trigger] join(items, sep)[k]) by {
            assert(p(items[0][k]));
        }
    } else if items.len() > 1 {
        let front = items.drop_last();
        assert forall|i: int, j: int|
            0 <= i < front.len() && 0 <= j < front[i].len() implies p(#[trigger] front[i][j]) by {
            assert(front[i] == items[i]);
        }
        lemma_join_chars(front, sep, p);
        let a = join(front, sep);
        let last = items.last();
        assert forall|k: int| 0 <= k < join(items, sep).len() implies p(#[trigger] join(items, sep)[k]) by {
            if k < a.len() {
                assert(join(items, sep)[k] == a[k]);
            } else if k == a.len() {
                assert(join(items, sep)[k] == sep);
            } else {
                assert(join(items, sep)[k] == last[k - a.len() - 1]);
                assert(p(items[items.len() - 1][k - a.len() - 1]));
            }
        }
    }
}

/// Text made of allowed characters has no bad character.
proof fn lemma_no_bad_char(s: Seq<char>)
    requires
        forall|k: int| 0 <= k < s.len() ==> puzzle_char(#[trigger] s[k]),
    ensures
        first_bad_char(s) is None,
    decreases s.len(),
{
    if s.len() > 0 {
        assert(puzzle_char(s[0]));
        assert forall|k: int| 0 <= k < s.drop_first().len() implies puzzle_char(#[trigger] s.drop_first()[k]) by {
            assert(s.drop_first()[k] == s[k + 1]);
        }
        lemma_no_bad_char(s.drop_first());
    }
}

/// Every entry of a flattening is an entry of one of its rows.
proof fn lemma_flatten_all(rows: Seq<Seq<Seq<char>>>, p: spec_fn(Seq<char>) -> bool)
    requires
        forall|y: int, x: int| 0 <= y < rows.len() && 0 <= x < rows[y].len() ==> p(#[trigger] rows[y][x]),
    ensures
        forall|k: int| 0 <= k < rows.flatten().len() ==> p(#[trigger] rows.flatten()[k]),
    decreases rows.len(),
{
    if rows.len() > 0 {
        let rest = rows.drop_first();
        assert forall|y: int, x: int| 0 <= y < rest.len() && 0 <= x < rest[y].len() implies p(#[trigger] rest[y][x]) by {
            assert(rest[y] == rows[y + 1]);
        }
        lemma_flatten_all(rest, p);
        let f = rows.flatten();
        assert(f == rows[0] + rest.flatten());
        assert forall|k: int| 0 <= k < f.len() implies p(#[trigger] f[k]) by {
            if k < rows[0].len() {
                assert(p(rows[0][k]));
            } else {
                assert(f[k] == rest.flatten()[k - rows[0].len()]);
            }
        }
    }
}

/// Numbers that all fit in a `u64` have no bad one.
proof fn lemma_no_bad_number(ts: Seq<Seq<char>>)
    requires
        forall|k: int| 0 <= k < ts.len() ==> (#[trigger] parsed_u64(ts[k])) is Some,
    ensures
        first_bad_number(ts) is None,
    decreases ts.len(),
{
    if ts.len() > 0 {
        assert(parsed_u64(ts[0]) is Some);
        assert forall|k: int| 0 <= k < ts.drop_first().len() implies (#[trigger] parsed_u64(ts.drop_first()[k])) is Some by {
            assert(ts.drop_first()[k] == ts[k + 1]);
        }
        lemma_no_bad_number(ts.drop_first());
    }
}

/// The decimal text of a number reads back as the number.
proof fn lemma_parse_decimal(v: u64)
    ensures
        digit_run(decimal(v as nat)),
        parsed_u64(decimal(v as nat)) == Some(v),
        number_value(decimal(v as nat)) == v,
{
    lemma_decimal_digits(v as nat);
    let d = decimal(v as nat);
    assert(d[0] != '+') by {
        assert(is_ascii_digit(d[0]));
    }
    assert(crate::text::unsigned(d) == d);
}

/// A permutation has no bad piece.
proof fn lemma_permutation_no_bad_piece(s: Seq<u64>, i: int)
    requires
        is_permutation(s),
        0 <= i <= s.len(),
    ensures
        first_bad_piece(s, s.len(), i) is None,
    decreases s.len() - i,
{
    if i < s.len() {
        if s.take(i).contains(s[i]) {
            let k = choose|k: int| 0 <= k < i && s.take(i)[k] == s[i];
            assert(s[k] == s[i]);
        }
        lemma_permutation_no_bad_piece(s, i + 1);
    }
}

/// The rows of `w` pieces each, `h` of them, flatten back to the pieces.
proof fn lemma_rows_flatten(s: Seq<u64>, w: int, k: int)
    requires
        w >= 1,
        0 <= k,
        w * k <= s.len(),
    ensures
        Seq::new(k as nat, |y: int| Seq::new(w as nat, |x: int| s[x + w * y])).flatten() == s.take(
            w * k,
        ),
    decreases k,
{
    let g = Seq::new(k as nat, |y: int| Seq::new(w as nat, |x: int| s[x + w * y]));
    if k == 0 {
        assert(g =~= Seq::<Seq<u64>>::empty());
        assert(w * k == 0) by (nonlinear_arith)
            requires
                k == 0,
        ;
        assert(s.take(0) =~= Seq::<u64>::empty());
        assert(g.flatten() =~= Seq::<u64>::empty());
    } else {
        assert(w * (k - 1) <= w * k) by (nonlinear_arith)
            requires
                w >= 1,
                k >= 1,
        ;
        assert(w * k == w * (k - 1) + w) by (nonlinear_arith);
        lemma_rows_flatten(s, w, k - 1);
        let g1 = Seq::new((k - 1) as nat, |y: int| Seq::new(w as nat, |x: int| s[x + w * y]));
        assert(g =~= g1.push(Seq::new(w as nat, |x: int| s[x + w * (k - 1)])));
        lemma_flatten_push(g1, Seq::new(w as nat, |x: int| s[x + w * (k - 1)]));
        assert(s.take(w * k) =~= s.take(w * (k - 1)) + Seq::new(w as nat, |x: int| s[x + w * (k - 1)]));
        assert(g.flatten() == s.take(w * k));
    }
}

/// Reading back the text of a puzzle (see [`Puzzle::to_string`]) gives the puzzle: its size, and
/// its pieces.
pub proof fn lemma_from_str_of_to_string(p: &Puzzle)
    requires
        p.wf(),
    ensures
        parse_outcome(puzzle_text(p@, p.w(), p.h(), 0, '/')) == Ok::<(Size, Seq<u64>), crate::puzzle::puzzle::ParsePuzzleError>(
            (p.spec_size(), p@),
        ),
{
    p.lemma_wf();
    let (w, h, s) = (p.w(), p.h(), p@);
    let rows = Seq::new(
        h as nat,
        |y: int| Seq::new(w as nat, |x: int| decimal(s[x + w * y] as nat)),
    );
    let text = puzzle_text(s, w, h, 0, '/');
    // Each number is written as its decimal digits.
    assert forall|y: int, x: int| 0 <= y < rows.len() && 0 <= x < rows[y].len() implies digit_run(
        #[trigger] rows[y][x],
    ) by {
        lemma_parse_decimal(s[x + w * y]);
    }
    assert(inline_text(rows) =~= text) by {
        assert forall|y: int| 0 <= y < h implies Seq::new(
            w as nat,
            |x: int| pad_left(decimal(s[x + w * y] as nat), 0),
        ) =~= rows[y] by {}
        assert(Seq::new(rows.len(), |y: int| join(rows[y], ' ')) =~= Seq::new(
            h as nat,
            |y: int| join(Seq::new(w as nat, |x: int| pad_left(decimal(s[x + w * y] as nat), 0)), ' '),
        ));
    }
    lemma_scan_text(rows);
    // Only digits, spaces and `/`.
    let items = Seq::new(rows.len(), |y: int| join(rows[y], ' '));
    let pc = |c: char| puzzle_char(c);
    assert forall|y: int, j: int| 0 <= y < items.len() && 0 <= j < items[y].len() implies pc(
        #[trigger] items[y][j],
    ) by {
        assert forall|i: int, k: int| 0 <= i < rows[y].len() && 0 <= k < rows[y][i].len() implies pc(
            #[trigger] rows[y][i][k],
        ) by {
            assert(digit_run(rows[y][i]));
        }
        lemma_join_chars(rows[y], ' ', pc);
    }
    lemma_join_chars(items, '/', pc);
    lemma_no_bad_char(text);
    // Every number fits.
    let fits = |t: Seq<char>| parsed_u64(t) is Some;
    assert forall|y: int, x: int| 0 <= y < rows.len() && 0 <= x < rows[y].len() implies fits(
        #[trigger] rows[y][x],
    ) by {
        lemma_parse_decimal(s[x + w * y]);
    }
    lemma_flatten_all(rows, fits);
    lemma_no_bad_number(rows.flatten());
    // The numbers read back are the pieces, row by row.
    let grid = rows.map_values(|row: Seq<Seq<char>>| row_values(row));
    let expected = Seq::new(h as nat, |y: int| Seq::new(w as nat, |x: int| s[x + w * y]));
    assert forall|y: int| 0 <= y < h implies #[trigger] grid[y] =~= expected[y] by {
        assert forall|x: int| 0 <= x < w implies #[trigger] grid[y][x] == expected[y][x] by {
            lemma_parse_decimal(s[x + w * y]);
        }
    }
    assert(grid =~= expected);
    lemma_rows_flatten(s, w, h);
    assert(s.take(w * h) =~= s);
    assert(!(exists|r: int| 0 <= r < grid.len() && #[trigger] grid[r].len() != grid[0].len()));
    lemma_permutation_no_bad_piece(s, 0);
    Size::lemma_spec_eq(Size::spec_new(w as u64, h as u64), p.spec_size());
    assert(grid_outcome(grid) == Ok::<(Size, Seq<u64>), crate::puzzle::puzzle::PuzzleError>(
        (p.spec_size(), s),
    ));
}

} // verus!
