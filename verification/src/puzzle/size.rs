//! Defines a struct representing the size of a sliding puzzle.

use std::num::ParseIntError;
use std::str::FromStr;
use vstd::prelude::*;

use crate::text::{
    char_is_whitespace, chars_of, decimal, decimal_chars, is_ascii_digit, is_whitespace, lemma_decimal_digits, lemma_parsed_u64_non_digit, parse_u64, parse_u64_error, parsed_u64, string_from_chars,
};

verus! {

/// The size of a sliding puzzle: a width and a height, both positive.
#[derive(Clone, Copy, Debug, PartialEq, Eq, PartialOrd, Ord, Hash, Structural)]
pub struct Size {
    width: u64,
    height: u64,
}

/// Error type for [`Size::new`].
#[derive(Clone, Debug, PartialEq, Eq, PartialOrd, Ord, Hash, Structural)]
pub enum SizeError {
    /// Returned from [`Size::new`] when the width or height is 0.
    InvalidSize(u64, u64),
}

/// Error type for [`Size::from_str`].
#[derive(Clone, Debug, PartialEq, Eq)]
pub enum ParseSizeError {
    /// The [`Size`] was not of the form `N` or `WxH`.
    ParseError,
    /// The width could not be parsed as an integer.
    ParseWidthError(ParseIntError),
    /// The height could not be parsed as an integer.
    ParseHeightError(ParseIntError),
    /// The width and height were both parsed as integers, but one of them was 0.
    SizeError(SizeError),
}

/// `n!`
pub open spec fn factorial(n: nat) -> nat
    decreases n,
{
    if n == 0 {
        1
    } else {
        n * factorial((n - 1) as nat)
    }
}

/// The factorial is positive and grows with its argument.
pub proof fn lemma_factorial_monotone(a: nat, b: nat)
    requires
        a <= b,
    ensures
        1 <= factorial(a) <= factorial(b),
    decreases b,
{
    if b > 0 {
        if a < b {
            lemma_factorial_monotone(a, (b - 1) as nat);
        }
        lemma_factorial_monotone((b - 1) as nat, (b - 1) as nat);
        assert(factorial((b - 1) as nat) <= b * factorial((b - 1) as nat)) by (nonlinear_arith)
            requires
                b >= 1,
                factorial((b - 1) as nat) >= 1,
        ;
    }
}

/// `s` without the leading characters that are whitespace.
pub open spec fn trim_start(s: Seq<char>) -> Seq<char>
    decreases s.len(),
{
    if s.len() > 0 && is_whitespace(s[0]) {
        trim_start(s.drop_first())
    } else {
        s
    }
}

/// `s` without the trailing characters that are whitespace.
pub open spec fn trim_end(s: Seq<char>) -> Seq<char>
    decreases s.len(),
{
    if s.len() > 0 && is_whitespace(s.last()) {
        trim_end(s.drop_last())
    } else {
        s
    }
}

/// `s` without leading and trailing whitespace, as `str::trim` gives it.
pub open spec fn trim(s: Seq<char>) -> Seq<char> {
    trim_end(trim_start(s))
}

/// The first position of `c` in `s`, or `s.len()` where it does not occur.
pub open spec fn char_index(s: Seq<char>, c: char) -> int
    decreases s.len(),
{
    if s.len() == 0 {
        0
    } else if s[0] == c {
        0
    } else {
        1 + char_index(s.drop_first(), c)
    }
}

pub proof fn lemma_char_index(s: Seq<char>, c: char)
    ensures
        0 <= char_index(s, c) <= s.len(),
        char_index(s, c) < s.len() ==> s[char_index(s, c)] == c,
        forall|k: int| 0 <= k < char_index(s, c) ==> s[k] != c,
    decreases s.len(),
{
    if s.len() > 0 && s[0] != c {
        lemma_char_index(s.drop_first(), c);
        assert forall|k: int| 0 <= k < char_index(s, c) implies s[k] != c by {
            if k > 0 {
                assert(s[k] == s.drop_first()[k - 1]);
            }
        }
        if char_index(s, c) < s.len() {
            assert(s[char_index(s, c)] == s.drop_first()[char_index(s.drop_first(), c)]);
        }
    }
}

/// The outcome of [`Size::new`] on `width` and `height`.
pub open spec fn size_result(width: u64, height: u64) -> Result<Size, SizeError> {
    if width > 0 && height > 0 {
        Ok(Size::spec_new(width, height))
    } else {
        Err(SizeError::InvalidSize(width, height))
    }
}

/// What [`Size::from_str`] gives back for the text `s`: either `N` (a square) or `WxH`, each
/// number with optional surrounding whitespace.
pub open spec fn spec_parse_size(s: Seq<char>) -> Result<Size, ParseSizeError> {
    match parsed_u64(trim(s)) {
        Some(n) => match size_result(n, n) {
            Ok(size) => Ok(size),
            Err(e) => Err(ParseSizeError::SizeError(e)),
        },
        None => {
            let k = char_index(s, 'x');
            if k == s.len() {
                Err(ParseSizeError::ParseError)
            } else {
                let ws = trim(s.take(k));
                let hs = trim(s.skip(k + 1));
                match parsed_u64(ws) {
                    None => Err(ParseSizeError::ParseWidthError(parse_u64_error(ws))),
                    Some(w) => match parsed_u64(hs) {
                        None => Err(ParseSizeError::ParseHeightError(parse_u64_error(hs))),
                        Some(h) => match size_result(w, h) {
                            Ok(size) => Ok(size),
                            Err(e) => Err(ParseSizeError::SizeError(e)),
                        },
                    },
                }
            }
        },
    }
}

/// The positions `lo..hi` of `cs` without leading and trailing whitespace.
pub fn trim_range(cs: &Vec<char>, lo: usize, hi: usize) -> (r: (usize, usize))
    requires
        lo <= hi <= cs@.len(),
    ensures
        lo <= r.0 <= r.1 <= hi,
        cs@.subrange(r.0 as int, r.1 as int) == trim(cs@.subrange(lo as int, hi as int)),
{
    let mut i = lo;
    while i < hi && char_is_whitespace(cs[i])
        invariant
            lo <= i <= hi <= cs@.len(),
            trim_start(cs@.subrange(lo as int, hi as int)) == trim_start(
                cs@.subrange(i as int, hi as int),
            ),
        decreases hi - i,
    {
        assert(cs@.subrange(i as int, hi as int).drop_first() =~= cs@.subrange(
            i + 1,
            hi as int,
        ));
        i = i + 1;
    }
    assert(trim_start(cs@.subrange(i as int, hi as int)) == cs@.subrange(i as int, hi as int));
    let mut j = hi;
    while j > i && char_is_whitespace(cs[j - 1])
        invariant
            i <= j <= hi <= cs@.len(),
            trim_end(cs@.subrange(i as int, hi as int)) == trim_end(
                cs@.subrange(i as int, j as int),
            ),
        decreases j - i,
    {
        assert(cs@.subrange(i as int, j as int).drop_last() =~= cs@.subrange(
            i as int,
            j - 1,
        ));
        j = j - 1;
    }
    (i, j)
}

impl Size {
    #[verifier::type_invariant]
    spec fn nonzero(self) -> bool {
        self.width > 0 && self.height > 0
    }

    /// The width, in specifications.
    pub closed spec fn spec_width(&self) -> u64 {
        self.width
    }

    /// The height, in specifications.
    pub closed spec fn spec_height(&self) -> u64 {
        self.height
    }

    /// The size with the given width and height, in specifications.
    pub closed spec fn spec_new(width: u64, height: u64) -> Size {
        Size { width, height }
    }

    pub broadcast proof fn lemma_spec_new(width: u64, height: u64)
        ensures
            #[trigger] Self::spec_new(width, height).spec_width() == width,
            Self::spec_new(width, height).spec_height() == height,
    {
    }

    pub broadcast proof fn lemma_spec_eq(a: Size, b: Size)
        ensures
            #![trigger a.spec_width(), b.spec_width(), a.spec_height(), b.spec_height()]
            a.spec_width() == b.spec_width() && a.spec_height() == b.spec_height() ==> a == b,
    {
    }

    /// Width times height.
    pub open spec fn spec_area(&self) -> nat {
        (self.spec_width() * self.spec_height()) as nat
    }

    /// The area fits in a `u64`, so that positions can be numbered.
    pub open spec fn area_fits(&self) -> bool {
        self.spec_area() <= u64::MAX
    }

    /// `pos` lies on a puzzle of this size.
    pub open spec fn spec_is_within_bounds(&self, pos: (u64, u64)) -> bool {
        pos.0 < self.spec_width() && pos.1 < self.spec_height()
    }

    /// The size with width and height swapped, in specifications.
    pub open spec fn spec_transpose(&self) -> Size {
        Self::spec_new(self.spec_height(), self.spec_width())
    }

    /// Transposing keeps the area.
    pub proof fn lemma_transpose_area(&self)
        ensures
            self.spec_transpose().spec_area() == self.spec_area(),
            self.spec_transpose().spec_width() == self.spec_height(),
            self.spec_transpose().spec_height() == self.spec_width(),
    {
        Self::lemma_spec_new(self.spec_height(), self.spec_width());
        assert(self.spec_height() * self.spec_width() == self.spec_width() * self.spec_height())
            by (nonlinear_arith);
    }

    /// Transposing twice gives back the size.
    pub proof fn lemma_transpose_twice(&self)
        ensures
            self.spec_transpose().spec_transpose() == *self,
    {
        Self::lemma_spec_new(self.spec_height(), self.spec_width());
        Self::lemma_spec_new(self.spec_width(), self.spec_height());
        Self::lemma_spec_eq(self.spec_transpose().spec_transpose(), *self);
    }

    /// The number of solvable states of a puzzle of this size.
    pub open spec fn spec_num_states(&self) -> nat {
        if self.spec_width() == 1 {
            self.spec_height() as nat
        } else if self.spec_height() == 1 {
            self.spec_width() as nat
        } else {
            factorial(self.spec_area()) / 2
        }
    }

    /// Creates a new [`Size`] with the given `width` and `height`.
    pub fn new(width: u64, height: u64) -> (r: Result<Self, SizeError>)
        ensures
            r == size_result(width, height),
    {
        if width == 0 || height == 0 {
            Err(SizeError::InvalidSize(width, height))
        } else {
            Ok(Self { width, height })
        }
    }

    /// The width of the [`Size`].
    #[verifier::when_used_as_spec(spec_width)]
    pub fn width(&self) -> (r: u64)
        ensures
            r == self.spec_width(),
            r > 0,
    {
        proof {
            use_type_invariant(self);
        }
        self.width
    }

    /// The height of the [`Size`].
    #[verifier::when_used_as_spec(spec_height)]
    pub fn height(&self) -> (r: u64)
        ensures
            r == self.spec_height(),
            r > 0,
    {
        proof {
            use_type_invariant(self);
        }
        self.height
    }

    /// The product of the width and height.
    pub fn area(&self) -> (r: u64)
        requires
            self.area_fits(),
        ensures
            r == self.spec_area(),
    {
        self.width() * self.height()
    }

    /// The number of pieces in a puzzle of this size. Equals `self.area() - 1`.
    pub fn num_pieces(&self) -> (r: u64)
        requires
            self.area_fits(),
        ensures
            r == self.spec_area() - 1,
    {
        let w = self.width();
        let h = self.height();
        proof {
            crate::arith::lemma_mul_ge(w as int, h as int);
        }
        w * h - 1
    }

    /// Checks whether a position `(x, y)` is within bounds on a puzzle of this size.
    pub fn is_within_bounds(&self, pos: (u64, u64)) -> (r: bool)
        ensures
            r == self.spec_is_within_bounds(pos),
    {
        pos.0 < self.width() && pos.1 < self.height()
    }

    /// The size of the transposed puzzle (width and height swapped).
    pub fn transpose(&self) -> (r: Self)
        ensures
            r == self.spec_transpose(),
    {
        proof {
            use_type_invariant(self);
        }
        Self { width: self.height, height: self.width }
    }

    /// The square of size equal to the minimum of the width and height of `self`.
    pub fn shrink_to_square(&self) -> (r: Self)
        ensures
            r.spec_width() == r.spec_height(),
            r.spec_width() == if self.spec_width() <= self.spec_height() {
                self.spec_width()
            } else {
                self.spec_height()
            },
    {
        proof {
            use_type_invariant(self);
        }
        let s = if self.width <= self.height {
            self.width
        } else {
            self.height
        };
        Self { width: s, height: s }
    }

    /// The square of size equal to the maximum of the width and height of `self`.
    pub fn expand_to_square(&self) -> (r: Self)
        ensures
            r.spec_width() == r.spec_height(),
            r.spec_width() == if self.spec_width() >= self.spec_height() {
                self.spec_width()
            } else {
                self.spec_height()
            },
    {
        proof {
            use_type_invariant(self);
        }
        let s = if self.width >= self.height {
            self.width
        } else {
            self.height
        };
        Self { width: s, height: s }
    }

    /// Returns true if the width and height are equal, and false otherwise.
    pub fn is_square(&self) -> (r: bool)
        ensures
            r == (self.spec_width() == self.spec_height()),
    {
        self.width == self.height
    }

    /// The number of solvable states of a puzzle of size `self`: `(w * h)! / 2`, or the width
    /// or height when the puzzle is a single row or column.
    pub fn num_states(&self) -> (r: u128)
        requires
            self.spec_width() > 1 && self.spec_height() > 1 ==> factorial(self.spec_area())
                <= u128::MAX,
        ensures
            r == self.spec_num_states(),
    {
        let (w, h) = (self.width(), self.height());
        if w == 1 {
            h as u128
        } else if h == 1 {
            w as u128
        } else {
            proof {
                lemma_factorial_monotone(0, self.spec_area());
                assert(self.spec_area() <= factorial(self.spec_area())) by {
                    lemma_factorial_monotone(
                        (self.spec_area() - 1) as nat,
                        (self.spec_area() - 1) as nat,
                    );
                    assert(self.spec_area() * factorial((self.spec_area() - 1) as nat)
                        >= self.spec_area()) by (nonlinear_arith)
                        requires
                            factorial((self.spec_area() - 1) as nat) >= 1,
                    ;
                }
            }
            let area: u128 = (w as u128) * (h as u128);
            assert(area == self.spec_area());
            assert(area < u128::MAX) by (nonlinear_arith)
                requires
                    area == w * h,
                    w <= u64::MAX,
                    h <= u64::MAX,
            ;
            let mut product: u128 = 1;
            let mut i: u128 = 1;
            while i <= area
                invariant
                    1 <= i <= area + 1,
                    area == self.spec_area(),
                    area < u128::MAX,
                    factorial(self.spec_area()) <= u128::MAX,
                    product == factorial((i - 1) as nat),
                decreases area + 1 - i,
            {
                proof {
                    lemma_factorial_monotone(i as nat, area as nat);
                    assert(factorial(i as nat) == i * factorial((i - 1) as nat));
                    assert(product * i == i * product) by (nonlinear_arith);
                    assert(product * i <= u128::MAX);
                }
                product = product * i;
                i = i + 1;
            }
            product / 2
        }
    }

    /// The size as text, `WxH`.
    pub fn to_string(&self) -> (r: String)
        ensures
            r@ == decimal(self.spec_width() as nat) + seq!['x'] + decimal(
                self.spec_height() as nat,
            ),
    {
        let mut v = decimal_chars(self.width());
        v.push('x');
        let h = decimal_chars(self.height());
        let mut i: usize = 0;
        let ghost start = v@;
        while i < h.len()
            invariant
                i <= h@.len(),
                v@ == start + h@.take(i as int),
            decreases h.len() - i,
        {
            v.push(h[i]);
            i = i + 1;
            assert(v@ =~= start + h@.take(i as int));
        }
        assert(h@.take(h@.len() as int) =~= h@);
        string_from_chars(&v)
    }

    /// Parses a string into a [`Size`]. Acceptable formats are
    /// - `N` for some integer string `N`, representing a size where width and height are equal,
    /// - `WxH` for some integer strings `W` and `H`, representing the width and height.
    pub fn from_str(s: &str) -> (r: Result<Self, ParseSizeError>)
        ensures
            r == spec_parse_size(s@),
    {
        let cs = chars_of(s);
        let (a, b) = trim_range(&cs, 0, cs.len());
        assert(cs@.subrange(0, cs@.len() as int) =~= s@);
        let t = s.substring_char(a, b);
        match parse_u64(t) {
            Ok(n) => {
                match Size::new(n, n) {
                    Ok(size) => Ok(size),
                    Err(e) => Err(ParseSizeError::SizeError(e)),
                }
            },
            Err(_) => {
                let mut k: usize = 0;
                while k < cs.len() && cs[k] != 'x'
                    invariant
                        k <= cs@.len(),
                        cs@ == s@,
                        forall|i: int| 0 <= i < k ==> cs@[i] != 'x',
                    decreases cs.len() - k,
                {
                    k = k + 1;
                }
                proof {
                    lemma_char_index(s@, 'x');
                    if k < char_index(s@, 'x') {
                        assert(s@[k as int] != 'x');
                    }
                }
                if k == cs.len() {
                    return Err(ParseSizeError::ParseError);
                }
                assert(k == char_index(s@, 'x'));
                let (wa, wb) = trim_range(&cs, 0, k);
                let (ha, hb) = trim_range(&cs, k + 1, cs.len());
                assert(cs@.subrange(0, k as int) =~= s@.take(k as int));
                assert(cs@.subrange(k + 1, cs@.len() as int) =~= s@.skip(k + 1));
                let ws = s.substring_char(wa, wb);
                let hs = s.substring_char(ha, hb);
                let w = match parse_u64(ws) {
                    Ok(w) => w,
                    Err(e) => {
                        return Err(ParseSizeError::ParseWidthError(e));
                    },
                };
                let h = match parse_u64(hs) {
                    Ok(h) => h,
                    Err(e) => {
                        return Err(ParseSizeError::ParseHeightError(e));
                    },
                };
                match Size::new(w, h) {
                    Ok(size) => Ok(size),
                    Err(e) => Err(ParseSizeError::SizeError(e)),
                }
            },
        }
    }
}

impl Default for Size {
    /// The 4x4 size.
    fn default() -> (r: Self)
        ensures
            r == Size::spec_new(4, 4),
    {
        Size { width: 4, height: 4 }
    }
}

impl From<Size> for (u64, u64) {
    fn from(value: Size) -> (r: (u64, u64)) {
        (value.width(), value.height())
    }
}

impl vstd::std_specs::convert::FromSpecImpl<Size> for (u64, u64) {
    open spec fn obeys_from_spec() -> bool {
        true
    }

    open spec fn from_spec(v: Size) -> (u64, u64) {
        (v.spec_width(), v.spec_height())
    }
}

impl FromStr for Size {
    type Err = ParseSizeError;

    /// See [`Size::from_str`].
    fn from_str(s: &str) -> (r: Result<Self, Self::Err>)
        ensures
            r == spec_parse_size(s@),
    {
        Size::from_str(s)
    }
}

pub broadcast group group_size {
    Size::lemma_spec_new,
    Size::lemma_spec_eq,
}

/// A string of ASCII digits is its own trimmed form, and holds no `x`.
proof fn lemma_digits_trim(s: Seq<char>)
    requires
        s.len() >= 1,
        forall|i: int| 0 <= i < s.len() ==> is_ascii_digit(#[trigger] s[i]),
    ensures
        trim(s) == s,
        char_index(s, 'x') == s.len(),
{
    assert(is_ascii_digit(s[0]) && is_ascii_digit(s.last()));
    lemma_char_index(s, 'x');
    if char_index(s, 'x') < s.len() {
        assert(is_ascii_digit(s[char_index(s, 'x')]));
    }
}

/// The first `c` in `a + [c] + b`, where `a` holds none, follows `a`.
proof fn lemma_char_index_after(a: Seq<char>, b: Seq<char>, c: char)
    requires
        char_index(a, c) == a.len(),
    ensures
        char_index(a + seq![c] + b, c) == a.len(),
    decreases a.len(),
{
    lemma_char_index(a, c);
    if a.len() > 0 {
        lemma_char_index(a.drop_first(), c);
        assert(a[0] != c);
        assert((a + seq![c] + b).drop_first() =~= a.drop_first() + seq![c] + b);
        lemma_char_index_after(a.drop_first(), b, c);
    } else {
        assert((a + seq![c] + b)[0] == c);
    }
}

/// Reading back the text of a size (see [`Size::to_string`]) gives the size: parsing `WxH`
/// gives a `W x H` size.
pub proof fn lemma_parse_to_string(size: Size)
    requires
        size.spec_width() > 0,
        size.spec_height() > 0,
    ensures
        spec_parse_size(
            decimal(size.spec_width() as nat) + seq!['x'] + decimal(size.spec_height() as nat),
        ) == Ok::<Size, ParseSizeError>(size),
{
    let (w, h) = (size.spec_width(), size.spec_height());
    let (dw, dh) = (decimal(w as nat), decimal(h as nat));
    let s = dw + seq!['x'] + dh;
    lemma_decimal_digits(w as nat);
    lemma_decimal_digits(h as nat);
    lemma_digits_trim(dw);
    lemma_digits_trim(dh);
    // The whole text is trimmed already, and is no number: it holds an `x`.
    assert(s[0] == dw[0] && s.last() == dh.last());
    assert(is_ascii_digit(s[0]) && is_ascii_digit(s.last()));
    assert(trim(s) == s);
    assert(s[dw.len() as int] == 'x');
    assert(!is_ascii_digit(s[dw.len() as int]));
    assert(s[0] != '+');
    lemma_parsed_u64_non_digit(s, dw.len() as int);
    assert(parsed_u64(trim(s)) is None);
    // It splits at the `x` into the two numbers.
    lemma_char_index_after(dw, dh, 'x');
    let k = char_index(s, 'x');
    assert(s.take(k) =~= dw);
    assert(s.skip(k + 1) =~= dh);
    assert(dw[0] != '+' && dh[0] != '+');
    assert(parsed_u64(dw) == Some(w));
    assert(parsed_u64(dh) == Some(h));
    Size::lemma_spec_eq(Size::spec_new(w, h), size);
}

} // verus!
