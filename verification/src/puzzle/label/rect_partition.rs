//! Defines the [`RectPartition`] label.
//!
//! A [`RectPartition`] is a list of rectangles that cover a larger rectangle, each square exactly
//! once. [`RectPartition::new`] checks this by sweeping the rectangles from the top down, keeping
//! the height up to which each column is covered in a [`PiecewiseConstant`] function.

use std::ops::Range;

use vstd::prelude::*;

use crate::puzzle::label::label::{max, min, Label};
use crate::puzzle::size::{group_size, Size};

verus! {

broadcast use group_size;

/// Error type for [`Rect`].
#[derive(Clone, Copy, Debug, PartialEq, Eq)]
pub enum RectError {
    /// Returned when the width (`right - left`) or height (`bottom - top`) are not positive.
    InvalidSize,
}

/// A rectangle on a grid of squares, with x increasing to the right and y increasing downwards.
///
/// Used to define a [`RectPartition`].
#[derive(Clone, Copy, Debug, PartialEq, Eq, Hash)]
pub struct Rect {
    left: u64,
    top: u64,
    right: u64,
    bottom: u64,
}

impl Rect {
    /// A rectangle has positive width and height.
    #[verifier::type_invariant]
    pub closed spec fn wf(self) -> bool {
        self.left < self.right && self.top < self.bottom
    }

    /// The edges of a well-formed rectangle are in order.
    pub proof fn lemma_wf(self)
        requires
            self.wf(),
        ensures
            self.spec_left() < self.spec_right(),
            self.spec_top() < self.spec_bottom(),
    {
    }

    /// The left edge, in specifications.
    pub closed spec fn spec_left(&self) -> u64 {
        self.left
    }

    /// The top edge, in specifications.
    pub closed spec fn spec_top(&self) -> u64 {
        self.top
    }

    /// The right edge, in specifications.
    pub closed spec fn spec_right(&self) -> u64 {
        self.right
    }

    /// The bottom edge, in specifications.
    pub closed spec fn spec_bottom(&self) -> u64 {
        self.bottom
    }

    /// Whether `(x, y)` lies in the rectangle.
    pub open spec fn covers(&self, x: int, y: int) -> bool {
        self.spec_left() <= x < self.spec_right() && self.spec_top() <= y < self.spec_bottom()
    }

    /// Creates a new [`Rect`] given the coordinates of the top left and bottom right points; an
    /// error unless the right edge lies right of the left one and the bottom below the top.
    pub fn new(top_left: (u64, u64), bottom_right: (u64, u64)) -> (r: Result<Self, RectError>)
        ensures
            top_left.0 < bottom_right.0 && top_left.1 < bottom_right.1 ==> r is Ok
                && r->Ok_0.spec_left() == top_left.0 && r->Ok_0.spec_top() == top_left.1
                && r->Ok_0.spec_right() == bottom_right.0 && r->Ok_0.spec_bottom()
                == bottom_right.1,
            !(top_left.0 < bottom_right.0 && top_left.1 < bottom_right.1) ==> r == Err::<
                Self,
                RectError,
            >(RectError::InvalidSize),
    {
        let (top, left, bottom, right) = (top_left.1, top_left.0, bottom_right.1, bottom_right.0);
        if bottom > top && right > left {
            Ok(Self { left, top, right, bottom })
        } else {
            Err(RectError::InvalidSize)
        }
    }

    /// The rectangle with the given edges, which must be in order.
    pub fn from_edges(left: u64, top: u64, right: u64, bottom: u64) -> (r: Self)
        requires
            left < right,
            top < bottom,
        ensures
            r.spec_left() == left,
            r.spec_top() == top,
            r.spec_right() == right,
            r.spec_bottom() == bottom,
    {
        Self { left, top, right, bottom }
    }

    /// Width of the rectangle.
    pub fn width(&self) -> (r: u64)
        ensures
            r == self.spec_right() - self.spec_left(),
            r > 0,
    {
        proof {
            use_type_invariant(self);
        }
        self.right - self.left
    }

    /// Height of the rectangle.
    pub fn height(&self) -> (r: u64)
        ensures
            r == self.spec_bottom() - self.spec_top(),
            r > 0,
    {
        proof {
            use_type_invariant(self);
        }
        self.bottom - self.top
    }

    /// Checks if `(x, y)` is contained in the rectangle. The rectangle contains the top and left
    /// edges, but does not contain the bottom and right edges or the top right and bottom left
    /// corners.
    pub fn contains(&self, x: u64, y: u64) -> (r: bool)
        ensures
            r == self.covers(x as int, y as int),
    {
        self.left <= x && x < self.right && self.top <= y && y < self.bottom
    }

    /// The top left corner.
    pub fn top_left(&self) -> (r: (u64, u64))
        ensures
            r == (self.spec_left(), self.spec_top()),
    {
        (self.left, self.top)
    }

    /// Size of the rectangle in the form `(width, height)`.
    pub fn size(&self) -> (r: (u64, u64))
        ensures
            r == (
                (self.spec_right() - self.spec_left()) as u64,
                (self.spec_bottom() - self.spec_top()) as u64,
            ),
    {
        (self.width(), self.height())
    }
}

/// Every rectangle of `v` is well formed.
fn lemma_rects_wf(v: &Vec<Rect>)
    ensures
        forall|i: int| 0 <= i < v@.len() ==> #[trigger] v@[i].wf(),
{
    let mut i: usize = 0;
    while i < v.len()
        invariant
            i <= v@.len(),
            forall|j: int| 0 <= j < i ==> #[trigger] v@[j].wf(),
        decreases v@.len() - i,
    {
        let r = &v[i];
        proof {
            use_type_invariant(r);
        }
        i = i + 1;
    }
}

/// A partition of a rectangle into smaller rectangles: each square of the rectangle lies in
/// exactly one of them.
#[derive(Debug, PartialEq, Eq, Hash)]
pub struct RectPartition {
    rects: Vec<Rect>,
}

/// Error type for [`RectPartition`].
#[derive(Clone, Copy, Debug, PartialEq, Eq)]
pub enum RectPartitionError {
    /// Returned from [`RectPartition::new`] when given an empty vector.
    Empty,
    /// Returned from [`RectPartition::new`] when the given vector of [`Rect`]s is not a partition
    /// of a large rectangle.
    NotPartition {
        /// x coordinate of a position that is not covered by exactly one rectangle.
        x: u64,
        /// y coordinate of a position that is not covered by exactly one rectangle.
        y: u64,
    },
}

/// The smallest top edge of the (non-empty) `s`.
pub open spec fn min_top(s: Seq<Rect>) -> int
    decreases s.len(),
{
    if s.len() <= 1 {
        s[0].spec_top() as int
    } else {
        min(s.last().spec_top() as int, min_top(s.drop_last()))
    }
}

/// The smallest left edge of the (non-empty) `s`.
pub open spec fn min_left(s: Seq<Rect>) -> int
    decreases s.len(),
{
    if s.len() <= 1 {
        s[0].spec_left() as int
    } else {
        min(s.last().spec_left() as int, min_left(s.drop_last()))
    }
}

/// The largest right edge of the (non-empty) `s`.
pub open spec fn max_right(s: Seq<Rect>) -> int
    decreases s.len(),
{
    if s.len() <= 1 {
        s[0].spec_right() as int
    } else {
        max(s.last().spec_right() as int, max_right(s.drop_last()))
    }
}

/// The bounding box of `s` holds each rectangle of `s`.
proof fn lemma_bounding_box(s: Seq<Rect>)
    requires
        s.len() > 0,
    ensures
        forall|j: int|
            0 <= j < s.len() ==> min_left(s) <= (#[trigger] s[j]).spec_left() && s[j].spec_right()
                <= max_right(s) && min_top(s) <= s[j].spec_top(),
    decreases s.len(),
{
    if s.len() > 1 {
        lemma_bounding_box(s.drop_last());
        assert forall|j: int| 0 <= j < s.len() implies min_left(s) <= (#[trigger] s[j]).spec_left()
            && s[j].spec_right() <= max_right(s) && min_top(s) <= s[j].spec_top() by {
            if j < s.len() - 1 {
                assert(s[j] == s.drop_last()[j]);
            }
        }
    }
}

/// The heights at the start of the sweep: every column covered up to the top of the bounding
/// box of `s`.
pub open spec fn start_heights(s: Seq<Rect>) -> spec_fn(int) -> int {
    |x: int| min_top(s)
}

/// The heights `h` admit `r`: every column of `r` is covered exactly up to its top edge.
pub open spec fn fits(h: spec_fn(int) -> int, r: Rect) -> bool {
    forall|x: int| r.spec_left() <= x < r.spec_right() ==> #[trigger] h(x) == r.spec_top()
}

/// The heights `h` after adding `r`: its columns are covered up to its bottom edge.
pub open spec fn raise(h: spec_fn(int) -> int, r: Rect) -> spec_fn(int) -> int {
    |x: int|
        if r.spec_left() <= x < r.spec_right() {
            r.spec_bottom() as int
        } else {
            h(x)
        }
}

/// The square that a rectangle `r` that does not fit on the heights `h` is reported by: in the
/// leftmost of its columns whose height is not `r`'s top edge, the square at that top edge if the
/// column is covered beyond it (so that it is covered twice), and otherwise the first square
/// above the top edge that nothing covers.
pub open spec fn fail_square(h: spec_fn(int) -> int, r: Rect) -> (u64, u64) {
    let x = choose|x: int| is_first_off(h, r.spec_left() as int, r.spec_right() as int, r.spec_top() as int, x);
    (x as u64, if h(x) > r.spec_top() {
        r.spec_top()
    } else {
        h(x) as u64
    })
}

/// Adding the rectangles `rs` in order to the heights `h`: for the first rectangle that does not
/// fit, if there is one, its [`fail_square`].
pub open spec fn sweep_fail(rs: Seq<Rect>, h: spec_fn(int) -> int) -> Option<(u64, u64)>
    decreases rs.len(),
{
    if rs.len() == 0 {
        None
    } else if fits(h, rs[0]) {
        sweep_fail(rs.drop_first(), raise(h, rs[0]))
    } else {
        Some(fail_square(h, rs[0]))
    }
}

/// Adding the rectangles `rs` in order to the heights `h`: the heights at the end.
pub open spec fn sweep_heights(rs: Seq<Rect>, h: spec_fn(int) -> int) -> spec_fn(int) -> int
    decreases rs.len(),
{
    if rs.len() == 0 {
        h
    } else {
        sweep_heights(rs.drop_first(), raise(h, rs[0]))
    }
}

/// `m` is the largest of the heights `h` on the columns `lo..hi`.
pub open spec fn is_max_height(h: spec_fn(int) -> int, lo: int, hi: int, m: int) -> bool {
    &&& exists|x: int| lo <= x < hi && #[trigger] h(x) == m
    &&& forall|x: int| lo <= x < hi ==> #[trigger] h(x) <= m
}

/// `x` is the leftmost column of `lo..hi` whose height is not `m`.
pub open spec fn is_first_off(h: spec_fn(int) -> int, lo: int, hi: int, m: int, x: int) -> bool {
    &&& lo <= x < hi
    &&& h(x) != m
    &&& forall|y: int| lo <= y < x ==> #[trigger] h(y) == m
}

/// What [`RectPartition::new`] gives back for `rects`.
///
/// The rectangles, sorted by top edge and then left edge, are stacked in that order onto the
/// columns of their bounding box, each column covered up to the top of the bounding box to
/// begin with. A rectangle must sit exactly on the covered part of each of its columns, else the
/// error names the square of [`fail_square`]. At the end all columns must be covered to the same
/// height, else the error names the lowest square that nothing covers in the leftmost column with
/// a lower height. Either way, the square named is not covered exactly once (see
/// [`RectPartition::new`]).
pub open spec fn partition_outcome(rects: Seq<Rect>) -> Result<Seq<Rect>, RectPartitionError> {
    if rects.len() == 0 {
        Err(RectPartitionError::Empty)
    } else {
        let s = sort_rects(rects);
        let (lo, hi) = (min_left(s), max_right(s));
        let h0 = start_heights(s);
        match sweep_fail(s, h0) {
            Some((x, y)) => Err(RectPartitionError::NotPartition { x, y }),
            None => {
                let h = sweep_heights(s, h0);
                let m = choose|m: int| is_max_height(h, lo, hi, m);
                if forall|x: int| lo <= x < hi ==> #[trigger] h(x) == m {
                    Ok(s)
                } else {
                    let x = choose|x: int| is_first_off(h, lo, hi, m, x);
                    Err(RectPartitionError::NotPartition { x: x as u64, y: h(x) as u64 })
                }
            },
        }
    }
}

impl RectPartition {
    /// The rectangles partition a rectangle.
    #[verifier::type_invariant]
    pub closed spec fn wf(self) -> bool {
        &&& self.rects@.len() > 0
        &&& is_partition(self.rects@)
        &&& forall|i: int| 0 <= i < self.rects@.len() ==> (#[trigger] self.rects@[i]).wf()
    }

    /// The rectangles, sorted by top edge and then left edge.
    pub closed spec fn view(&self) -> Seq<Rect> {
        self.rects@
    }

    /// The index of the first rectangle that contains `pos`.
    pub open spec fn first_containing(&self, pos: (u64, u64)) -> int {
        choose|i: int|
            0 <= i < self.view().len() && (#[trigger] self.view()[i]).covers(pos.0 as int, pos.1 as int)
                && forall|j: int| 0 <= j < i ==> !(#[trigger] self.view()[j]).covers(pos.0 as int, pos.1 as int)
    }

    /// Some rectangle contains `pos`.
    pub open spec fn is_covered(&self, pos: (u64, u64)) -> bool {
        exists|i: int| 0 <= i < self.view().len() && (#[trigger] self.view()[i]).covers(pos.0 as int, pos.1 as int)
    }

    /// Returns the number of rectangles in the partition.
    pub fn num_rects(&self) -> (r: usize)
        ensures
            r == self.view().len(),
    {
        self.rects.len()
    }

    /// The index of the first rectangle that contains `pos`, if there is one.
    fn find(&self, pos: (u64, u64)) -> (r: Option<usize>)
        ensures
            self.is_covered(pos) ==> r is Some && r->Some_0 == self.first_containing(pos) && 0
                <= self.first_containing(pos) < self.view().len(),
            !self.is_covered(pos) ==> r is None,
    {
        let mut i: usize = 0;
        while i < self.rects.len()
            invariant
                i <= self.rects@.len(),
                forall|j: int| 0 <= j < i ==> !(#[trigger] self.rects@[j]).covers(pos.0 as int, pos.1 as int),
            decreases self.rects@.len() - i,
        {
            if self.rects[i].contains(pos.0, pos.1) {
                proof {
                    let k = self.first_containing(pos);
                    assert(self.view()[i as int].covers(pos.0 as int, pos.1 as int));
                    if k < i {
                        assert(!self.view()[k].covers(pos.0 as int, pos.1 as int));
                    } else if k > i {
                        assert(!self.view()[i as int].covers(pos.0 as int, pos.1 as int));
                    }
                }
                return Some(i);
            }
            i = i + 1;
        }
        None
    }

    /// Creates a new [`RectPartition`] from a list of [`Rect`]s that partition a larger
    /// rectangle: see [`partition_outcome`]. The rectangles are kept sorted by top edge, then
    /// by left edge.
    pub fn new(rects: Vec<Rect>) -> (r: Result<Self, RectPartitionError>)
        ensures
            match partition_outcome(rects@) {
                Ok(s) => r is Ok && r->Ok_0.view() == s,
                Err(e) => r == Err::<Self, RectPartitionError>(e),
            },
            r matches Err(RectPartitionError::NotPartition { x, y }) ==> cover_count(
                rects@,
                x as int,
                y as int,
            ) != 1,
            r matches Ok(p) ==> p.view().len() == rects@.len(),
    {
        if rects.len() == 0 {
            return Err(RectPartitionError::Empty);
        }
        let ghost input = rects@;
        lemma_rects_wf(&rects);
        let sorted = sort_by_top_left(&rects);
        let ghost s = sorted@;
        let n = sorted.len();
        proof {
            lemma_sort_rects_sorted(s);
        }
        lemma_rects_wf(&sorted);
        // The bounding box's left, top and right edges.
        let mut top = sorted[0].top;
        let mut left = sorted[0].left;
        let mut right = sorted[0].right;
        let mut i: usize = 1;
        while i < n
            invariant
                1 <= i <= n,
                n == s.len(),
                s == sorted@,
                top == min_top(s.take(i as int)),
                left == min_left(s.take(i as int)),
                right == max_right(s.take(i as int)),
            decreases n - i,
        {
            assert(s.take(i + 1).drop_last() == s.take(i as int));
            if sorted[i].top < top {
                top = sorted[i].top;
            }
            if sorted[i].left < left {
                left = sorted[i].left;
            }
            if sorted[i].right > right {
                right = sorted[i].right;
            }
            i = i + 1;
        }
        assert(s.take(n as int) == s);
        proof {
            lemma_bounding_box(s);
            assert(sorted@[0].wf());
            assert(sorted@[0].spec_right() <= right);
        }
        let ghost h0 = start_heights(s);
        let mut height_map = PiecewiseConstant::new(left..right, top);
        let ghost mut cur: spec_fn(int) -> int = h0;
        let mut i: usize = 0;
        proof {
            lemma_sort_rects_same(input);
            lemma_sort_rects_sorted(input);
        }
        while i < n
            invariant
                i <= n,
                rects_sorted(s),
                top == min_top(s),
                forall|j: int| 0 <= j < s.len() ==> top <= (#[trigger] s[j]).spec_top(),
                stacked(s, i as int, cur, left as int, right as int, top as int),
                forall|x: int, y: int| #[trigger] cover_count(s, x, y) == cover_count(input, x, y),
                n == s.len(),
                s == sorted@,
                s == sort_rects(input),
                input == rects@,
                input.len() > 0,
                h0 == start_heights(s),
                forall|j: int| 0 <= j < s.len() ==> #[trigger] s[j].wf(),
                forall|j: int|
                    0 <= j < s.len() ==> left <= (#[trigger] s[j]).spec_left() && s[j].spec_right()
                        <= right,
                height_map.spec_start() == left,
                height_map.spec_end() == right,
                forall|x: int| left <= x < right ==> #[trigger] height_map.spec_value(x) == cur(x),
                sweep_fail(s, h0) == sweep_fail(s.skip(i as int), cur),
                sweep_heights(s, h0) == sweep_heights(s.skip(i as int), cur),
            decreases n - i,
        {
            let rect = sorted[i];
            proof {
                assert(s.skip(i as int)[0] == rect);
                assert(s.skip(i as int).drop_first() == s.skip(i + 1));
                assert(rect.wf());
            }
            let height = height_map.range_value(rect.left..rect.right);
            let fits_here = match height {
                Some(v) => v == rect.top,
                None => false,
            };
            proof {
                if fits_here {
                    assert forall|x: int| rect.spec_left() <= x < rect.spec_right() implies #[trigger] cur(
                        x,
                    ) == rect.spec_top() by {
                        assert(height_map.spec_value(x) == height_map.spec_value(rect.left as int));
                    }
                } else if fits(cur, rect) {
                    assert forall|x: int| rect.left <= x < rect.right implies #[trigger] height_map.spec_value(
                        x,
                    ) == height_map.spec_value(rect.left as int) by {
                        assert(cur(x) == rect.spec_top());
                    }
                }
            }
            if !fits_here {
                // The leftmost column of the rectangle that it does not sit on.
                let mut x = rect.left;
                while x < rect.right && height_map.value(x) == rect.top
                    invariant
                        rect.left <= x <= rect.right,
                        left <= rect.left,
                        rect.right <= right,
                        height_map.spec_start() == left,
                        height_map.spec_end() == right,
                        forall|z: int| left <= z < right ==> #[trigger] height_map.spec_value(z) == cur(z),
                        forall|z: int| rect.left <= z < x ==> #[trigger] cur(z) == rect.top,
                    decreases rect.right - x,
                {
                    x = x + 1;
                }
                proof {
                    assert(!fits(cur, rect));
                    assert(x < rect.right);
                    assert(is_first_off(cur, rect.left as int, rect.right as int, rect.top as int, x as int));
                    let x2 = choose|x2: int| is_first_off(cur, rect.left as int, rect.right as int, rect.top as int, x2);
                    if x2 < x {
                        assert(cur(x2) == rect.top);
                    } else if x2 > x {
                        assert(cur(x as int) == rect.top);
                    }
                    assert(sweep_fail(s.skip(i as int), cur) == Some(fail_square(cur, rect)));
                    lemma_fail_square_count(s, i as int, cur, left as int, right as int, top as int, x as int);
                }
                let hx = height_map.value(x);
                let y = if hx > rect.top {
                    rect.top
                } else {
                    hx
                };
                return Err(RectPartitionError::NotPartition { x, y });
            }
            height_map.set_range_value(rect.left..rect.right, rect.bottom);
            proof {
                lemma_stacked_raise(s, i as int, cur, left as int, right as int, top as int);
                cur = raise(cur, rect);
            }
            i = i + 1;
        }
        proof {
            assert(s.skip(n as int) == Seq::<Rect>::empty());
            use_type_invariant(&height_map);
        }
        let ghost h = cur;
        let ghost bp = height_map.data@;
        let ghost (lo, hi) = (left as int, right as int);
        let len = height_map.data.len();
        proof {
            assert forall|x: int| lo <= x < hi implies #[trigger] h(x) == bp[last_le(bp, x)].1
                && 0 <= last_le(bp, x) < bp.len() by {
                assert(height_map.spec_value(x) == h(x));
                lemma_last_le_bounds(bp, x);
            }
        }
        // The largest height.
        let mut m = height_map.data[0].1;
        let mut k: usize = 1;
        let ghost mut km: int = 0;
        while k < len
            invariant
                1 <= k <= len,
                len == bp.len(),
                bp == height_map.data@,
                0 <= km < k,
                bp[km].1 == m,
                stacked(s, s.len() as int, h, lo, hi, top as int),
                forall|x: int, y: int| #[trigger] cover_count(s, x, y) == cover_count(input, x, y),
                forall|t: int| 0 <= t < k ==> #[trigger] bp[t].1 <= m,
            decreases len - k,
        {
            if height_map.data[k].1 > m {
                m = height_map.data[k].1;
                proof {
                    km = k as int;
                }
            }
            k = k + 1;
        }
        proof {
            lemma_value_at_key(bp, lo, hi, km);
            assert(h(bp[km].0 as int) == m);
            assert(is_max_height(h, lo, hi, m as int));
            let m2 = choose|m2: int| is_max_height(h, lo, hi, m2);
            let x2 = choose|x2: int| lo <= x2 < hi && #[trigger] h(x2) == m2;
            assert(h(x2) <= m);
            assert(h(bp[km].0 as int) <= m2);
            assert(m2 == m);
            assert(sweep_fail(s, h0) == None::<(u64, u64)>);
        }
        // The leftmost column below the largest height.
        let mut j: usize = 0;
        while j < len
            invariant
                j <= len,
                len == bp.len(),
                bp == height_map.data@,
                breakpoints_wf(bp, lo, hi),
                hi <= u64::MAX,
                s == sort_rects(input),
                input == rects@,
                input.len() > 0,
                h0 == start_heights(s),
                sweep_fail(s, h0) == None::<(u64, u64)>,
                h == sweep_heights(s, h0),
                forall|t: int| 0 <= t < s.len() ==> (#[trigger] s[t]).wf(),
                forall|t: int| 0 <= t < input.len() ==> (#[trigger] input[t]).wf(),
                partition_outcome(input) == (if forall|x: int| lo <= x < hi ==> #[trigger] h(x) == m {
                    Ok::<Seq<Rect>, RectPartitionError>(s)
                } else {
                    Err::<Seq<Rect>, RectPartitionError>(RectPartitionError::NotPartition {
                        x: (choose|x: int| is_first_off(h, lo, hi, m as int, x)) as u64,
                        y: h(choose|x: int| is_first_off(h, lo, hi, m as int, x)) as u64,
                    })
                }),
                lo == min_left(s),
                hi == max_right(s),
                m == choose|m2: int| is_max_height(h, lo, hi, m2),
                forall|x: int|
                    lo <= x < hi ==> #[trigger] h(x) == bp[last_le(bp, x)].1 && 0 <= last_le(bp, x)
                        < bp.len(),
                forall|t: int| 0 <= t < j ==> #[trigger] bp[t].1 == m,
                stacked(s, s.len() as int, h, lo, hi, top as int),
                forall|x: int, y: int| #[trigger] cover_count(s, x, y) == cover_count(input, x, y),
            decreases len - j,
        {
            if height_map.data[j].1 != m {
                let (x, y) = height_map.data[j];
                proof {
                    lemma_value_at_key(bp, lo, hi, j as int);
                    assert(h(x as int) == y);
                    assert forall|z: int| lo <= z < x implies #[trigger] h(z) == m by {
                        lemma_last_le_bounds(bp, z);
                        let t = last_le(bp, z);
                        assert(bp[t].0 <= z < bp[j as int].0);
                    }
                    assert(is_first_off(h, lo, hi, m as int, x as int));
                    let x2 = choose|x2: int| is_first_off(h, lo, hi, m as int, x2);
                    assert(x2 == x);
                    lemma_end_square_count(s, h, lo, hi, top as int, x as int);
                }
                return Err(RectPartitionError::NotPartition { x, y });
            }
            j = j + 1;
        }
        proof {
            lemma_partition_outcome(input);
            lemma_sort_rects_same(input);
            let b = choose|b: (int, int, int, int)| partitions(input, b);
            assert forall|x: int, y: int| #[trigger] cover_count(s, x, y) == if b.0 <= x < b.2
                && b.1 <= y < b.3 {
                1int
            } else {
                0int
            } by {
                assert(cover_count(input, x, y) == cover_count(s, x, y));
            }
            assert(partitions(s, b));
            lemma_sort_rects_sorted(input);
        }
        Ok(RectPartition { rects: sorted })
    }
}

/// After the first `i` rectangles of `s` are stacked onto the columns `lo..hi` from the height
/// `base`, giving the heights `h`: each of them lies below the height of each of its columns, and
/// each column is at `base` or at the bottom edge of one of them.
pub open spec fn stacked(s: Seq<Rect>, i: int, h: spec_fn(int) -> int, lo: int, hi: int, base: int) -> bool {
    &&& forall|j: int, z: int|
        #![trigger s[j], h(z)]
        0 <= j < i && s[j].spec_left() <= z < s[j].spec_right() ==> s[j].spec_bottom() <= h(z)
    &&& forall|z: int|
        lo <= z < hi ==> #[trigger] h(z) == base || exists|j: int|
            0 <= j < i && s[j].spec_left() <= z < s[j].spec_right() && #[trigger] s[j].spec_bottom()
                == h(z)
}

/// Stacking the next rectangle, where it fits, keeps the heights [`stacked`].
proof fn lemma_stacked_raise(s: Seq<Rect>, i: int, h: spec_fn(int) -> int, lo: int, hi: int, base: int)
    requires
        0 <= i < s.len(),
        stacked(s, i, h, lo, hi, base),
        fits(h, s[i]),
        s[i].wf(),
    ensures
        stacked(s, i + 1, raise(h, s[i]), lo, hi, base),
{
    let r = s[i];
    let h2 = raise(h, r);
    assert forall|j: int, z: int|
        #![trigger s[j], h2(z)]
        0 <= j < i + 1 && s[j].spec_left() <= z < s[j].spec_right() implies s[j].spec_bottom() <= h2(z) by {
        if j < i {
            assert(s[j].spec_bottom() <= h(z));
            if r.spec_left() <= z < r.spec_right() {
                assert(h(z) == r.spec_top());
            }
        }
    }
    assert forall|z: int| lo <= z < hi implies #[trigger] h2(z) == base || exists|j: int|
        0 <= j < i + 1 && s[j].spec_left() <= z < s[j].spec_right() && #[trigger] s[j].spec_bottom()
            == h2(z) by {
        if r.spec_left() <= z < r.spec_right() {
            assert(s[i].spec_bottom() == h2(z));
        } else if h(z) != base {
            let j = choose|j: int|
                0 <= j < i && s[j].spec_left() <= z < s[j].spec_right() && #[trigger] s[j].spec_bottom()
                    == h(z);
            assert(s[j].spec_bottom() == h2(z));
        }
    }
}

/// A square that two rectangles of `s` contain is counted at least twice.
proof fn lemma_count_two(s: Seq<Rect>, a: int, b: int, x: int, y: int)
    requires
        0 <= a < b < s.len(),
        s[a].covers(x, y),
        s[b].covers(x, y),
    ensures
        cover_count(s, x, y) >= 2,
    decreases s.len(),
{
    if b == s.len() - 1 {
        lemma_count_pos(s.drop_last(), x, y);
        assert(s.drop_last()[a] == s[a]);
    } else {
        lemma_count_two(s.drop_last(), a, b, x, y);
        assert(s.drop_last()[a] == s[a] && s.drop_last()[b] == s[b]);
        lemma_count_pos(s, x, y);
    }
}

/// The square that the sweep reports for a rectangle that does not fit (see [`fail_square`]) is
/// not covered exactly once: either an earlier rectangle covers it too, or nothing does.
proof fn lemma_fail_square_count(
    s: Seq<Rect>,
    i: int,
    h: spec_fn(int) -> int,
    lo: int,
    hi: int,
    base: int,
    x: int,
)
    requires
        0 <= i < s.len(),
        stacked(s, i, h, lo, hi, base),
        rects_sorted(s),
        forall|j: int| 0 <= j < s.len() ==> (#[trigger] s[j]).wf(),
        forall|j: int| 0 <= j < s.len() ==> base <= (#[trigger] s[j]).spec_top(),
        lo <= s[i].spec_left(),
        s[i].spec_right() <= hi,
        is_first_off(h, s[i].spec_left() as int, s[i].spec_right() as int, s[i].spec_top() as int, x),
    ensures
        cover_count(s, x, if h(x) > s[i].spec_top() {
            s[i].spec_top() as int
        } else {
            h(x)
        }) != 1,
{
    let r = s[i];
    assert(r.wf());
    assert(base <= r.spec_top());
    if h(x) > r.spec_top() {
        let y = r.spec_top() as int;
        let j = choose|j: int|
            0 <= j < i && s[j].spec_left() <= x < s[j].spec_right() && #[trigger] s[j].spec_bottom()
                == h(x);
        assert(before_or_tied(s[j], s[i]));
        assert(s[j].wf());
        lemma_count_two(s, j, i, x, y);
    } else {
        let y = h(x);
        assert forall|j: int| 0 <= j < s.len() implies !(#[trigger] s[j]).covers(x, y) by {
            if j < i {
                if s[j].spec_left() <= x < s[j].spec_right() {
                    assert(s[j].spec_bottom() <= h(x));
                }
            } else if j > i {
                assert(before_or_tied(s[i], s[j]));
            }
        }
        lemma_count_pos(s, x, y);
    }
}

/// Once all rectangles are stacked, the square at the height of a column is covered by none.
proof fn lemma_end_square_count(s: Seq<Rect>, h: spec_fn(int) -> int, lo: int, hi: int, base: int, x: int)
    requires
        stacked(s, s.len() as int, h, lo, hi, base),
    ensures
        cover_count(s, x, h(x)) == 0,
{
    assert forall|j: int| 0 <= j < s.len() implies !(#[trigger] s[j]).covers(x, h(x)) by {
        if s[j].spec_left() <= x < s[j].spec_right() {
            assert(s[j].spec_bottom() <= h(x));
        }
    }
    lemma_count_pos(s, x, h(x));
}

/// The number of rectangles of `s` that contain `(x, y)`.
pub open spec fn cover_count(s: Seq<Rect>, x: int, y: int) -> int
    decreases s.len(),
{
    if s.len() == 0 {
        0
    } else {
        cover_count(s.drop_last(), x, y) + if s.last().covers(x, y) {
            1int
        } else {
            0int
        }
    }
}

/// The rectangles of `rects` cover a rectangle `box_`, each square of it exactly once, and
/// nothing outside it. (`box_` is `(left, top, right, bottom)`.)
pub open spec fn partitions(rects: Seq<Rect>, box_: (int, int, int, int)) -> bool {
    forall|x: int, y: int|
        #[trigger] cover_count(rects, x, y) == if box_.0 <= x < box_.2 && box_.1 <= y < box_.3 {
            1int
        } else {
            0int
        }
}

/// The rectangles of `rects` cover some rectangle, each square of it exactly once, and nothing
/// outside it.
pub open spec fn is_partition(rects: Seq<Rect>) -> bool {
    exists|box_: (int, int, int, int)| partitions(rects, box_)
}

/// Counting over two sequences one after the other adds the counts.
proof fn lemma_count_append(a: Seq<Rect>, b: Seq<Rect>, x: int, y: int)
    ensures
        cover_count(a + b, x, y) == cover_count(a, x, y) + cover_count(b, x, y),
    decreases b.len(),
{
    if b.len() > 0 {
        lemma_count_append(a, b.drop_last(), x, y);
        assert((a + b).drop_last() == a + b.drop_last());
    }
}

/// A count is positive exactly when some rectangle contains the square.
proof fn lemma_count_pos(s: Seq<Rect>, x: int, y: int)
    ensures
        cover_count(s, x, y) >= 0,
        cover_count(s, x, y) > 0 <==> exists|i: int| 0 <= i < s.len() && (#[trigger] s[i]).covers(x, y),
    decreases s.len(),
{
    if s.len() > 0 {
        lemma_count_pos(s.drop_last(), x, y);
        if cover_count(s, x, y) > 0 {
            if !s.last().covers(x, y) {
                let i = choose|i: int| 0 <= i < s.drop_last().len() && (#[trigger] s.drop_last()[i]).covers(x, y);
                assert(s[i] == s.drop_last()[i]);
            }
        }
        if exists|i: int| 0 <= i < s.len() && (#[trigger] s[i]).covers(x, y) {
            let i = choose|i: int| 0 <= i < s.len() && (#[trigger] s[i]).covers(x, y);
            if i < s.len() - 1 {
                assert(s.drop_last()[i] == s[i]);
            }
        }
    }
}

/// Inserting `r` adds its count.
proof fn lemma_count_insert(t: Seq<Rect>, r: Rect, x: int, y: int)
    ensures
        cover_count(insert_rect(t, r), x, y) == cover_count(t, x, y) + if r.covers(x, y) {
            1int
        } else {
            0int
        },
    decreases t.len(),
{
    if t.len() == 0 || before_or_tied(t.last(), r) {
        assert(t.push(r).drop_last() == t);
    } else {
        lemma_count_insert(t.drop_last(), r, x, y);
        assert(insert_rect(t.drop_last(), r).push(t.last()).drop_last() == insert_rect(
            t.drop_last(),
            r,
        ));
    }
}

/// Sorting keeps the counts, and every rectangle of the sorted sequence comes from `s`.
proof fn lemma_sort_rects_same(s: Seq<Rect>)
    ensures
        forall|x: int, y: int| #[trigger] cover_count(sort_rects(s), x, y) == cover_count(s, x, y),
        forall|i: int|
            0 <= i < sort_rects(s).len() ==> s.contains(#[trigger] sort_rects(s)[i]),
    decreases s.len(),
{
    if s.len() > 0 {
        let t = sort_rects(s.drop_last());
        lemma_sort_rects_same(s.drop_last());
        lemma_sort_rects_sorted(s.drop_last());
        lemma_insert_rect_sorted(t, s.last());
        assert forall|x: int, y: int| #[trigger] cover_count(sort_rects(s), x, y) == cover_count(
            s,
            x,
            y,
        ) by {
            lemma_count_insert(t, s.last(), x, y);
        }
        assert forall|i: int| 0 <= i < sort_rects(s).len() implies s.contains(
            #[trigger] sort_rects(s)[i],
        ) by {
            let z = sort_rects(s)[i];
            assert(insert_rect(t, s.last()).contains(z));
            if z != s.last() {
                let k = choose|k: int| 0 <= k < t.len() && t[k] == z;
                assert(s.drop_last().contains(z));
                let m = choose|m: int| 0 <= m < s.drop_last().len() && s.drop_last()[m] == z;
                assert(s[m] == z);
            } else {
                assert(s[s.len() - 1] == z);
            }
        }
    }
}

/// The heights after adding the first `k` rectangles of `s` to `h`.
pub open spec fn prefix_heights(s: Seq<Rect>, h: spec_fn(int) -> int, k: int) -> spec_fn(int) -> int
    decreases k,
{
    if k <= 0 {
        h
    } else {
        raise(prefix_heights(s, h, k - 1), s[k - 1])
    }
}

/// While the first `k` rectangles fit, the sweep goes on from the heights after them.
proof fn lemma_sweep_prefix(s: Seq<Rect>, h: spec_fn(int) -> int, k: int)
    requires
        0 <= k <= s.len(),
        forall|j: int| 0 <= j < k ==> fits(prefix_heights(s, h, j), #[trigger] s[j]),
    ensures
        sweep_fail(s, h) == sweep_fail(s.skip(k), prefix_heights(s, h, k)),
        sweep_heights(s, h) == sweep_heights(s.skip(k), prefix_heights(s, h, k)),
    decreases k,
{
    if k > 0 {
        lemma_sweep_prefix(s, h, k - 1);
        let t = s.skip(k - 1);
        assert(t[0] == s[k - 1]);
        assert(t.drop_first() == s.skip(k));
    } else {
        assert(s.skip(0) == s);
    }
}

/// While the rectangles fit, the rectangles added so far cover each column of the bounding box
/// from the top of the box to the column's height, each square once, and nothing else.
proof fn lemma_sweep_cover(s: Seq<Rect>, k: int)
    requires
        s.len() > 0,
        0 <= k <= s.len(),
        forall|i: int| 0 <= i < s.len() ==> (#[trigger] s[i]).wf(),
        forall|j: int|
            0 <= j < k ==> fits(prefix_heights(s, start_heights(s), j), #[trigger] s[j]),
    ensures
        forall|x: int, y: int|
            #[trigger] cover_count(s.take(k), x, y) == if min_left(s) <= x < max_right(s)
                && min_top(s) <= y < prefix_heights(s, start_heights(s), k)(x) {
                1int
            } else {
                0int
            },
        forall|x: int| min_top(s) <= #[trigger] prefix_heights(s, start_heights(s), k)(x),
    decreases k,
{
    let h0 = start_heights(s);
    lemma_bounding_box(s);
    if k == 0 {
        assert forall|x: int, y: int| #[trigger] cover_count(s.take(k), x, y) == 0 by {
            assert(s.take(0).len() == 0);
        }
    } else {
        lemma_sweep_cover(s, k - 1);
        let r = s[k - 1];
        r.lemma_wf();
        let hp = prefix_heights(s, h0, k - 1);
        assert(fits(hp, r));
        assert forall|x: int, y: int| #[trigger] cover_count(s.take(k), x, y) == if min_left(s)
            <= x < max_right(s) && min_top(s) <= y < prefix_heights(s, h0, k)(x) {
            1int
        } else {
            0int
        } by {
            assert(s.take(k).drop_last() == s.take(k - 1));
            assert(s.take(k).last() == r);
            assert(cover_count(s.take(k - 1), x, y) == if min_left(s) <= x < max_right(s)
                && min_top(s) <= y < hp(x) {
                1int
            } else {
                0int
            });
            if r.spec_left() <= x < r.spec_right() {
                assert(hp(x) == r.spec_top());
            }
        }
        assert forall|x: int| min_top(s) <= #[trigger] prefix_heights(s, h0, k)(x) by {
            assert(min_top(s) <= hp(x));
        }
    }
}

/// The edges of the bounding box of `s` are edges of rectangles of `s`.
proof fn lemma_bounding_box_attained(s: Seq<Rect>)
    requires
        s.len() > 0,
    ensures
        exists|i: int| 0 <= i < s.len() && (#[trigger] s[i]).spec_left() == min_left(s),
        exists|i: int| 0 <= i < s.len() && (#[trigger] s[i]).spec_top() == min_top(s),
        exists|i: int| 0 <= i < s.len() && (#[trigger] s[i]).spec_right() == max_right(s),
    decreases s.len(),
{
    if s.len() > 1 {
        let t = s.drop_last();
        lemma_bounding_box_attained(t);
        let a = choose|i: int| 0 <= i < t.len() && (#[trigger] t[i]).spec_left() == min_left(t);
        let b = choose|i: int| 0 <= i < t.len() && (#[trigger] t[i]).spec_top() == min_top(t);
        let c = choose|i: int| 0 <= i < t.len() && (#[trigger] t[i]).spec_right() == max_right(t);
        assert(s[a] == t[a] && s[b] == t[b] && s[c] == t[c]);
        assert(s[s.len() - 1] == s.last());
    } else {
        assert(s[0].spec_left() == min_left(s));
    }
}

/// If the sweep does not get stuck, every rectangle fits when its turn comes.
proof fn lemma_sweep_all_fit(s: Seq<Rect>, h: spec_fn(int) -> int, k: int)
    requires
        0 <= k <= s.len(),
        sweep_fail(s, h) == None::<(u64, u64)>,
    ensures
        forall|j: int| 0 <= j < k ==> fits(prefix_heights(s, h, j), #[trigger] s[j]),
    decreases k,
{
    if k > 0 {
        lemma_sweep_all_fit(s, h, k - 1);
        lemma_sweep_prefix(s, h, k - 1);
        assert(s.skip(k - 1)[0] == s[k - 1]);
    }
}

/// A successful outcome comes from a partition.
#[verifier::spinoff_prover]
#[verifier::rlimit(40)]
proof fn lemma_outcome_ok_partitions(rects: Seq<Rect>)
    requires
        forall|i: int| 0 <= i < rects.len() ==> (#[trigger] rects[i]).wf(),
        rects.len() > 0,
        partition_outcome(rects) is Ok,
    ensures
        is_partition(rects),
{
    let s = sort_rects(rects);
    let n = s.len() as int;
    lemma_sort_rects_same(rects);
    lemma_sort_rects_sorted(rects);
    assert forall|i: int| 0 <= i < s.len() implies (#[trigger] s[i]).wf() by {
        assert(rects.contains(s[i]));
    }
    lemma_bounding_box(s);
    lemma_bounding_box_attained(s);
    let (lo, top, hi) = (min_left(s), min_top(s), max_right(s));
    let h0 = start_heights(s);
    assert(s.take(n) == s);
    assert(sweep_fail(s, h0) == None::<(u64, u64)>);
    lemma_sweep_all_fit(s, h0, n);
    lemma_sweep_prefix(s, h0, n);
    lemma_sweep_cover(s, n);
    let h = prefix_heights(s, h0, n);
    assert(sweep_heights(s, h0) == h);
    let m = choose|m: int| is_max_height(h, lo, hi, m);
    assert(forall|x: int| lo <= x < hi ==> #[trigger] h(x) == m);
    assert forall|x: int, y: int| #[trigger] cover_count(rects, x, y) == if lo <= x < hi
        && top <= y < m {
        1int
    } else {
        0int
    } by {
        assert(cover_count(s, x, y) == cover_count(rects, x, y));
        assert(cover_count(s.take(n), x, y) == cover_count(s, x, y));
        if lo <= x < hi {
            assert(h(x) == m);
        }
    }
    assert(partitions(rects, (lo, top, hi, m)));
}

/// A partition gives a successful outcome.
#[verifier::spinoff_prover]
#[verifier::rlimit(40)]
proof fn lemma_partition_outcome_ok(rects: Seq<Rect>)
    requires
        forall|i: int| 0 <= i < rects.len() ==> (#[trigger] rects[i]).wf(),
        rects.len() > 0,
        is_partition(rects),
    ensures
        partition_outcome(rects) is Ok,
{
    let s = sort_rects(rects);
    let n = s.len() as int;
    lemma_sort_rects_same(rects);
    lemma_sort_rects_sorted(rects);
    assert forall|i: int| 0 <= i < s.len() implies (#[trigger] s[i]).wf() by {
        assert(rects.contains(s[i]));
    }
    lemma_bounding_box(s);
    lemma_bounding_box_attained(s);
    let (lo, top, hi) = (min_left(s), min_top(s), max_right(s));
    let h0 = start_heights(s);
    assert(s.take(n) == s);
    let b = choose|b: (int, int, int, int)| partitions(rects, b);
    // Each square is covered at most once.
    assert forall|x: int, y: int| cover_count(s, x, y) == cover_count(rects, x, y)
        && #[trigger] cover_count(s, x, y) == if b.0 <= x < b.2 && b.1 <= y < b.3 {
        1int
    } else {
        0int
    } by {}
    // The box holds the bounding box of `s`, and the top of the bounding box.
    let ia = choose|i: int| 0 <= i < s.len() && (#[trigger] s[i]).spec_left() == lo;
    let ib = choose|i: int| 0 <= i < s.len() && (#[trigger] s[i]).spec_top() == top;
    let ic = choose|i: int| 0 <= i < s.len() && (#[trigger] s[i]).spec_right() == hi;
    s[ia].lemma_wf();
    s[ib].lemma_wf();
    s[ic].lemma_wf();
    lemma_count_pos(s, lo, s[ia].spec_top() as int);
    lemma_count_pos(s, s[ib].spec_left() as int, top);
    lemma_count_pos(s, hi - 1, s[ic].spec_top() as int);
    assert(b.0 <= lo && hi <= b.2 && b.1 <= top < b.3);
    // Every rectangle fits when its turn comes.
    assert(partitions(s, b));
    lemma_all_fit_in_partition(s, b, n);
    lemma_sweep_prefix(s, h0, n);
    lemma_sweep_cover(s, n);
    let h = prefix_heights(s, h0, n);
    assert(sweep_fail(s, h0) == None::<(u64, u64)>);
    assert(sweep_heights(s, h0) == h);
    // Every column of the bounding box ends at the bottom of the box.
    assert forall|x: int| lo <= x < hi implies #[trigger] h(x) == b.3 by {
        assert(cover_count(s, x, b.1) == 1);
        if h(x) > b.3 {
            assert(cover_count(s, x, b.3) == 1);
        } else if h(x) < b.3 {
            assert(cover_count(s, x, b.3 - 1) == 0);
        }
    }
    assert(h(lo) == b.3);
    assert(is_max_height(h, lo, hi, b.3));
    let m = choose|m: int| is_max_height(h, lo, hi, m);
    let xm = choose|x: int| lo <= x < hi && #[trigger] h(x) == m;
    assert(m == b.3);
}

/// [`RectPartition::new`] succeeds exactly on the non-empty lists of rectangles that cover a
/// rectangle, each square of it exactly once, and nothing outside it.
pub proof fn lemma_partition_outcome(rects: Seq<Rect>)
    requires
        forall|i: int| 0 <= i < rects.len() ==> (#[trigger] rects[i]).wf(),
    ensures
        partition_outcome(rects) is Ok <==> rects.len() > 0 && is_partition(rects),
{
    if rects.len() > 0 {
        if partition_outcome(rects) is Ok {
            lemma_outcome_ok_partitions(rects);
        }
        if is_partition(rects) {
            lemma_partition_outcome_ok(rects);
        }
    }
}

/// In a partition sorted by top edge, every rectangle fits when its turn comes.
proof fn lemma_all_fit_in_partition(s: Seq<Rect>, b: (int, int, int, int), k: int)
    requires
        s.len() > 0,
        0 <= k <= s.len(),
        rects_sorted(s),
        forall|i: int| 0 <= i < s.len() ==> (#[trigger] s[i]).wf(),
        partitions(s, b),
        b.1 <= min_top(s),
    ensures
        forall|j: int|
            0 <= j < k ==> fits(prefix_heights(s, start_heights(s), j), #[trigger] s[j]),
    decreases k,
{
    if k > 0 {
        lemma_all_fit_in_partition(s, b, k - 1);
        lemma_fits_in_partition(s, b, k - 1);
    }
}

/// In a partition sorted by top edge, each rectangle fits when its turn comes, if the ones
/// before it did.
proof fn lemma_fits_in_partition(s: Seq<Rect>, b: (int, int, int, int), k: int)
    requires
        s.len() > 0,
        0 <= k < s.len(),
        rects_sorted(s),
        forall|i: int| 0 <= i < s.len() ==> (#[trigger] s[i]).wf(),
        partitions(s, b),
        b.1 <= min_top(s),
        forall|j: int|
            0 <= j < k ==> fits(prefix_heights(s, start_heights(s), j), #[trigger] s[j]),
    ensures
        fits(prefix_heights(s, start_heights(s), k), s[k]),
{
    let h0 = start_heights(s);
    let hk = prefix_heights(s, h0, k);
    let r = s[k];
    r.lemma_wf();
    lemma_bounding_box(s);
    lemma_sweep_cover(s, k);
    assert(s.take(k) + s.skip(k) == s);
    assert(s.skip(k)[0] == r);
    assert forall|x: int| r.spec_left() <= x < r.spec_right() implies #[trigger] hk(x)
        == r.spec_top() by {
        let t = r.spec_top() as int;
        lemma_count_append(s.take(k), s.skip(k), x, t);
        lemma_count_pos(s.skip(k), x, t);
        lemma_count_pos(s.take(k), x, t);
        if hk(x) > t {
            assert(cover_count(s, x, t) >= 2);
        } else if hk(x) < t {
            let y0 = hk(x);
            lemma_count_append(s.take(k), s.skip(k), x, y0);
            lemma_count_pos(s.skip(k), x, y0);
            assert(cover_count(s, x, y0) == 1);
            let i = choose|i: int| 0 <= i < s.skip(k).len() && (#[trigger] s.skip(k)[i]).covers(x, y0);
            assert(s.skip(k)[i] == s[k + i]);
            if i > 0 {
                assert(before_or_tied(s[k], s[k + i]));
            }
        }
    }
}

impl Label for RectPartition {
    open spec fn spec_valid_size(&self, size: Size) -> bool {
        forall|pos: (u64, u64)| size.spec_is_within_bounds(pos) ==> #[trigger] self.is_covered(pos)
    }

    open spec fn spec_position_label(&self, size: Size, pos: (u64, u64)) -> int {
        self.first_containing(pos)
    }

    open spec fn spec_num_labels(&self, size: Size) -> int {
        self.view().len() as int
    }

    /// The partition covers a puzzle of the given size: as the rectangles cover a rectangle,
    /// it is enough that they cover the top left and bottom right positions.
    fn is_valid_size(&self, size: Size) -> (r: bool) {
        proof {
            use_type_invariant(self);
        }
        let (w, h) = (size.width(), size.height());
        let first = self.find((0, 0));
        let last = self.find((w - 1, h - 1));
        proof {
            let s = self.rects@;
            let b = choose|b: (int, int, int, int)| partitions(s, b);
            lemma_count_pos(s, 0, 0);
            lemma_count_pos(s, w - 1, h - 1);
            if first is Some && last is Some {
                assert forall|pos: (u64, u64)| size.spec_is_within_bounds(pos) implies #[trigger] self.is_covered(
                    pos,
                ) by {
                    lemma_count_pos(s, pos.0 as int, pos.1 as int);
                    assert(cover_count(s, 0, 0) == 1);
                    assert(cover_count(s, w - 1, h - 1) == 1);
                    assert(cover_count(s, pos.0 as int, pos.1 as int) == 1);
                }
            } else {
                assert(size.spec_is_within_bounds((0, 0)));
                assert(size.spec_is_within_bounds(((w - 1) as u64, (h - 1) as u64)));
            }
        }
        first.is_some() && last.is_some()
    }

    fn position_label(&self, size: Size, pos: (u64, u64)) -> (r: u64) {
        proof {
            use_type_invariant(self);
            assert(self.is_covered(pos));
        }
        match self.find(pos) {
            Some(i) => i as u64,
            None => 0,
        }
    }

    fn num_labels(&self, size: Size) -> (r: u64) {
        self.rects.len() as u64
    }
}

/// `a` comes no later than `b` when rectangles are ordered by their top edge, then their left
/// edge.
pub open spec fn before_or_tied(a: Rect, b: Rect) -> bool {
    a.spec_top() < b.spec_top() || (a.spec_top() == b.spec_top() && a.spec_left()
        <= b.spec_left())
}

/// Inserts `r` into `s` after every rectangle that comes no later than `r`.
pub open spec fn insert_rect(s: Seq<Rect>, r: Rect) -> Seq<Rect>
    decreases s.len(),
{
    if s.len() == 0 || before_or_tied(s.last(), r) {
        s.push(r)
    } else {
        insert_rect(s.drop_last(), r).push(s.last())
    }
}

/// `s` sorted by top edge, then by left edge, keeping the order of rectangles with the same top
/// left corner (a stable sort).
pub open spec fn sort_rects(s: Seq<Rect>) -> Seq<Rect>
    decreases s.len(),
{
    if s.len() == 0 {
        s
    } else {
        insert_rect(sort_rects(s.drop_last()), s.last())
    }
}

/// `s` is ordered by top edge, then by left edge.
pub open spec fn rects_sorted(s: Seq<Rect>) -> bool {
    forall|i: int, j: int| 0 <= i < j < s.len() ==> before_or_tied(#[trigger] s[i], #[trigger] s[j])
}

/// Inserting into a sorted sequence keeps it sorted, and adds `r` to its elements.
proof fn lemma_insert_rect_sorted(s: Seq<Rect>, r: Rect)
    requires
        rects_sorted(s),
    ensures
        rects_sorted(insert_rect(s, r)),
        insert_rect(s, r).len() == s.len() + 1,
        forall|x: Rect| #[trigger] insert_rect(s, r).contains(x) ==> x == r || s.contains(x),
    decreases s.len(),
{
    if s.len() == 0 || before_or_tied(s.last(), r) {
        assert forall|x: Rect| #[trigger] s.push(r).contains(x) implies x == r || s.contains(x) by {
            let k = choose|k: int| 0 <= k < s.push(r).len() && s.push(r)[k] == x;
            if k < s.len() {
                assert(s[k] == x);
            }
        }
    } else {
        let t = insert_rect(s.drop_last(), r);
        lemma_insert_rect_sorted(s.drop_last(), r);
        assert forall|i: int, j: int| 0 <= i < j < t.push(s.last()).len() implies before_or_tied(
            #[trigger] t.push(s.last())[i],
            #[trigger] t.push(s.last())[j],
        ) by {
            if j == t.len() {
                assert(t.contains(t[i]));
                if t[i] != r {
                    let k = choose|k: int| 0 <= k < s.drop_last().len() && s.drop_last()[k] == t[i];
                    assert(before_or_tied(s[k], s[s.len() - 1]));
                }
            }
        }
        assert forall|x: Rect| #[trigger] t.push(s.last()).contains(x) implies x == r
            || s.contains(x) by {
            let k = choose|k: int| 0 <= k < t.push(s.last()).len() && t.push(s.last())[k] == x;
            if k < t.len() {
                assert(t.contains(x));
                if x != r {
                    let m = choose|m: int| 0 <= m < s.drop_last().len() && s.drop_last()[m] == x;
                    assert(s[m] == x);
                }
            } else {
                assert(s[s.len() - 1] == x);
            }
        }
    }
}

/// [`sort_rects`] sorts.
proof fn lemma_sort_rects_sorted(s: Seq<Rect>)
    ensures
        rects_sorted(sort_rects(s)),
        sort_rects(s).len() == s.len(),
    decreases s.len(),
{
    if s.len() > 0 {
        lemma_sort_rects_sorted(s.drop_last());
        lemma_insert_rect_sorted(sort_rects(s.drop_last()), s.last());
    }
}

/// Inserting at position `p`, after every rectangle that comes no later than `r` and before the
/// rest (of a sorted sequence), is [`insert_rect`].
proof fn lemma_insert_rect(s: Seq<Rect>, r: Rect, p: int)
    requires
        0 <= p <= s.len(),
        forall|i: int| 0 <= i < p ==> before_or_tied(#[trigger] s[i], r),
        forall|i: int| p <= i < s.len() ==> !before_or_tied(#[trigger] s[i], r),
    ensures
        insert_rect(s, r) == s.insert(p, r),
    decreases s.len(),
{
    if s.len() == 0 {
        assert(s.insert(p, r) == s.push(r));
    } else if p == s.len() {
        assert(before_or_tied(s.last(), r));
        assert(s.insert(p, r) == s.push(r));
    } else {
        assert(!before_or_tied(s.last(), r));
        lemma_insert_rect(s.drop_last(), r, p);
        assert(s.insert(p, r) == s.drop_last().insert(p, r).push(s.last()));
    }
}

/// Sorts the rectangles by top edge, then by left edge, keeping the order of rectangles with the
/// same top left corner.
fn sort_by_top_left(v: &Vec<Rect>) -> (r: Vec<Rect>)
    ensures
        r@ == sort_rects(v@),
{
    let mut r: Vec<Rect> = Vec::new();
    let mut i: usize = 0;
    assert(v@.take(0) == Seq::<Rect>::empty());
    while i < v.len()
        invariant
            i <= v@.len(),
            r@ == sort_rects(v@.take(i as int)),
            r@.len() == i,
        decreases v@.len() - i,
    {
        let x = v[i];
        // Find the insertion point: after every rectangle no later than `x`.
        let mut p: usize = r.len();
        while p > 0 && !(r[p - 1].top < x.top || (r[p - 1].top == x.top && r[p - 1].left
            <= x.left))
            invariant
                p <= r@.len(),
                forall|j: int| p <= j < r@.len() ==> !before_or_tied(#[trigger] r@[j], x),
            decreases p,
        {
            p = p - 1;
        }
        proof {
            lemma_sort_rects_sorted(v@.take(i as int));
            if p > 0 {
                assert(before_or_tied(r@[p - 1], x));
                assert forall|j: int| 0 <= j < p implies before_or_tied(#[trigger] r@[j], x) by {
                    if j < p - 1 {
                        assert(before_or_tied(r@[j], r@[p - 1]));
                    }
                }
            }
            lemma_insert_rect(r@, x, p as int);
            assert(v@.take(i + 1).drop_last() == v@.take(i as int));
        }
        r.insert(p, x);
        i = i + 1;
    }
    assert(v@.take(v@.len() as int) == v@);
    r
}

/// The index of the last breakpoint of `bp` whose key is at most `x`, or -1 if there is none.
pub open spec fn last_le(bp: Seq<(u64, u64)>, x: int) -> int
    decreases bp.len(),
{
    if bp.len() == 0 {
        -1
    } else if bp.last().0 <= x {
        bp.len() - 1
    } else {
        last_le(bp.drop_last(), x)
    }
}

/// The keys of `bp` increase strictly.
pub open spec fn keys_increasing(bp: Seq<(u64, u64)>) -> bool {
    forall|i: int, j: int| 0 <= i < j < bp.len() ==> #[trigger] bp[i].0 < #[trigger] bp[j].0
}

/// The value at `x` of the step function with breakpoints `bp`: the value of the last
/// breakpoint at or left of `x`.
pub open spec fn step_value(bp: Seq<(u64, u64)>, x: int) -> int {
    let i = last_le(bp, x);
    if 0 <= i {
        bp[i].1 as int
    } else {
        0
    }
}

/// With increasing keys, `last_le` picks the breakpoint whose segment contains `x`.
proof fn lemma_last_le(bp: Seq<(u64, u64)>, x: int, i: int)
    requires
        keys_increasing(bp),
        0 <= i < bp.len(),
        bp[i].0 <= x,
        i + 1 == bp.len() || x < bp[i + 1].0,
    ensures
        last_le(bp, x) == i,
    decreases bp.len(),
{
    if i + 1 < bp.len() {
        assert(bp.last().0 >= bp[i + 1].0);
        lemma_last_le(bp.drop_last(), x, i);
    }
}

/// `last_le` lies in range, and its breakpoint's segment contains `x`.
proof fn lemma_last_le_bounds(bp: Seq<(u64, u64)>, x: int)
    requires
        keys_increasing(bp),
        bp.len() > 0,
        bp[0].0 <= x,
    ensures
        0 <= last_le(bp, x) < bp.len(),
        bp[last_le(bp, x)].0 <= x,
        last_le(bp, x) + 1 == bp.len() || x < bp[last_le(bp, x) + 1].0,
    decreases bp.len(),
{
    if bp.last().0 > x {
        lemma_last_le_bounds(bp.drop_last(), x);
    }
}

/// The breakpoints of a [`PiecewiseConstant`] on the domain `start..end`.
pub open spec fn breakpoints_wf(bp: Seq<(u64, u64)>, start: int, end: int) -> bool {
    &&& start < end
    &&& bp.len() > 0
    &&& bp[0].0 == start
    &&& keys_increasing(bp)
    &&& forall|i: int| 0 <= i < bp.len() ==> #[trigger] bp[i].0 < end
}

/// At a breakpoint inside the domain, the function takes the breakpoint's value.
proof fn lemma_value_at_key(bp: Seq<(u64, u64)>, start: int, end: int, i: int)
    requires
        breakpoints_wf(bp, start, end),
        0 <= i < bp.len(),
    ensures
        step_value(bp, clamp(bp[i].0 as int, start, end)) == bp[i].1,
{
    if i + 1 < bp.len() {
        assert(bp[i].0 < bp[i + 1].0);
    }
    lemma_last_le(bp, bp[i].0 as int, i);
}

/// If every breakpoint in `s..e` has the value at `s`, the function is constant on `s..e`.
proof fn lemma_constant_on(bp: Seq<(u64, u64)>, start: int, end: int, s: int, e: int)
    requires
        breakpoints_wf(bp, start, end),
        forall|i: int|
            0 <= i < bp.len() && s <= #[trigger] bp[i].0 < e ==> bp[i].1 == step_value(
                bp,
                clamp(s, start, end),
            ),
    ensures
        forall|x: int|
            s <= x < e ==> #[trigger] step_value(bp, clamp(x, start, end)) == step_value(
                bp,
                clamp(s, start, end),
            ),
{
    assert forall|x: int| s <= x < e implies #[trigger] step_value(bp, clamp(x, start, end))
        == step_value(bp, clamp(s, start, end)) by {
        let xc = clamp(x, start, end);
        let sc = clamp(s, start, end);
        lemma_last_le_bounds(bp, xc);
        let i = last_le(bp, xc);
        if x >= start && bp[i].0 < s {
            lemma_last_le(bp, sc, i);
        }
    }
}

/// Setting the function to `value` on `s..e`, from the breakpoints `bp`: those left of `s`,
/// then `s`, then `e` with the old value there (unless `e` ends the domain), then those right
/// of `e`.
proof fn lemma_set_range(
    bp: Seq<(u64, u64)>,
    start: int,
    end: int,
    s: int,
    e: int,
    value: u64,
    p: int,
    q: int,
    nbp: Seq<(u64, u64)>,
)
    requires
        breakpoints_wf(bp, start, end),
        start <= s < e <= end <= u64::MAX,
        0 <= p <= q <= bp.len(),
        forall|i: int| 0 <= i < p ==> #[trigger] bp[i].0 < s,
        p < bp.len() ==> bp[p].0 >= s,
        forall|i: int| 0 <= i < q ==> #[trigger] bp[i].0 <= e,
        q < bp.len() ==> bp[q].0 > e,
        nbp == bp.take(p) + seq![(s as u64, value)] + (if e < end {
            seq![(e as u64, step_value(bp, e) as u64)]
        } else {
            Seq::empty()
        }) + bp.skip(q),
        0 <= step_value(bp, e) <= u64::MAX,
    ensures
        breakpoints_wf(nbp, start, end),
        forall|x: int|
            start <= x < end ==> #[trigger] step_value(nbp, x) == if s <= x < e {
                value as int
            } else {
                step_value(bp, x)
            },
{
    let mid: Seq<(u64, u64)> = if e < end {
        seq![(e as u64, step_value(bp, e) as u64)]
    } else {
        Seq::empty()
    };
    let k = mid.len() as int;
    assert(nbp.len() == p + 1 + k + (bp.len() - q));
    assert forall|j: int| 0 <= j < nbp.len() implies #[trigger] nbp[j] == if j < p {
        bp[j]
    } else if j == p {
        (s as u64, value)
    } else if j < p + 1 + k {
        (e as u64, step_value(bp, e) as u64)
    } else {
        bp[j - p - 1 - k + q]
    } by {}
    assert(keys_increasing(nbp)) by {
        assert forall|i: int, j: int| 0 <= i < j < nbp.len() implies #[trigger] nbp[i].0
            < #[trigger] nbp[j].0 by {
            if j >= p + 1 + k {
                let jj = j - p - 1 - k + q;
                assert(bp[jj].0 >= bp[q].0);
                if i >= p + 1 + k {
                    assert(bp[i - p - 1 - k + q].0 < bp[jj].0);
                } else if i < p {
                    assert(bp[i].0 < s);
                }
            } else if i < p && j < p {
                assert(bp[i].0 < bp[j].0);
            } else if i < p {
                assert(bp[i].0 < s);
            }
        }
    }
    if p == 0 {
        assert(bp[0].0 >= s);
    }
    assert forall|x: int| start <= x < end implies #[trigger] step_value(nbp, x) == if s <= x
        < e {
        value as int
    } else {
        step_value(bp, x)
    } by {
        lemma_last_le_bounds(bp, x);
        let i = last_le(bp, x);
        if x < s {
            // The same breakpoint, among those kept left of `s`.
            assert(i < p);
            assert(nbp[i] == bp[i]);
            if i + 1 < p {
                assert(nbp[i + 1] == bp[i + 1]);
            } else {
                assert(nbp[i + 1].0 == s);
            }
            lemma_last_le(nbp, x, i);
        } else if x < e {
            lemma_last_le(nbp, x, p);
        } else {
            // Here `e < end`, so `e` is a breakpoint.
            if i < q {
                lemma_last_le_bounds(bp, e);
                assert(i + 1 == bp.len() || bp[i + 1].0 > x);
                assert(q == i + 1 || q == bp.len());
                lemma_last_le(bp, e, i);
                lemma_last_le(nbp, x, p + 1);
            } else {
                lemma_last_le(nbp, x, i - q + p + 1 + k);
            }
        }
    }
}

/// A function on the integers that is constant between finitely many breakpoints, over a
/// domain `start..end`: the value at `x` is the value of the last breakpoint at or left of `x`,
/// with `x` first clamped to the domain.
#[derive(Debug)]
pub struct PiecewiseConstant {
    data: Vec<(u64, u64)>,
    start: u64,
    end: u64,
}

/// `x` clamped to `[lo, hi]`.
pub open spec fn clamp(x: int, lo: int, hi: int) -> int {
    if x < lo {
        lo
    } else if x > hi {
        hi
    } else {
        x
    }
}

impl PiecewiseConstant {
    /// The breakpoints start at the start of the domain, increase, and stay inside the domain.
    #[verifier::type_invariant]
    pub closed spec fn wf(self) -> bool {
        &&& self.start < self.end
        &&& self.data@.len() > 0
        &&& self.data@[0].0 == self.start
        &&& keys_increasing(self.data@)
        &&& forall|i: int| 0 <= i < self.data@.len() ==> #[trigger] self.data@[i].0 < self.end
    }

    /// The start of the domain.
    pub closed spec fn spec_start(&self) -> int {
        self.start as int
    }

    /// The end of the domain (excluded).
    pub closed spec fn spec_end(&self) -> int {
        self.end as int
    }

    /// The value of the function at `x`.
    pub closed spec fn spec_value(&self, x: int) -> int {
        step_value(self.data@, clamp(x, self.start as int, self.end as int))
    }

    /// The breakpoints, in specifications.
    closed spec fn breakpoints(&self) -> Seq<(u64, u64)> {
        self.data@
    }

    /// The function that is `value` on the whole of `domain`.
    pub fn new(domain: Range<u64>, value: u64) -> (r: Self)
        requires
            domain.start < domain.end,
        ensures
            r.spec_start() == domain.start,
            r.spec_end() == domain.end,
            forall|x: int| #[trigger] r.spec_value(x) == value,
    {
        let mut data = Vec::new();
        data.push((domain.start, value));
        let r = Self { data, start: domain.start, end: domain.end };
        assert forall|x: int| #[trigger] r.spec_value(x) == value by {
            lemma_last_le(r.data@, clamp(x, r.start as int, r.end as int), 0);
        }
        r
    }

    /// The index of the breakpoint whose segment contains `x`, which lies in the domain.
    fn segment(&self, x: u64) -> (i: usize)
        requires
            self.spec_start() <= x <= self.spec_end(),
        ensures
            i == last_le(self.breakpoints(), x as int),
            i < self.breakpoints().len(),
    {
        proof {
            use_type_invariant(self);
        }
        let mut i: usize = 0;
        while i + 1 < self.data.len() && self.data[i + 1].0 <= x
            invariant
                self.wf(),
                self.start <= x,
                i < self.data.len(),
                self.data@[i as int].0 <= x,
            decreases self.data@.len() - i,
        {
            i = i + 1;
        }
        proof {
            lemma_last_le(self.data@, x as int, i as int);
        }
        i
    }

    /// The value of the function at `x`.
    pub fn value(&self, x: u64) -> (r: u64)
        ensures
            r == self.spec_value(x as int),
    {
        proof {
            use_type_invariant(self);
        }
        let x = if x < self.start {
            self.start
        } else if x > self.end {
            self.end
        } else {
            x
        };
        let i = self.segment(x);
        self.data[i].1
    }

    /// The value of the function on `range`, if it is the same at every point of `range`.
    pub fn range_value(&self, range: Range<u64>) -> (r: Option<u64>)
        requires
            range.start <= range.end,
        ensures
            r == if forall|x: int|
                range.start <= x < range.end ==> #[trigger] self.spec_value(x) == self.spec_value(
                    range.start as int,
                ) {
                Some(self.spec_value(range.start as int) as u64)
            } else {
                None::<u64>
            },
    {
        proof {
            use_type_invariant(self);
        }
        let v = self.value(range.start);
        let ghost bp = self.data@;
        let ghost (lo, hi) = (self.start as int, self.end as int);
        let mut i: usize = 0;
        while i < self.data.len()
            invariant
                self.wf(),
                bp == self.data@,
                lo == self.start,
                hi == self.end,
                v == self.spec_value(range.start as int),
                i <= self.data@.len(),
                forall|j: int|
                    0 <= j < i && range.start <= #[trigger] bp[j].0 < range.end ==> bp[j].1 == v,
            decreases self.data@.len() - i,
        {
            let (key, val) = self.data[i];
            if range.start <= key && key < range.end && val != v {
                proof {
                    lemma_value_at_key(bp, lo, hi, i as int);
                    assert(self.spec_value(key as int) != self.spec_value(range.start as int));
                }
                return None;
            }
            i = i + 1;
        }
        proof {
            lemma_constant_on(bp, lo, hi, range.start as int, range.end as int);
        }
        Some(v)
    }

    /// Sets the function to `value` on `range`, which lies in the domain.
    pub fn set_range_value(&mut self, range: Range<u64>, value: u64)
        requires
            old(self).spec_start() <= range.start < range.end <= old(self).spec_end(),
        ensures
            final(self).spec_start() == old(self).spec_start(),
            final(self).spec_end() == old(self).spec_end(),
            forall|x: int|
                old(self).spec_start() <= x < old(self).spec_end() ==> #[trigger] final(self).spec_value(x)
                    == if range.start <= x < range.end {
                    value as int
                } else {
                    old(self).spec_value(x)
                },
    {
        proof {
            use_type_invariant(&*self);
        }
        let (s, e) = (range.start, range.end);
        let ghost bp = self.data@;
        let ghost (lo, hi) = (self.start as int, self.end as int);
        // The value of the function just after `range`.
        let end_value = self.value(e);
        let len = self.data.len();
        let mut data: Vec<(u64, u64)> = Vec::new();
        let mut i: usize = 0;
        // Breakpoints left of `range` stay.
        while i < len && self.data[i].0 < s
            invariant
                self.wf(),
                bp == self.data@,
                len == bp.len(),
                i <= len,
                data@ == bp.take(i as int),
                forall|j: int| 0 <= j < i ==> #[trigger] bp[j].0 < s,
            decreases len - i,
        {
            data.push(self.data[i]);
            i = i + 1;
            assert(data@ == bp.take(i as int));
        }
        let p = i;
        data.push((s, value));
        if e < self.end {
            data.push((e, end_value));
        }
        // Breakpoints inside `range` go.
        while i < len && self.data[i].0 <= e
            invariant
                self.wf(),
                bp == self.data@,
                len == bp.len(),
                p <= i <= len,
                forall|j: int| 0 <= j < i ==> #[trigger] bp[j].0 <= e,
            decreases len - i,
        {
            i = i + 1;
        }
        let q = i;
        let ghost head = data@;
        // Breakpoints right of `range` stay.
        while i < len
            invariant
                self.wf(),
                bp == self.data@,
                len == bp.len(),
                q <= i <= len,
                data@ == head + bp.subrange(q as int, i as int),
            decreases len - i,
        {
            data.push(self.data[i]);
            i = i + 1;
            assert(data@ == head + bp.subrange(q as int, i as int));
        }
        proof {
            assert(bp.subrange(q as int, len as int) == bp.skip(q as int));
            if p < len {
                assert(bp[p as int].0 >= s);
            }
            let mid: Seq<(u64, u64)> = if e < hi {
                seq![(e, step_value(bp, e as int) as u64)]
            } else {
                Seq::empty()
            };
            assert(head == bp.take(p as int) + seq![(s, value)] + mid);
            assert(data@ == bp.take(p as int) + seq![(s, value)] + mid + bp.skip(q as int));
            lemma_set_range(bp, lo, hi, s as int, e as int, value, p as int, q as int, data@);
        }
        self.data = data;
    }
}

} // verus!
