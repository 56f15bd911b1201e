//! Defines the [`Label`] trait and several implementations.
//!
//! A label maps each position `(x, y)` of a puzzle to a number, its label; positions with equal
//! labels are treated alike (for example, they get the same color, or a puzzle counts as solved
//! when every piece sits on a position with the label of its home position).

use vstd::prelude::*;

use crate::arith::{lemma_index_bound, lemma_index_split, lemma_mul_le, lemma_sum_le_product};
use crate::puzzle::size::{group_size, Size};

verus! {

broadcast use group_size;

/// Error type for [`Label`].
#[derive(Clone, Copy, Debug, PartialEq, Eq)]
pub enum LabelError {
    /// Returned when the `(x, y)` position is outside the bounds of the puzzle.
    PositionOutOfBounds {
        /// Size of the puzzle.
        size: Size,
        /// Piece position.
        pos: (u64, u64),
    },
}

/// The smaller of `a` and `b`.
pub open spec fn min(a: int, b: int) -> int {
    if a <= b {
        a
    } else {
        b
    }
}

/// The larger of `a` and `b`.
pub open spec fn max(a: int, b: int) -> int {
    if a >= b {
        a
    } else {
        b
    }
}

/// `h - 2`, or 0 when `h` is less than 2.
pub open spec fn sub2(h: int) -> int {
    if h >= 2 {
        h - 2
    } else {
        0
    }
}

/// `|a - b|`
pub open spec fn abs_diff(a: int, b: int) -> int {
    if a >= b {
        a - b
    } else {
        b - a
    }
}

/// The `(width, height)` of a size, as integers.
pub open spec fn dims(size: Size) -> (int, int) {
    (size.spec_width() as int, size.spec_height() as int)
}

/// Provides a function mapping an `(x, y)` coordinate on a puzzle to a number which we call the
/// label of `(x, y)`.
///
/// On every size that the label supports, the label of each position of the puzzle is an
/// integer from 0 to `num_labels(size) - 1`: the contract of `position_label` states it.
pub trait Label {
    /// The sizes on which the label is defined.
    spec fn spec_valid_size(&self, size: Size) -> bool;

    /// The label of `pos` on a puzzle of the given size.
    spec fn spec_position_label(&self, size: Size, pos: (u64, u64)) -> int;

    /// The number of distinct labels on a puzzle of the given size.
    spec fn spec_num_labels(&self, size: Size) -> int;

    /// Checks whether the label is defined on a puzzle of the given size.
    fn is_valid_size(&self, size: Size) -> (r: bool)
        ensures
            r == self.spec_valid_size(size),
    ;

    /// Returns the label of `(x, y)` on a puzzle of the given size, an integer from 0 to
    /// `self.num_labels(size) - 1`.
    fn position_label(&self, size: Size, pos: (u64, u64)) -> (r: u64)
        requires
            size.area_fits(),
            size.spec_is_within_bounds(pos),
            self.spec_valid_size(size),
        ensures
            r == self.spec_position_label(size, pos),
            r < self.spec_num_labels(size),
    ;

    /// Returns the total number of distinct labels across all `(x, y)` positions in the puzzle.
    fn num_labels(&self, size: Size) -> (r: u64)
        requires
            size.area_fits(),
            self.spec_valid_size(size),
        ensures
            r == self.spec_num_labels(size),
    ;
}

/// A [`Label`] that gives every position of a puzzle its own label: on every valid size, the
/// labels are distinct and there are `width * height` of them.
pub trait BijectiveLabel: Label {
    /// Distinct positions have distinct labels, each from 0 to the number of labels, and there
    /// are as many labels as positions.
    proof fn lemma_bijective(&self, size: Size)
        requires
            size.area_fits(),
            self.spec_valid_size(size),
        ensures
            self.spec_num_labels(size) == size.spec_area(),
            forall|p: (u64, u64)|
                size.spec_is_within_bounds(p) ==> 0 <= #[trigger] self.spec_position_label(size, p)
                    < self.spec_num_labels(size),
            forall|p: (u64, u64), q: (u64, u64)|
                size.spec_is_within_bounds(p) && size.spec_is_within_bounds(q)
                    && #[trigger] self.spec_position_label(size, p)
                    == #[trigger] self.spec_position_label(size, q) ==> p == q,
    ;
}

/// A bijective label gives each number from 0 to `width * height - 1` to some position: its
/// labels are all of `0..width * height`.
pub proof fn lemma_bijective_onto<L: BijectiveLabel>(label: &L, size: Size, l: int)
    requires
        size.area_fits(),
        label.spec_valid_size(size),
        0 <= l < size.spec_area(),
    ensures
        exists|p: (u64, u64)|
            size.spec_is_within_bounds(p) && #[trigger] label.spec_position_label(size, p) == l,
{
    let (w, h) = dims(size);
    let n = size.spec_area() as int;
    assert(w > 0) by (nonlinear_arith)
        requires
            n == w * h,
            n > 0,
            w >= 0,
            h >= 0,
    ;
    label.lemma_bijective(size);
    let pos = |k: int| ((k % w) as u64, (k / w) as u64);
    let f = |k: int| label.spec_position_label(size, pos(k));
    let ks = vstd::set_lib::set_int_range(0, n);
    let labels = vstd::set_lib::set_int_range(0, n);
    vstd::set_lib::lemma_int_range(0, n);
    assert forall|k: int| 0 <= k < n implies size.spec_is_within_bounds(#[trigger] pos(k)) by {
        crate::arith::lemma_split_bound(k, w, h);
    }
    assert(vstd::relations::injective_on(f, ks)) by {
        assert forall|a: int, b: int| ks.contains(a) && ks.contains(b) && #[trigger] f(a) == #[trigger] f(b)
            implies a == b by {
            crate::arith::lemma_split_bound(a, w, h);
            crate::arith::lemma_split_bound(b, w, h);
            assert(size.spec_is_within_bounds(pos(a)) && size.spec_is_within_bounds(pos(b)));
            assert(label.spec_position_label(size, pos(a)) == label.spec_position_label(size, pos(b)));
            assert(pos(a) == pos(b));
        }
    }
    let image = ks.map(f);
    vstd::set_lib::lemma_map_size(ks, image, f);
    assert(image.subset_of(labels)) by {
        assert forall|v: int| image.contains(v) implies labels.contains(v) by {
            let k = choose|k: int| ks.contains(k) && f(k) == v;
            assert(size.spec_is_within_bounds(pos(k)));
        }
    }
    if !image.contains(l) {
        assert(image.subset_of(labels.remove(l)));
        vstd::set_lib::lemma_len_subset(image, labels.remove(l));
        assert(false);
    }
    let k = choose|k: int| ks.contains(k) && f(k) == l;
    assert(size.spec_is_within_bounds(pos(k)) && label.spec_position_label(size, pos(k)) == l);
}

/// A [`Label`] that is defined for a puzzle of a single size.
pub trait FixedSizeLabel {
    /// The label is defined on its size.
    spec fn spec_fixed_valid(&self) -> bool;

    /// The size, in specifications.
    spec fn spec_fixed_size(&self) -> Size;

    /// The label of `pos`, in specifications.
    spec fn spec_fixed_label(&self, pos: (u64, u64)) -> int;

    /// The number of labels, in specifications.
    spec fn spec_fixed_num_labels(&self) -> int;

    /// Returns the [`Size`] of the puzzle that this label is defined for.
    fn size(&self) -> (r: Size)
        ensures
            r == self.spec_fixed_size(),
    ;

    /// See [`Label::position_label`].
    fn position_label(&self, pos: (u64, u64)) -> (r: u64)
        requires
            self.spec_fixed_valid(),
            self.spec_fixed_size().spec_is_within_bounds(pos),
        ensures
            r == self.spec_fixed_label(pos),
            r < self.spec_fixed_num_labels(),
    ;

    /// See [`Label::num_labels`].
    fn num_labels(&self) -> (r: u64)
        requires
            self.spec_fixed_valid(),
        ensures
            r == self.spec_fixed_num_labels(),
    ;
}

/// A [`Label`] restricted to a single size.
#[derive(Clone, Debug, PartialEq, Eq, Hash)]
pub struct FixedSize<L: Label> {
    label: L,
    size: Size,
}

impl<L: Label> FixedSize<L> {
    /// Restricts `label` to puzzles of size `size`.
    pub fn new(label: L, size: Size) -> (r: Self)
        ensures
            r.spec_fixed_size() == size,
            r.spec_inner() == label,
    {
        FixedSize { label, size }
    }

    /// The label, in specifications.
    pub closed spec fn spec_inner(&self) -> L {
        self.label
    }
}

impl<L: Label> FixedSizeLabel for FixedSize<L> {
    closed spec fn spec_fixed_valid(&self) -> bool {
        self.size.area_fits() && self.label.spec_valid_size(self.size)
    }

    closed spec fn spec_fixed_size(&self) -> Size {
        self.size
    }

    closed spec fn spec_fixed_label(&self, pos: (u64, u64)) -> int {
        self.label.spec_position_label(self.size, pos)
    }

    closed spec fn spec_fixed_num_labels(&self) -> int {
        self.label.spec_num_labels(self.size)
    }

    fn size(&self) -> (r: Size) {
        self.size
    }

    fn position_label(&self, pos: (u64, u64)) -> (r: u64) {
        self.label.position_label(self.size, pos)
    }

    fn num_labels(&self) -> (r: u64) {
        self.label.num_labels(self.size)
    }
}

/// Methods that every [`Label`] has.
pub trait LabelExt: Label {
    /// See [`Label::position_label`]; an error if `pos` is out of bounds.
    fn try_position_label(&self, size: Size, pos: (u64, u64)) -> (r: Result<u64, LabelError>)
        requires
            size.area_fits(),
            self.spec_valid_size(size),
        ensures
            r == if size.spec_is_within_bounds(pos) {
                Ok::<u64, LabelError>(self.spec_position_label(size, pos) as u64)
            } else {
                Err::<u64, LabelError>(LabelError::PositionOutOfBounds { size, pos })
            },
    {
        if size.is_within_bounds(pos) {
            Ok(self.position_label(size, pos))
        } else {
            Err(LabelError::PositionOutOfBounds { size, pos })
        }
    }

    /// Restricts the [`Label`] to a single size.
    fn fixed_size(self, size: Size) -> (r: FixedSize<Self>)
        where Self: Sized,
        ensures
            r.spec_fixed_size() == size,
            r.spec_inner() == self,
    {
        FixedSize::new(self, size)
    }

    /// Restricts the [`Label`] to a single size, holding a reference to the label rather than
    /// taking ownership.
    fn fixed_size_ref(&self, size: Size) -> (r: FixedSize<&Self>)
        where Self: Sized,
        ensures
            r.spec_fixed_size() == size,
            r.spec_inner() == self,
    {
        FixedSize::new(self, size)
    }
}

impl<L: Label> LabelExt for L {
}

impl<'a, L: Label> Label for &'a L {
    open spec fn spec_valid_size(&self, size: Size) -> bool {
        (**self).spec_valid_size(size)
    }

    open spec fn spec_position_label(&self, size: Size, pos: (u64, u64)) -> int {
        (**self).spec_position_label(size, pos)
    }

    open spec fn spec_num_labels(&self, size: Size) -> int {
        (**self).spec_num_labels(size)
    }

    fn is_valid_size(&self, size: Size) -> (r: bool) {
        (**self).is_valid_size(size)
    }

    fn position_label(&self, size: Size, pos: (u64, u64)) -> (r: u64) {
        (**self).position_label(size, pos)
    }

    fn num_labels(&self, size: Size) -> (r: u64) {
        (**self).num_labels(size)
    }
}

/// Methods that every [`FixedSizeLabel`] has.
pub trait FixedSizeLabelExt: FixedSizeLabel {
    /// See [`Label::try_position_label`].
    fn try_position_label(&self, pos: (u64, u64)) -> (r: Result<u64, LabelError>)
        requires
            self.spec_fixed_valid(),
        ensures
            r == if self.spec_fixed_size().spec_is_within_bounds(pos) {
                Ok::<u64, LabelError>(self.spec_fixed_label(pos) as u64)
            } else {
                Err::<u64, LabelError>(
                    LabelError::PositionOutOfBounds { size: self.spec_fixed_size(), pos },
                )
            },
    {
        let size = self.size();
        if size.is_within_bounds(pos) {
            Ok(self.position_label(pos))
        } else {
            Err(LabelError::PositionOutOfBounds { size, pos })
        }
    }

}

impl<L: FixedSizeLabel> FixedSizeLabelExt for L {
}

/// Assigns 0 to every position.
#[derive(Clone, Copy, Debug, Default, PartialEq, Eq)]
pub struct Trivial;

/// Assigns distinct labels in left-to-right reading order: left to right along the top row,
/// then left to right along the second row, etc.
#[derive(Clone, Copy, Debug, Default, PartialEq, Eq)]
pub struct RowGrids;

/// Assigns a label to each row.
#[derive(Clone, Copy, Debug, Default, PartialEq, Eq)]
pub struct Rows;

/// Assigns a label to each fringe (combined row and column, starting from the top left).
#[derive(Clone, Copy, Debug, Default, PartialEq, Eq)]
pub struct Fringe;

/// Assigns distinct labels in fringe order: left to right along the top row, then top to
/// bottom down the first column, then left to right along the second row, etc.
#[derive(Clone, Copy, Debug, Default, PartialEq, Eq)]
pub struct FringeGrids;

/// Assigns labels to each row or column, until the remaining unlabelled part of the puzzle is
/// a square, and then labels the rest with [`Fringe`].
#[derive(Clone, Copy, Debug, Default, PartialEq, Eq)]
pub struct SquareFringe;

/// Same as [`Fringe`], but the row and column parts of the fringe are given different labels.
#[derive(Clone, Copy, Debug, Default, PartialEq, Eq)]
pub struct SplitFringe;

/// Same as [`SquareFringe`], but uses [`SplitFringe`] for the square part.
#[derive(Clone, Copy, Debug, Default, PartialEq, Eq)]
pub struct SplitSquareFringe;

/// Assigns labels to each bottom-left to top-right diagonal, starting from the top left.
#[derive(Clone, Copy, Debug, Default, PartialEq, Eq)]
pub struct Diagonals;

/// Assigns labels to each of the first `height - 2` rows, then assigns labels to the last two
/// rows in columns.
#[derive(Clone, Copy, Debug, Default, PartialEq, Eq)]
pub struct LastTwoRows;

/// Same as [`LastTwoRows`], but the labels of the last two rows restart from 0 (so for example,
/// the top row and the bottom left piece are given the same label).
#[derive(Clone, Copy, Debug, Default, PartialEq, Eq)]
pub struct SplitLastTwoRows;

/// Assigns a label to each concentric rectangle around the puzzle.
#[derive(Clone, Copy, Debug, Default, PartialEq, Eq)]
pub struct ConcentricRectangles;

/// Assigns labels in a spiral pattern.
///
/// The top row (minus the top right piece) gets label 0, then the right column (minus the
/// bottom right piece) gets label 1, then the bottom row (minus the bottom left piece) gets
/// label 2, etc.
#[derive(Clone, Copy, Debug, Default, PartialEq, Eq)]
pub struct Spiral;

/// Same as [`Spiral`] but every piece gets a distinct label.
#[derive(Clone, Copy, Debug, Default, PartialEq, Eq)]
pub struct SpiralGrids;

/// Assigns 0 to the top left, then 1 to the pieces adjacent to the top left, then 0 to the
/// pieces adjacent to those, etc.
#[derive(Clone, Copy, Debug, Default, PartialEq, Eq)]
pub struct Checkerboard;

/// The number of positions in the fringes before fringe `f` of a `w x h` puzzle.
pub open spec fn fringes_before(w: int, h: int, f: int) -> int {
    f * (w + h - f)
}

pub open spec fn fringe_grids_label(w: int, h: int, x: int, y: int) -> int {
    let f = min(x, y);
    fringes_before(w, h, f) + if x < y {
        w - f + y - x - 1
    } else {
        x - y
    }
}

pub open spec fn square_fringe_label(w: int, h: int, x: int, y: int) -> int {
    if w < h {
        let d = h - w;
        if y < d {
            y
        } else {
            d + min(x, y - d)
        }
    } else if w == h {
        min(x, y)
    } else {
        let d = w - h;
        if x < d {
            x
        } else {
            d + min(y, x - d)
        }
    }
}

pub open spec fn split_fringe_label(x: int, y: int) -> int {
    2 * min(x, y) + if x < y {
        1int
    } else {
        0int
    }
}

pub open spec fn split_square_fringe_label(w: int, h: int, x: int, y: int) -> int {
    let d = abs_diff(w, h);
    if w < h {
        if y < d {
            y
        } else {
            d + split_fringe_label(x, y - d)
        }
    } else if w == h {
        split_fringe_label(x, y)
    } else {
        if x < d {
            x
        } else {
            d + split_fringe_label(x - d, y)
        }
    }
}

pub open spec fn concentric_label(w: int, h: int, x: int, y: int) -> int {
    min(min(x, y), min(w - 1 - x, h - 1 - y))
}

/// Which side of its rectangle `(x, y)` is on: 0 for the top, 1 for the right, 2 for the bottom,
/// 3 for the left.
pub open spec fn spiral_side(w: int, h: int, x: int, y: int) -> int {
    let r = concentric_label(w, h, x, y);
    let (rx, ry, rw, rh) = (x - r, y - r, w - 2 * r, h - 2 * r);
    if min(rw, rh) == 1 || (ry == 0 && rx < rw - 1) {
        0
    } else if rx == rw - 1 && ry < rh - 1 {
        1
    } else if ry == rh - 1 && rx > 0 {
        2
    } else {
        3
    }
}

pub open spec fn spiral_label(w: int, h: int, x: int, y: int) -> int {
    4 * concentric_label(w, h, x, y) + spiral_side(w, h, x, y)
}

/// The number of positions in the rectangles outside rectangle `r` of a `w x h` puzzle.
pub open spec fn rects_before(w: int, h: int, r: int) -> int {
    2 * r * (w + h - 2 * r)
}

/// The place of `(rx, ry)` along the boundary of a `rw x rh` rectangle, walking clockwise from
/// the top left.
pub open spec fn rect_walk(rw: int, rh: int, rx: int, ry: int) -> int {
    if ry == 0 && rx < rw - 1 {
        rx
    } else if rx == rw - 1 && ry < rh - 1 {
        rw - 1 + ry
    } else if ry == rh - 1 && rx > 0 {
        2 * (rw + rh - 2) - (rh - 1 + rx)
    } else {
        2 * (rw + rh - 2) - ry
    }
}

pub open spec fn spiral_grids_label(w: int, h: int, x: int, y: int) -> int {
    let r = concentric_label(w, h, x, y);
    rects_before(w, h, r) + rect_walk(w - 2 * r, h - 2 * r, x - r, y - r)
}

fn min_u64(a: u64, b: u64) -> (r: u64)
    ensures
        r == min(a as int, b as int),
{
    if a <= b {
        a
    } else {
        b
    }
}

/// The width and height of `size`, with the bounds that follow from the area fitting in a `u64`.
fn dims_of(size: Size) -> (r: (u64, u64))
    requires
        size.area_fits(),
    ensures
        r.0 == size.spec_width(),
        r.1 == size.spec_height(),
        1 <= r.0,
        1 <= r.1,
        r.0 + r.1 <= r.0 * r.1 + 1,
        r.0 <= r.0 * r.1,
        r.1 <= r.0 * r.1,
        2 <= r.0 && 2 <= r.1 ==> r.0 + r.1 <= r.0 * r.1,
        2 * min(r.0 as int, r.1 as int) <= u64::MAX,
{
    let (width, height) = (size.width(), size.height());
    proof {
        lemma_sum_le_product(width as int, height as int);
    }
    (width, height)
}

impl Label for Trivial {
    open spec fn spec_valid_size(&self, size: Size) -> bool {
        true
    }

    open spec fn spec_position_label(&self, size: Size, pos: (u64, u64)) -> int {
        0
    }

    open spec fn spec_num_labels(&self, size: Size) -> int {
        1
    }

    fn is_valid_size(&self, size: Size) -> (r: bool) {
        true
    }

    fn position_label(&self, size: Size, pos: (u64, u64)) -> (r: u64) {
        0
    }

    fn num_labels(&self, size: Size) -> (r: u64) {
        1
    }
}

impl Label for RowGrids {
    open spec fn spec_valid_size(&self, size: Size) -> bool {
        true
    }

    open spec fn spec_position_label(&self, size: Size, pos: (u64, u64)) -> int {
        pos.0 + dims(size).0 * pos.1
    }

    open spec fn spec_num_labels(&self, size: Size) -> int {
        size.spec_area() as int
    }

    fn is_valid_size(&self, size: Size) -> (r: bool) {
        true
    }

    fn position_label(&self, size: Size, pos: (u64, u64)) -> (r: u64) {
        proof {
            lemma_index_bound(pos.0 as int, pos.1 as int, dims(size).0, dims(size).1);
        }
        pos.0 + size.width() * pos.1
    }

    fn num_labels(&self, size: Size) -> (r: u64) {
        size.area()
    }
}

impl BijectiveLabel for RowGrids {
    proof fn lemma_bijective(&self, size: Size) {
        let (w, h) = dims(size);
        assert forall|p: (u64, u64)| size.spec_is_within_bounds(p) implies 0
            <= #[trigger] self.spec_position_label(size, p) < self.spec_num_labels(size) by {
            lemma_index_bound(p.0 as int, p.1 as int, w, h);
        }
        assert forall|p: (u64, u64), q: (u64, u64)|
            size.spec_is_within_bounds(p) && size.spec_is_within_bounds(q)
                && #[trigger] self.spec_position_label(size, p)
                == #[trigger] self.spec_position_label(size, q) implies p == q by {
            lemma_index_split(p.0 as int, p.1 as int, w);
            lemma_index_split(q.0 as int, q.1 as int, w);
        }
    }
}

impl Label for Rows {
    open spec fn spec_valid_size(&self, size: Size) -> bool {
        true
    }

    open spec fn spec_position_label(&self, size: Size, pos: (u64, u64)) -> int {
        pos.1 as int
    }

    open spec fn spec_num_labels(&self, size: Size) -> int {
        dims(size).1
    }

    fn is_valid_size(&self, size: Size) -> (r: bool) {
        true
    }

    fn position_label(&self, size: Size, pos: (u64, u64)) -> (r: u64) {
        pos.1
    }

    fn num_labels(&self, size: Size) -> (r: u64) {
        size.height()
    }
}

impl Label for Fringe {
    open spec fn spec_valid_size(&self, size: Size) -> bool {
        true
    }

    open spec fn spec_position_label(&self, size: Size, pos: (u64, u64)) -> int {
        min(pos.0 as int, pos.1 as int)
    }

    open spec fn spec_num_labels(&self, size: Size) -> int {
        min(dims(size).0, dims(size).1)
    }

    fn is_valid_size(&self, size: Size) -> (r: bool) {
        true
    }

    fn position_label(&self, size: Size, pos: (u64, u64)) -> (r: u64) {
        min_u64(pos.0, pos.1)
    }

    fn num_labels(&self, size: Size) -> (r: u64) {
        min_u64(size.width(), size.height())
    }
}

/// Moving from fringe `f` to fringe `f + 1` passes the `w + h - 1 - 2f` positions of fringe `f`.
proof fn lemma_fringes_step(w: int, h: int, f: int)
    ensures
        fringes_before(w, h, f + 1) == fringes_before(w, h, f) + (w + h - 1 - 2 * f),
{
    assert((f + 1) * (w + h - (f + 1)) == f * (w + h - f) + (w + h - 1 - 2 * f))
        by (nonlinear_arith);
}

/// The fringes before fringe `f` grow with `f`, up to the number of fringes.
proof fn lemma_fringes_monotone(w: int, h: int, f1: int, f2: int)
    requires
        0 <= f1 <= f2 <= min(w, h),
    ensures
        fringes_before(w, h, f1) <= fringes_before(w, h, f2),
    decreases f2 - f1,
{
    if f1 < f2 {
        lemma_fringes_step(w, h, f1);
        lemma_fringes_monotone(w, h, f1 + 1, f2);
    }
}

/// All fringes together hold every position.
proof fn lemma_fringes_total(w: int, h: int)
    ensures
        fringes_before(w, h, min(w, h)) == w * h,
{
    if w <= h {
        assert(w * (w + h - w) == w * h) by (nonlinear_arith);
    } else {
        assert(h * (w + h - h) == w * h) by (nonlinear_arith);
    }
}

/// The label of a position lies in `[fringes_before(f), fringes_before(f + 1))` for its fringe
/// `f`.
proof fn lemma_fringe_grids_range(w: int, h: int, x: int, y: int)
    requires
        0 <= x < w,
        0 <= y < h,
    ensures
        fringes_before(w, h, min(x, y)) <= fringe_grids_label(w, h, x, y) < fringes_before(
            w,
            h,
            min(x, y) + 1,
        ),
        fringe_grids_label(w, h, x, y) < w * h,
        0 <= fringes_before(w, h, min(x, y)),
        x < y ==> fringe_grids_label(w, h, x, y) - fringes_before(w, h, min(x, y)) >= w - min(x, y),
        x >= y ==> fringe_grids_label(w, h, x, y) - fringes_before(w, h, min(x, y)) < w - min(x, y),
{
    let f = min(x, y);
    lemma_fringes_step(w, h, f);
    lemma_fringes_monotone(w, h, 0, f);
    lemma_fringes_monotone(w, h, f + 1, min(w, h));
    lemma_fringes_total(w, h);
}

impl Label for FringeGrids {
    open spec fn spec_valid_size(&self, size: Size) -> bool {
        true
    }

    open spec fn spec_position_label(&self, size: Size, pos: (u64, u64)) -> int {
        fringe_grids_label(dims(size).0, dims(size).1, pos.0 as int, pos.1 as int)
    }

    open spec fn spec_num_labels(&self, size: Size) -> int {
        size.spec_area() as int
    }

    fn is_valid_size(&self, size: Size) -> (r: bool) {
        true
    }

    fn position_label(&self, size: Size, pos: (u64, u64)) -> (r: u64) {
        let (x, y) = pos;
        let (width, height) = dims_of(size);
        proof {
            lemma_fringe_grids_range(width as int, height as int, x as int, y as int);
        }
        // Which (non-split) fringe is (x, y) in?
        let fringe = min_u64(x, y);
        // Number of tiles in previous fringes: sum of w + h - 1 - 2k for k < fringe.
        let previous_fringes = if fringe == 0 {
            assert(fringes_before(width as int, height as int, 0) == 0) by {
                vstd::arithmetic::mul::lemma_mul_basics(width + height);
            }
            0
        } else {
            // Here the puzzle is at least 2x2, so `width + height` fits.
            fringe * (width + height - fringe)
        };
        // How many pieces before this one in the current fringe?
        let current_fringe = if x < y {
            (width - fringe - 1) + (y - x)
        } else {
            x - y
        };
        previous_fringes + current_fringe
    }

    fn num_labels(&self, size: Size) -> (r: u64) {
        size.area()
    }
}

impl BijectiveLabel for FringeGrids {
    proof fn lemma_bijective(&self, size: Size) {
        let (w, h) = dims(size);
        assert forall|p: (u64, u64)| size.spec_is_within_bounds(p) implies 0
            <= #[trigger] self.spec_position_label(size, p) < self.spec_num_labels(size) by {
            lemma_fringe_grids_range(w, h, p.0 as int, p.1 as int);
        }
        assert forall|p: (u64, u64), q: (u64, u64)|
            size.spec_is_within_bounds(p) && size.spec_is_within_bounds(q)
                && #[trigger] self.spec_position_label(size, p)
                == #[trigger] self.spec_position_label(size, q) implies p == q by {
            let (px, py, qx, qy) = (p.0 as int, p.1 as int, q.0 as int, q.1 as int);
            lemma_fringe_grids_range(w, h, px, py);
            lemma_fringe_grids_range(w, h, qx, qy);
            let (fp, fq) = (min(px, py), min(qx, qy));
            if fp < fq {
                lemma_fringes_monotone(w, h, fp + 1, fq);
            } else if fq < fp {
                lemma_fringes_monotone(w, h, fq + 1, fp);
            }
        }
    }
}

impl Label for SquareFringe {
    open spec fn spec_valid_size(&self, size: Size) -> bool {
        true
    }

    open spec fn spec_position_label(&self, size: Size, pos: (u64, u64)) -> int {
        square_fringe_label(dims(size).0, dims(size).1, pos.0 as int, pos.1 as int)
    }

    open spec fn spec_num_labels(&self, size: Size) -> int {
        min(dims(size).0, dims(size).1) + abs_diff(dims(size).0, dims(size).1)
    }

    fn is_valid_size(&self, size: Size) -> (r: bool) {
        true
    }

    fn position_label(&self, size: Size, pos: (u64, u64)) -> (r: u64) {
        let (x, y) = pos;
        let (width, height) = (size.width(), size.height());
        if width < height {
            // Puzzle is taller than it is wide
            let diff = height - width;
            if y < diff {
                // Top part of the puzzle, above the square part
                y
            } else {
                // Square part of the puzzle
                diff + min_u64(x, y - diff)
            }
        } else if width == height {
            min_u64(x, y)
        } else {
            // Puzzle is wider than it is tall: the transpose of the first case.
            let diff = width - height;
            if x < diff {
                x
            } else {
                diff + min_u64(y, x - diff)
            }
        }
    }

    fn num_labels(&self, size: Size) -> (r: u64) {
        let (width, height) = (size.width(), size.height());
        if width <= height {
            width + (height - width)
        } else {
            height + (width - height)
        }
    }
}

impl Label for SplitFringe {
    open spec fn spec_valid_size(&self, size: Size) -> bool {
        true
    }

    open spec fn spec_position_label(&self, size: Size, pos: (u64, u64)) -> int {
        split_fringe_label(pos.0 as int, pos.1 as int)
    }

    open spec fn spec_num_labels(&self, size: Size) -> int {
        2 * min(dims(size).0, dims(size).1) - if dims(size).1 <= dims(size).0 {
            1int
        } else {
            0int
        }
    }

    fn is_valid_size(&self, size: Size) -> (r: bool) {
        true
    }

    fn position_label(&self, size: Size, pos: (u64, u64)) -> (r: u64) {
        let (x, y) = pos;
        // The area fits in a `u64`, which bounds both sides.
        let (_width, _height) = dims_of(size);
        // Which (non-split) fringe is (x, y) in?
        let fringe = min_u64(x, y);
        // Is it in the column part or the row part?
        let vertical_part: u64 = if x < y {
            1
        } else {
            0
        };
        2 * fringe + vertical_part
    }

    fn num_labels(&self, size: Size) -> (r: u64) {
        let (width, height) = dims_of(size);
        let m = min_u64(width, height);
        let sub: u64 = if height <= width {
            1
        } else {
            0
        };
        2 * m - sub
    }
}

impl Label for SplitSquareFringe {
    open spec fn spec_valid_size(&self, size: Size) -> bool {
        true
    }

    open spec fn spec_position_label(&self, size: Size, pos: (u64, u64)) -> int {
        split_square_fringe_label(dims(size).0, dims(size).1, pos.0 as int, pos.1 as int)
    }

    open spec fn spec_num_labels(&self, size: Size) -> int {
        abs_diff(dims(size).0, dims(size).1) + 2 * min(dims(size).0, dims(size).1) - 1
    }

    fn is_valid_size(&self, size: Size) -> (r: bool) {
        true
    }

    fn position_label(&self, size: Size, pos: (u64, u64)) -> (r: u64) {
        let (x, y) = pos;
        let (width, height) = dims_of(size);
        if width < height {
            let d = height - width;
            if y < d {
                y
            } else {
                d + SplitFringe.position_label(size, (x, y - d))
            }
        } else if width == height {
            SplitFringe.position_label(size, (x, y))
        } else {
            let d = width - height;
            if x < d {
                x
            } else {
                d + SplitFringe.position_label(size, (x - d, y))
            }
        }
    }

    fn num_labels(&self, size: Size) -> (r: u64) {
        let (width, height) = dims_of(size);
        let diff = if width >= height {
            width - height
        } else {
            height - width
        };
        let square = size.shrink_to_square();
        proof {
            let m = square.spec_width() as int;
            lemma_mul_le(m, m, width as int, height as int);
        }
        diff + SplitFringe.num_labels(square)
    }
}

impl Label for Diagonals {
    open spec fn spec_valid_size(&self, size: Size) -> bool {
        true
    }

    open spec fn spec_position_label(&self, size: Size, pos: (u64, u64)) -> int {
        pos.0 + pos.1
    }

    open spec fn spec_num_labels(&self, size: Size) -> int {
        dims(size).0 + dims(size).1 - 1
    }

    fn is_valid_size(&self, size: Size) -> (r: bool) {
        true
    }

    fn position_label(&self, size: Size, pos: (u64, u64)) -> (r: u64) {
        // The area fits in a `u64`, which bounds both sides.
        let (_width, _height) = dims_of(size);
        pos.0 + pos.1
    }

    fn num_labels(&self, size: Size) -> (r: u64) {
        let (width, height) = dims_of(size);
        (width - 1) + height
    }
}

impl Label for LastTwoRows {
    open spec fn spec_valid_size(&self, size: Size) -> bool {
        true
    }

    open spec fn spec_position_label(&self, size: Size, pos: (u64, u64)) -> int {
        let hh = sub2(dims(size).1);
        if pos.1 < hh {
            pos.1 as int
        } else {
            hh + pos.0
        }
    }

    open spec fn spec_num_labels(&self, size: Size) -> int {
        dims(size).0 + sub2(dims(size).1)
    }

    fn is_valid_size(&self, size: Size) -> (r: bool) {
        true
    }

    fn position_label(&self, size: Size, pos: (u64, u64)) -> (r: u64) {
        let (_, height) = dims_of(size);
        let h = height.saturating_sub(2);
        if pos.1 < h {
            pos.1
        } else {
            h + pos.0
        }
    }

    fn num_labels(&self, size: Size) -> (r: u64) {
        let (width, height) = dims_of(size);
        width + height.saturating_sub(2)
    }
}

impl Label for SplitLastTwoRows {
    open spec fn spec_valid_size(&self, size: Size) -> bool {
        true
    }

    open spec fn spec_position_label(&self, size: Size, pos: (u64, u64)) -> int {
        if pos.1 < sub2(dims(size).1) {
            pos.1 as int
        } else {
            pos.0 as int
        }
    }

    open spec fn spec_num_labels(&self, size: Size) -> int {
        max(dims(size).0, sub2(dims(size).1))
    }

    fn is_valid_size(&self, size: Size) -> (r: bool) {
        true
    }

    fn position_label(&self, size: Size, pos: (u64, u64)) -> (r: u64) {
        if pos.1 < size.height().saturating_sub(2) {
            pos.1
        } else {
            pos.0
        }
    }

    fn num_labels(&self, size: Size) -> (r: u64) {
        let w = size.width();
        let h = size.height().saturating_sub(2);
        if w >= h {
            w
        } else {
            h
        }
    }
}

impl Label for ConcentricRectangles {
    open spec fn spec_valid_size(&self, size: Size) -> bool {
        true
    }

    open spec fn spec_position_label(&self, size: Size, pos: (u64, u64)) -> int {
        concentric_label(dims(size).0, dims(size).1, pos.0 as int, pos.1 as int)
    }

    open spec fn spec_num_labels(&self, size: Size) -> int {
        (min(dims(size).0, dims(size).1) + 1) / 2
    }

    fn is_valid_size(&self, size: Size) -> (r: bool) {
        true
    }

    fn position_label(&self, size: Size, pos: (u64, u64)) -> (r: u64) {
        let (x, y) = pos;
        let (width, height) = (size.width(), size.height());
        min_u64(min_u64(x, y), min_u64(width - 1 - x, height - 1 - y))
    }

    fn num_labels(&self, size: Size) -> (r: u64) {
        let m = min_u64(size.width(), size.height());
        m / 2 + m % 2
    }
}

impl Label for Spiral {
    open spec fn spec_valid_size(&self, size: Size) -> bool {
        true
    }

    open spec fn spec_position_label(&self, size: Size, pos: (u64, u64)) -> int {
        spiral_label(dims(size).0, dims(size).1, pos.0 as int, pos.1 as int)
    }

    open spec fn spec_num_labels(&self, size: Size) -> int {
        let m = min(dims(size).0, dims(size).1);
        4 * (m / 2) + m % 2
    }

    fn is_valid_size(&self, size: Size) -> (r: bool) {
        true
    }

    fn position_label(&self, size: Size, pos: (u64, u64)) -> (r: u64) {
        let (x, y) = pos;
        let rect_label = ConcentricRectangles.position_label(size, pos);
        let (width, height) = dims_of(size);
        // The position (x, y) on the rectangle of label `rect_label`, and that rectangle's size.
        let (rx, ry, rw, rh) = (
            x - rect_label,
            y - rect_label,
            width - 2 * rect_label,
            height - 2 * rect_label,
        );
        // Which side of the rectangle is the piece on? If the rectangle has a side of length 1,
        // the whole rectangle gets the same label.
        let rect_side: u64 = if min_u64(rw, rh) == 1 || (ry == 0 && rx < rw - 1) {
            0
        } else if rx == rw - 1 && ry < rh - 1 {
            1
        } else if ry == rh - 1 && rx > 0 {
            2
        } else {
            3
        };
        4 * rect_label + rect_side
    }

    fn num_labels(&self, size: Size) -> (r: u64) {
        let (width, height) = dims_of(size);
        let m = min_u64(width, height);
        4 * (m / 2) + m % 2
    }
}

/// The rectangles outside rectangle `r` and the positions inside it make up the puzzle.
proof fn lemma_rects_total(w: int, h: int, r: int)
    ensures
        rects_before(w, h, r) + (w - 2 * r) * (h - 2 * r) == w * h,
{
    assert(2 * r * (w + h - 2 * r) + (w - 2 * r) * (h - 2 * r) == w * h) by (nonlinear_arith);
}

/// The label of a position lies in `[rects_before(r), rects_before(r) + rw * rh)` for its
/// rectangle `r`, whose size is `rw x rh`.
proof fn lemma_spiral_grids_range(w: int, h: int, x: int, y: int)
    requires
        0 <= x < w,
        0 <= y < h,
    ensures
        ({
            let r = concentric_label(w, h, x, y);
            let (rw, rh) = (w - 2 * r, h - 2 * r);
            &&& 0 <= r
            &&& 1 <= rw
            &&& 1 <= rh
            &&& 0 <= rect_walk(rw, rh, x - r, y - r) < rw * rh
            &&& rects_before(w, h, r) + rw * rh == w * h
            &&& 0 <= rects_before(w, h, r)
        }),
{
    let r = concentric_label(w, h, x, y);
    let (rw, rh) = (w - 2 * r, h - 2 * r);
    lemma_rects_total(w, h, r);
    assert(0 <= 2 * r * (w + h - 2 * r)) by (nonlinear_arith)
        requires
            0 <= r,
            2 * r < w,
            2 * r < h,
    ;
    if rw >= 2 && rh >= 2 {
        assert(2 * (rw + rh - 2) <= rw * rh) by (nonlinear_arith)
            requires
                rw >= 2,
                rh >= 2,
        ;
    } else {
        assert(rw * rh == if rw == 1 {
            rh
        } else {
            rw
        }) by (nonlinear_arith)
            requires
                rw == 1 || rh == 1,
        ;
    }
}

impl Label for SpiralGrids {
    open spec fn spec_valid_size(&self, size: Size) -> bool {
        true
    }

    open spec fn spec_position_label(&self, size: Size, pos: (u64, u64)) -> int {
        spiral_grids_label(dims(size).0, dims(size).1, pos.0 as int, pos.1 as int)
    }

    open spec fn spec_num_labels(&self, size: Size) -> int {
        size.spec_area() as int
    }

    fn is_valid_size(&self, size: Size) -> (r: bool) {
        true
    }

    fn position_label(&self, size: Size, pos: (u64, u64)) -> (r: u64) {
        let (x, y) = pos;
        let rect_label = ConcentricRectangles.position_label(size, pos);
        let (width, height) = dims_of(size);
        proof {
            lemma_spiral_grids_range(width as int, height as int, x as int, y as int);
        }
        // See `Spiral::position_label`.
        let (rx, ry, rw, rh) = (
            x - rect_label,
            y - rect_label,
            width - 2 * rect_label,
            height - 2 * rect_label,
        );
        // Number of pieces in the outer rectangles: rectangle k has 2(w + h - 2) - 8k pieces.
        let num_outer_pieces = if rect_label == 0 {
            assert(rects_before(width as int, height as int, 0) == 0) by {
                vstd::arithmetic::mul::lemma_mul_basics(width + height);
            }
            0
        } else {
            // Here the puzzle is at least 3x3, so `width + height` fits.
            2 * rect_label * (width + height - 2 * rect_label)
        };
        // Find which side of the rectangle the piece is on, and count the pieces before it.
        let rect_pieces = if ry == 0 && rx < rw - 1 {
            // Top row
            rx
        } else if rx == rw - 1 && ry < rh - 1 {
            // Right column
            rw - 1 + ry
        } else if ry == rh - 1 && rx > 0 {
            // Bottom row: 2 * (rw + rh - 2) - (rh - 1 + rx)
            ((rw - 1) + (rh - 1)) + (rw - 1 - rx)
        } else {
            // Left column: 2 * (rw + rh - 2) - ry
            ((rw - 1) + (rh - 1)) + ((rw - 1) + (rh - 1) - ry)
        };
        num_outer_pieces + rect_pieces
    }

    fn num_labels(&self, size: Size) -> (r: u64) {
        size.area()
    }
}

/// Walking clockwise around the boundary of a rectangle passes each boundary position once.
proof fn lemma_rect_walk_injective(rw: int, rh: int, a: (int, int), b: (int, int))
    requires
        rw >= 1,
        rh >= 1,
        0 <= a.0 < rw,
        0 <= a.1 < rh,
        0 <= b.0 < rw,
        0 <= b.1 < rh,
        a.0 == 0 || a.1 == 0 || a.0 == rw - 1 || a.1 == rh - 1,
        b.0 == 0 || b.1 == 0 || b.0 == rw - 1 || b.1 == rh - 1,
        rect_walk(rw, rh, a.0, a.1) == rect_walk(rw, rh, b.0, b.1),
    ensures
        a == b,
{
}

/// A boundary position of a rectangle at least 2 wide and 2 high is one of its `2 (w + h - 2)`
/// boundary steps.
proof fn lemma_rect_walk_bound(rw: int, rh: int, rx: int, ry: int)
    requires
        rw >= 2,
        rh >= 2,
        0 <= rx < rw,
        0 <= ry < rh,
        rx == 0 || ry == 0 || rx == rw - 1 || ry == rh - 1,
    ensures
        0 <= rect_walk(rw, rh, rx, ry) < 2 * (rw + rh - 2),
{
}

/// The rings of a puzzle come in order: ring `r` ends where ring `r + 1` starts, and the rings
/// further in start later.
proof fn lemma_rects_before_order(w: int, h: int, r1: int, r2: int)
    requires
        0 <= r1 < r2,
        2 * r2 < w,
        2 * r2 < h,
    ensures
        rects_before(w, h, r1) + 2 * ((w - 2 * r1) + (h - 2 * r1) - 2) == rects_before(w, h, r1 + 1),
        rects_before(w, h, r1 + 1) <= rects_before(w, h, r2),
    decreases r2 - r1,
{
    assert(rects_before(w, h, r1) + 2 * ((w - 2 * r1) + (h - 2 * r1) - 2) == rects_before(
        w,
        h,
        r1 + 1,
    )) by (nonlinear_arith);
    if r1 + 1 < r2 {
        lemma_rects_before_order(w, h, r1 + 1, r2);
        assert(rects_before(w, h, r1 + 1) <= rects_before(w, h, r1 + 2)) by (nonlinear_arith)
            requires
                2 * (r1 + 1) + 2 < w + 1,
                2 * (r1 + 1) + 2 < h + 1,
                rects_before(w, h, r1 + 1) + 2 * ((w - 2 * (r1 + 1)) + (h - 2 * (r1 + 1)) - 2)
                    == rects_before(w, h, r1 + 2),
        ;
    }
}

/// The spiral labels of distinct positions differ.
proof fn lemma_spiral_grids_injective(w: int, h: int, p: (int, int), q: (int, int))
    requires
        0 <= p.0 < w,
        0 <= p.1 < h,
        0 <= q.0 < w,
        0 <= q.1 < h,
        spiral_grids_label(w, h, p.0, p.1) == spiral_grids_label(w, h, q.0, q.1),
    ensures
        p == q,
{
    let rp = concentric_label(w, h, p.0, p.1);
    let rq = concentric_label(w, h, q.0, q.1);
    lemma_spiral_grids_range(w, h, p.0, p.1);
    lemma_spiral_grids_range(w, h, q.0, q.1);
    if rp != rq {
        // The label of the outer ring lies before the start of the inner one.
        let (lo, hi, a) = if rp < rq {
            (rp, rq, p)
        } else {
            (rq, rp, q)
        };
        lemma_rects_before_order(w, h, lo, hi);
        let (rw, rh) = (w - 2 * lo, h - 2 * lo);
        lemma_rect_walk_bound(rw, rh, a.0 - lo, a.1 - lo);
        assert(false);
    } else {
        let r = rp;
        lemma_rect_walk_injective(w - 2 * r, h - 2 * r, (p.0 - r, p.1 - r), (q.0 - r, q.1 - r));
    }
}

impl BijectiveLabel for SpiralGrids {
    proof fn lemma_bijective(&self, size: Size) {
        let (w, h) = dims(size);
        assert forall|p: (u64, u64)| size.spec_is_within_bounds(p) implies 0
            <= #[trigger] self.spec_position_label(size, p) < self.spec_num_labels(size) by {
            lemma_spiral_grids_range(w, h, p.0 as int, p.1 as int);
        }
        assert forall|p: (u64, u64), q: (u64, u64)|
            size.spec_is_within_bounds(p) && size.spec_is_within_bounds(q)
                && #[trigger] self.spec_position_label(size, p)
                == #[trigger] self.spec_position_label(size, q) implies p == q by {
            lemma_spiral_grids_injective(w, h, (p.0 as int, p.1 as int), (q.0 as int, q.1 as int));
        }
    }
}

impl Label for Checkerboard {
    open spec fn spec_valid_size(&self, size: Size) -> bool {
        true
    }

    open spec fn spec_position_label(&self, size: Size, pos: (u64, u64)) -> int {
        (pos.0 + pos.1) % 2
    }

    open spec fn spec_num_labels(&self, size: Size) -> int {
        2
    }

    fn is_valid_size(&self, size: Size) -> (r: bool) {
        true
    }

    fn position_label(&self, size: Size, pos: (u64, u64)) -> (r: u64) {
        (pos.0 % 2 + pos.1 % 2) % 2
    }

    fn num_labels(&self, size: Size) -> (r: u64) {
        2
    }
}

/// [`Diagonals`] labels the bottom-left to top-right diagonals, counting from the top left: the
/// top left position has label 0, a step right or a step down raises the label by one, and a step
/// up and to the right keeps it.
pub proof fn lemma_diagonals_steps(size: Size, x: u64, y: u64)
    requires
        size.spec_is_within_bounds((x, y)),
    ensures
        Diagonals.spec_position_label(size, (0, 0)) == 0,
        x + 1 < size.spec_width() ==> Diagonals.spec_position_label(size, ((x + 1) as u64, y))
            == Diagonals.spec_position_label(size, (x, y)) + 1,
        y + 1 < size.spec_height() ==> Diagonals.spec_position_label(size, (x, (y + 1) as u64))
            == Diagonals.spec_position_label(size, (x, y)) + 1,
        x + 1 < size.spec_width() && y >= 1 ==> Diagonals.spec_position_label(
            size,
            ((x + 1) as u64, (y - 1) as u64),
        ) == Diagonals.spec_position_label(size, (x, y)),
        0 <= Diagonals.spec_position_label(size, (x, y)) < Diagonals.spec_num_labels(size),
{
}

/// [`Checkerboard`] colors the puzzle like a chess board: the top left position has label 0,
/// every label is 0 or 1, and two positions next to each other in a row or in a column have
/// different labels.
pub proof fn lemma_checkerboard_alternates(size: Size, x: u64, y: u64)
    requires
        size.spec_is_within_bounds((x, y)),
    ensures
        Checkerboard.spec_position_label(size, (0, 0)) == 0,
        0 <= Checkerboard.spec_position_label(size, (x, y)) < Checkerboard.spec_num_labels(size),
        x + 1 < size.spec_width() ==> Checkerboard.spec_position_label(size, ((x + 1) as u64, y))
            != Checkerboard.spec_position_label(size, (x, y)),
        y + 1 < size.spec_height() ==> Checkerboard.spec_position_label(size, (x, (y + 1) as u64))
            != Checkerboard.spec_position_label(size, (x, y)),
{
}

/// [`Trivial`] gives every position the same label, and has a single label.
pub proof fn lemma_trivial_one_label(size: Size, p: (u64, u64), q: (u64, u64))
    requires
        size.spec_is_within_bounds(p),
        size.spec_is_within_bounds(q),
    ensures
        Trivial.spec_position_label(size, p) == Trivial.spec_position_label(size, q),
        0 <= Trivial.spec_position_label(size, p) < Trivial.spec_num_labels(size),
        Trivial.spec_num_labels(size) == 1,
{
}

/// [`RowGrids`] numbers the positions in reading order: the top left position has label 0, a
/// step right raises the label by one, and so does going from the end of a row to the start of
/// the next.
pub proof fn lemma_row_grids_reading_order(size: Size, x: u64, y: u64)
    requires
        size.spec_is_within_bounds((x, y)),
    ensures
        RowGrids.spec_position_label(size, (0, 0)) == 0,
        x + 1 < size.spec_width() ==> RowGrids.spec_position_label(size, ((x + 1) as u64, y))
            == RowGrids.spec_position_label(size, (x, y)) + 1,
        x + 1 == size.spec_width() && y + 1 < size.spec_height() ==> RowGrids.spec_position_label(
            size,
            (0, (y + 1) as u64),
        ) == RowGrids.spec_position_label(size, (x, y)) + 1,
{
    let w = dims(size).0;
    assert(w * (y + 1) == w * y + w) by (nonlinear_arith);
}

/// [`Rows`] gives each row its own label, from 0 at the top, one more for each row down.
pub proof fn lemma_rows_by_row(size: Size, x: u64, y: u64, x2: u64)
    requires
        size.spec_is_within_bounds((x, y)),
        size.spec_is_within_bounds((x2, y)),
    ensures
        Rows.spec_position_label(size, (x, y)) == Rows.spec_position_label(size, (x2, y)),
        Rows.spec_position_label(size, (0, 0)) == 0,
        y + 1 < size.spec_height() ==> Rows.spec_position_label(size, (x, (y + 1) as u64))
            == Rows.spec_position_label(size, (x, y)) + 1,
        0 <= Rows.spec_position_label(size, (x, y)) < Rows.spec_num_labels(size),
{
}

/// [`Fringe`] labels the fringes from the top left: fringe `k` is the part of row `k` from column
/// `k` rightwards and the part of column `k` from row `k` downwards. So the top left position has
/// label 0, a step right along the row part or down along the column part keeps the label, and a
/// step diagonally down and right raises it by one.
pub proof fn lemma_fringe_bands(size: Size, x: u64, y: u64)
    requires
        size.spec_is_within_bounds((x, y)),
    ensures
        Fringe.spec_position_label(size, (0, 0)) == 0,
        x + 1 < size.spec_width() && x >= y ==> Fringe.spec_position_label(size, ((x + 1) as u64, y))
            == Fringe.spec_position_label(size, (x, y)),
        y + 1 < size.spec_height() && y >= x ==> Fringe.spec_position_label(size, (x, (y + 1) as u64))
            == Fringe.spec_position_label(size, (x, y)),
        x + 1 < size.spec_width() && y + 1 < size.spec_height() ==> Fringe.spec_position_label(
            size,
            ((x + 1) as u64, (y + 1) as u64),
        ) == Fringe.spec_position_label(size, (x, y)) + 1,
        0 <= Fringe.spec_position_label(size, (x, y)) < Fringe.spec_num_labels(size),
{
}

/// [`SplitFringe`] is [`Fringe`] with the row part of fringe `k` labelled `2k` and its column part
/// `2k + 1`: the top left position has label 0, a step right along the row part or down along
/// the column part keeps the label, a step down from the corner of a fringe raises it by one, and
/// a step diagonally down and right raises it by two.
pub proof fn lemma_split_fringe_bands(size: Size, x: u64, y: u64)
    requires
        size.spec_is_within_bounds((x, y)),
    ensures
        SplitFringe.spec_position_label(size, (0, 0)) == 0,
        x + 1 < size.spec_width() && x >= y ==> SplitFringe.spec_position_label(
            size,
            ((x + 1) as u64, y),
        ) == SplitFringe.spec_position_label(size, (x, y)),
        y + 1 < size.spec_height() && y > x ==> SplitFringe.spec_position_label(
            size,
            (x, (y + 1) as u64),
        ) == SplitFringe.spec_position_label(size, (x, y)),
        y + 1 < size.spec_height() && y == x ==> SplitFringe.spec_position_label(
            size,
            (x, (y + 1) as u64),
        ) == SplitFringe.spec_position_label(size, (x, y)) + 1,
        x + 1 < size.spec_width() && y + 1 < size.spec_height() ==> SplitFringe.spec_position_label(
            size,
            ((x + 1) as u64, (y + 1) as u64),
        ) == SplitFringe.spec_position_label(size, (x, y)) + 2,
{
}

/// [`ConcentricRectangles`] labels the rectangles around the puzzle from the outside in: the
/// positions on the edge of the puzzle have label 0, and an inner position has one more than its
/// label on the puzzle with the outer ring taken away.
pub proof fn lemma_concentric_layers(size: Size, x: u64, y: u64)
    requires
        size.spec_is_within_bounds((x, y)),
    ensures
        x == 0 || y == 0 || x + 1 == size.spec_width() || y + 1 == size.spec_height()
            ==> ConcentricRectangles.spec_position_label(size, (x, y)) == 0,
        1 <= x && x + 2 <= size.spec_width() && 1 <= y && y + 2 <= size.spec_height()
            ==> ConcentricRectangles.spec_position_label(size, (x, y))
            == ConcentricRectangles.spec_position_label(
            Size::spec_new((size.spec_width() - 2) as u64, (size.spec_height() - 2) as u64),
            ((x - 1) as u64, (y - 1) as u64),
        ) + 1,
        0 <= ConcentricRectangles.spec_position_label(size, (x, y))
            < ConcentricRectangles.spec_num_labels(size),
{
}

/// [`Spiral`] labels each ring of the puzzle in four parts, clockwise from the top left: the top
/// row but its last position gets 0, the right column but its last position 1, the bottom row
/// but its first position 2, and the left column but its first position 3; a single row or
/// column gets 0 throughout; an inner position has four more than its label on the puzzle with
/// the outer ring taken away.
pub proof fn lemma_spiral_rings(size: Size, x: u64, y: u64)
    requires
        size.spec_is_within_bounds((x, y)),
    ensures
        ({
            let (w, h) = (size.spec_width() as int, size.spec_height() as int);
            let l = Spiral.spec_position_label(size, (x, y));
            &&& (w == 1 || h == 1) ==> l == 0
            &&& (w >= 2 && h >= 2 && y == 0 && x + 1 < w) ==> l == 0
            &&& (w >= 2 && h >= 2 && x + 1 == w && y + 1 < h) ==> l == 1
            &&& (w >= 2 && h >= 2 && y + 1 == h && x > 0) ==> l == 2
            &&& (w >= 2 && h >= 2 && x == 0 && y > 0) ==> l == 3
            &&& (1 <= x && x + 2 <= w && 1 <= y && y + 2 <= h) ==> l == Spiral.spec_position_label(
                Size::spec_new((w - 2) as u64, (h - 2) as u64),
                ((x - 1) as u64, (y - 1) as u64),
            ) + 4
        }),
{
}

/// [`LastTwoRows`] labels each row but the last two, from 0 at the top, and then the columns of
/// the last two rows, numbered on from there, left to right.
pub proof fn lemma_last_two_rows_parts(size: Size, x: u64, y: u64)
    requires
        size.spec_is_within_bounds((x, y)),
    ensures
        ({
            let (w, h) = (size.spec_width() as int, size.spec_height() as int);
            let l = LastTwoRows.spec_position_label(size, (x, y));
            &&& y + 2 < h ==> l == LastTwoRows.spec_position_label(size, (0, y))
            &&& h > 2 ==> LastTwoRows.spec_position_label(size, (0, 0)) == 0
            &&& y + 3 < h ==> LastTwoRows.spec_position_label(size, (x, (y + 1) as u64)) == l + 1
            &&& h >= 2 && y + 2 == h ==> LastTwoRows.spec_position_label(size, (x, (y + 1) as u64))
                == l
            &&& y + 2 >= h && x + 1 < w ==> LastTwoRows.spec_position_label(
                size,
                ((x + 1) as u64, y),
            ) == l + 1
            &&& h >= 3 && y + 3 == h ==> LastTwoRows.spec_position_label(size, (0, (y + 1) as u64))
                == LastTwoRows.spec_position_label(size, (0, y)) + 1
            &&& h <= 2 ==> LastTwoRows.spec_position_label(size, (0, 0)) == 0
        }),
{
}

/// [`SplitLastTwoRows`] labels each row but the last two, from 0 at the top, and then the
/// columns of the last two rows, numbered again from 0, left to right.
pub proof fn lemma_split_last_two_rows_parts(size: Size, x: u64, y: u64)
    requires
        size.spec_is_within_bounds((x, y)),
    ensures
        ({
            let (w, h) = (size.spec_width() as int, size.spec_height() as int);
            let l = SplitLastTwoRows.spec_position_label(size, (x, y));
            &&& y + 2 < h ==> l == SplitLastTwoRows.spec_position_label(size, (0, y))
            &&& SplitLastTwoRows.spec_position_label(size, (0, 0)) == 0
            &&& y + 3 < h ==> SplitLastTwoRows.spec_position_label(size, (x, (y + 1) as u64)) == l
                + 1
            &&& h >= 2 && y + 2 == h ==> SplitLastTwoRows.spec_position_label(
                size,
                (x, (y + 1) as u64),
            ) == l
            &&& y + 2 >= h ==> SplitLastTwoRows.spec_position_label(size, (0, y)) == 0
            &&& y + 2 >= h && x + 1 < w ==> SplitLastTwoRows.spec_position_label(
                size,
                ((x + 1) as u64, y),
            ) == l + 1
        }),
{
}

/// [`SquareFringe`] labels the rows (of a tall puzzle) or the columns (of a wide one) until what
/// is left is a square, from 0 on, and then labels that square as [`Fringe`] does, numbered on
/// from there; a square puzzle is labelled as [`Fringe`] labels it.
pub proof fn lemma_square_fringe_parts(size: Size, x: u64, y: u64)
    requires
        size.spec_is_within_bounds((x, y)),
    ensures
        ({
            let (w, h) = (size.spec_width() as int, size.spec_height() as int);
            let l = SquareFringe.spec_position_label(size, (x, y));
            &&& w == h ==> l == Fringe.spec_position_label(size, (x, y))
            &&& w < h && y < h - w ==> l == SquareFringe.spec_position_label(size, (0, y))
                && SquareFringe.spec_position_label(size, (0, 0)) == 0
            &&& w < h && y + 1 < h - w ==> SquareFringe.spec_position_label(
                size,
                (x, (y + 1) as u64),
            ) == l + 1
            &&& w < h && y >= h - w ==> l == (h - w) + Fringe.spec_position_label(
                Size::spec_new(w as u64, w as u64),
                (x, (y - (h - w)) as u64),
            )
            &&& w > h && x < w - h ==> l == SquareFringe.spec_position_label(size, (x, 0))
                && SquareFringe.spec_position_label(size, (0, 0)) == 0
            &&& w > h && x + 1 < w - h ==> SquareFringe.spec_position_label(
                size,
                ((x + 1) as u64, y),
            ) == l + 1
            &&& w > h && x >= w - h ==> l == (w - h) + Fringe.spec_position_label(
                Size::spec_new(h as u64, h as u64),
                ((x - (w - h)) as u64, y),
            )
        }),
{
}

/// [`SplitSquareFringe`] is [`SquareFringe`] with the square labelled as [`SplitFringe`] labels
/// it.
pub proof fn lemma_split_square_fringe_parts(size: Size, x: u64, y: u64)
    requires
        size.spec_is_within_bounds((x, y)),
    ensures
        ({
            let (w, h) = (size.spec_width() as int, size.spec_height() as int);
            let l = SplitSquareFringe.spec_position_label(size, (x, y));
            &&& w == h ==> l == SplitFringe.spec_position_label(size, (x, y))
            &&& w < h && y < h - w ==> l == SplitSquareFringe.spec_position_label(size, (0, y))
                && SplitSquareFringe.spec_position_label(size, (0, 0)) == 0
            &&& w < h && y + 1 < h - w ==> SplitSquareFringe.spec_position_label(
                size,
                (x, (y + 1) as u64),
            ) == l + 1
            &&& w < h && y >= h - w ==> l == (h - w) + SplitFringe.spec_position_label(
                Size::spec_new(w as u64, w as u64),
                (x, (y - (h - w)) as u64),
            )
            &&& w > h && x < w - h ==> l == SplitSquareFringe.spec_position_label(size, (x, 0))
                && SplitSquareFringe.spec_position_label(size, (0, 0)) == 0
            &&& w > h && x + 1 < w - h ==> SplitSquareFringe.spec_position_label(
                size,
                ((x + 1) as u64, y),
            ) == l + 1
            &&& w > h && x >= w - h ==> l == (w - h) + SplitFringe.spec_position_label(
                Size::spec_new(h as u64, h as u64),
                ((x - (w - h)) as u64, y),
            )
        }),
{
}

/// [`FringeGrids`] numbers the positions fringe by fringe (see [`Fringe`]): the top left position
/// has label 0, and the label goes up by one along the row part of a fringe (left to right),
/// from its end to the first position of the column part below the corner, down the column part,
/// and from the end of that to the corner of the next fringe.
pub proof fn lemma_fringe_grids_order(size: Size, x: u64, y: u64)
    requires
        size.spec_is_within_bounds((x, y)),
    ensures
        ({
            let (w, h) = (size.spec_width() as int, size.spec_height() as int);
            let l = FringeGrids.spec_position_label(size, (x, y));
            &&& FringeGrids.spec_position_label(size, (0, 0)) == 0
            &&& x >= y && x + 1 < w ==> FringeGrids.spec_position_label(size, ((x + 1) as u64, y))
                == l + 1
            &&& x >= y && x + 1 == w && y + 1 < h ==> FringeGrids.spec_position_label(
                size,
                (y, (y + 1) as u64),
            ) == l + 1
            &&& y > x && y + 1 < h ==> FringeGrids.spec_position_label(size, (x, (y + 1) as u64))
                == l + 1
            &&& y > x && y + 1 == h && x + 1 < w && x + 1 < h ==> FringeGrids.spec_position_label(
                size,
                ((x + 1) as u64, (x + 1) as u64),
            ) == l + 1
        }),
{
    let (w, h) = (size.spec_width() as int, size.spec_height() as int);
    let (xi, yi) = (x as int, y as int);
    assert(fringes_before(w, h, yi + 1) == fringes_before(w, h, yi) + w + h - 2 * yi - 1)
        by (nonlinear_arith);
    assert(fringes_before(w, h, xi + 1) == fringes_before(w, h, xi) + w + h - 2 * xi - 1)
        by (nonlinear_arith);
}

/// [`SpiralGrids`] numbers the positions along the spiral of [`Spiral`]: the top left position
/// has label 0, and on each ring (of [`ConcentricRectangles`]) the label goes up by one rightwards
/// along the top, downwards along the right side, leftwards along the bottom and upwards along
/// the left side, and from the end of a ring to the top left of the next one.
pub proof fn lemma_spiral_grids_order(size: Size, x: u64, y: u64)
    requires
        size.spec_is_within_bounds((x, y)),
    ensures
        ({
            let (w, h) = (size.spec_width() as int, size.spec_height() as int);
            let r = ConcentricRectangles.spec_position_label(size, (x, y));
            let (rw, rh, rx, ry) = (w - 2 * r, h - 2 * r, x - r, y - r);
            let l = SpiralGrids.spec_position_label(size, (x, y));
            &&& SpiralGrids.spec_position_label(size, (0, 0)) == 0
            &&& ry == 0 && rx + 1 < rw ==> SpiralGrids.spec_position_label(size, ((x + 1) as u64, y))
                == l + 1
            &&& rx + 1 == rw && ry + 1 < rh ==> SpiralGrids.spec_position_label(
                size,
                (x, (y + 1) as u64),
            ) == l + 1
            &&& rh > 1 && ry + 1 == rh && rx > 0 ==> SpiralGrids.spec_position_label(
                size,
                ((x - 1) as u64, y),
            ) == l + 1
            &&& rw > 1 && rx == 0 && ry > 1 ==> SpiralGrids.spec_position_label(
                size,
                (x, (y - 1) as u64),
            ) == l + 1
            &&& rw > 2 && rh > 2 && rx == 0 && ry == 1 ==> SpiralGrids.spec_position_label(
                size,
                ((x + 1) as u64, y),
            ) == l + 1
        }),
{
    let (w, h) = (size.spec_width() as int, size.spec_height() as int);
    let r = concentric_label(w, h, x as int, y as int);
    assert(rects_before(w, h, r + 1) == rects_before(w, h, r) + 2 * ((w - 2 * r) + (h - 2 * r)
        - 2)) by (nonlinear_arith);
    assert(rects_before(w, h, 0) == 0) by (nonlinear_arith);
}

} // verus!
