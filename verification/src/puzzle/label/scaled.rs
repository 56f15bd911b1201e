//! Defines the [`Scaled`] label modifier.

use vstd::prelude::*;

use crate::arith::{div_ceil, div_ceil_u64, lemma_div_ceil_bounds, lemma_mul_le};
use crate::puzzle::label::label::Label;
use crate::puzzle::size::{group_size, size_result, Size};

verus! {

broadcast use group_size;

/// Scales a [`Label`] up by a horizontal factor and a vertical factor.
///
/// For example, consider the [`crate::puzzle::label::label::RowGrids`] label on a 6x4 puzzle, with
/// 24 distinct labels. If we scale it up by a factor of 3 horizontally, and a factor of 2
/// vertically, the top left 3x2 block will have the label 0, the top right 3x2 block will have the
/// label 1, the left 3x2 block in the bottom two rows will have the label 2, etc. for a total of 4
/// distinct labels.
#[derive(Debug, PartialEq, Eq, Hash)]
pub struct Scaled<L: Label> {
    label: L,
    factor_x: u64,
    factor_y: u64,
}

/// Error type for [`Scaled`].
#[derive(Clone, Copy, Debug, PartialEq, Eq)]
pub enum ScaledError {
    /// Returned from [`Scaled::new`] if either of the scaling factors are zero.
    ZeroScale,
}

/// The size of the puzzle that a `size` puzzle shrinks to when each block of `factor.0 x factor.1`
/// pieces becomes one piece (blocks on the right and bottom edges may be smaller).
pub open spec fn scaled_size(size: Size, factor: (u64, u64)) -> Size {
    Size::spec_new(
        div_ceil(size.spec_width() as int, factor.0 as int) as u64,
        div_ceil(size.spec_height() as int, factor.1 as int) as u64,
    )
}

/// The shrunk puzzle is a proper size, at most as large as the unscaled one.
proof fn lemma_scaled_size(size: Size, factor: (u64, u64))
    requires
        factor.0 > 0,
        factor.1 > 0,
        size.spec_width() > 0,
        size.spec_height() > 0,
    ensures
        size_result(
            div_ceil(size.spec_width() as int, factor.0 as int) as u64,
            div_ceil(size.spec_height() as int, factor.1 as int) as u64,
        ) == Ok::<Size, crate::puzzle::size::SizeError>(scaled_size(size, factor)),
        scaled_size(size, factor).spec_area() <= size.spec_area(),
        forall|pos: (u64, u64)|
            size.spec_is_within_bounds(pos) ==> #[trigger] scaled_size(
                size,
                factor,
            ).spec_is_within_bounds((pos.0 / factor.0, pos.1 / factor.1)),
{
    let (w, h) = (size.spec_width() as int, size.spec_height() as int);
    lemma_div_ceil_bounds(w, factor.0 as int);
    lemma_div_ceil_bounds(h, factor.1 as int);
    lemma_mul_le(div_ceil(w, factor.0 as int), div_ceil(h, factor.1 as int), w, h);
    assert forall|pos: (u64, u64)| size.spec_is_within_bounds(pos) implies #[trigger] scaled_size(
        size,
        factor,
    ).spec_is_within_bounds((pos.0 / factor.0, pos.1 / factor.1)) by {
        assert((pos.0 as int) / (factor.0 as int) < div_ceil(w, factor.0 as int));
        assert((pos.1 as int) / (factor.1 as int) < div_ceil(h, factor.1 as int));
    }
}

impl<L: Label> Scaled<L> {
    #[verifier::type_invariant]
    spec fn positive_factors(self) -> bool {
        self.factor_x > 0 && self.factor_y > 0
    }

    /// The inner label, in specifications.
    pub closed spec fn spec_inner(&self) -> L {
        self.label
    }

    /// The scaling factors, in specifications.
    pub closed spec fn spec_scale(&self) -> (u64, u64) {
        (self.factor_x, self.factor_y)
    }

    /// Creates a new [`Scaled`] from a [`Label`] and scaling factors; an error if either factor
    /// is zero.
    pub fn new(label: L, factor: (u64, u64)) -> (r: Result<Self, ScaledError>)
        ensures
            factor.0 == 0 || factor.1 == 0 ==> r == Err::<Self, ScaledError>(
                ScaledError::ZeroScale,
            ),
            factor.0 > 0 && factor.1 > 0 ==> r is Ok && r->Ok_0.spec_inner() == label
                && r->Ok_0.spec_scale() == factor,
    {
        if factor.0 == 0 || factor.1 == 0 {
            Err(ScaledError::ZeroScale)
        } else {
            Ok(Self { label, factor_x: factor.0, factor_y: factor.1 })
        }
    }

    /// Returns a reference to the inner [`Label`].
    pub fn inner(&self) -> (r: &L)
        ensures
            *r == self.spec_inner(),
    {
        &self.label
    }

    /// Returns the horizontal and vertical scaling factors.
    pub fn scale(&self) -> (r: (u64, u64))
        ensures
            r == self.spec_scale(),
            r.0 > 0 && r.1 > 0,
    {
        proof {
            use_type_invariant(self);
        }
        (self.factor_x, self.factor_y)
    }

    /// The size of the shrunk puzzle, with the facts that the label needs of it.
    fn shrunk(&self, size: Size) -> (r: Size)
        ensures
            r == scaled_size(size, self.spec_scale()),
            r.spec_area() <= size.spec_area(),
            forall|pos: (u64, u64)|
                size.spec_is_within_bounds(pos) ==> #[trigger] r.spec_is_within_bounds(
                    (pos.0 / self.spec_scale().0, pos.1 / self.spec_scale().1),
                ),
    {
        let factor = self.scale();
        let (width, height) = (size.width(), size.height());
        proof {
            lemma_scaled_size(size, factor);
        }
        let (sw, sh) = (div_ceil_u64(width, factor.0), div_ceil_u64(height, factor.1));
        match Size::new(sw, sh) {
            Ok(s) => s,
            Err(_) => size,
        }
    }
}

impl<L: Label> Label for Scaled<L> {
    open spec fn spec_valid_size(&self, size: Size) -> bool {
        self.spec_inner().spec_valid_size(scaled_size(size, self.spec_scale()))
    }

    open spec fn spec_position_label(&self, size: Size, pos: (u64, u64)) -> int {
        self.spec_inner().spec_position_label(
            scaled_size(size, self.spec_scale()),
            (pos.0 / self.spec_scale().0, pos.1 / self.spec_scale().1),
        )
    }

    open spec fn spec_num_labels(&self, size: Size) -> int {
        self.spec_inner().spec_num_labels(scaled_size(size, self.spec_scale()))
    }

    fn is_valid_size(&self, size: Size) -> (r: bool) {
        let shrunk = self.shrunk(size);
        self.label.is_valid_size(shrunk)
    }

    fn position_label(&self, size: Size, pos: (u64, u64)) -> (r: u64) {
        let shrunk = self.shrunk(size);
        let factor = self.scale();
        let (x, y) = (pos.0 / factor.0, pos.1 / factor.1);
        self.label.position_label(shrunk, (x, y))
    }

    fn num_labels(&self, size: Size) -> (r: u64) {
        let shrunk = self.shrunk(size);
        self.label.num_labels(shrunk)
    }
}

} // verus!
