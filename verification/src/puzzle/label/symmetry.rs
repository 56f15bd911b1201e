//! Defines the 8 symmetries of a square as label modifiers.
//!
//! Each symmetry relabels a puzzle by looking up the label of the image of each position under
//! the symmetry, on the image of the puzzle. Each keeps the number of labels, and each turns a
//! [`BijectiveLabel`] into a [`BijectiveLabel`].

use vstd::prelude::*;

use crate::puzzle::label::label::{BijectiveLabel, Label};
use crate::puzzle::size::{group_size, Size};

verus! {

broadcast use group_size;

/// The identity symmetry. This does nothing and is only included for completeness.
#[derive(Clone, Debug, PartialEq, Eq, Hash)]
pub struct Id<L: Label>(pub L);

/// Rotation clockwise by 90 degrees.
#[derive(Clone, Debug, PartialEq, Eq, Hash)]
pub struct RotateCw<L: Label>(pub L);

/// Rotation anticlockwise by 90 degrees.
#[derive(Clone, Debug, PartialEq, Eq, Hash)]
pub struct RotateCcw<L: Label>(pub L);

/// Rotation by 180 degrees.
#[derive(Clone, Debug, PartialEq, Eq, Hash)]
pub struct RotateHalf<L: Label>(pub L);

/// Reflection in a vertical line.
#[derive(Clone, Debug, PartialEq, Eq, Hash)]
pub struct ReflectVertical<L: Label>(pub L);

/// Reflection in a horizontal line.
#[derive(Clone, Debug, PartialEq, Eq, Hash)]
pub struct ReflectHorizontal<L: Label>(pub L);

/// Reflection in the diagonal line from top left to bottom right.
#[derive(Clone, Debug, PartialEq, Eq, Hash)]
pub struct ReflectDiagonal<L: Label>(pub L);

/// Reflection in the diagonal line from bottom left to top right.
#[derive(Clone, Debug, PartialEq, Eq, Hash)]
pub struct ReflectAntidiagonal<L: Label>(pub L);

/// The position that `pos` maps to under [`Id`] on a puzzle of the given size.
pub open spec fn id_pos(size: Size, pos: (u64, u64)) -> (u64, u64) {
    let (w, h) = (size.spec_width() as int, size.spec_height() as int);
    pos
}

impl<L: Label> Label for Id<L> {
    open spec fn spec_valid_size(&self, size: Size) -> bool {
        self.0.spec_valid_size(size)
    }

    open spec fn spec_position_label(&self, size: Size, pos: (u64, u64)) -> int {
        self.0.spec_position_label(size, id_pos(size, pos))
    }

    open spec fn spec_num_labels(&self, size: Size) -> int {
        self.0.spec_num_labels(size)
    }

    fn is_valid_size(&self, size: Size) -> (r: bool) {
        self.0.is_valid_size(size)
    }

    fn position_label(&self, size: Size, pos: (u64, u64)) -> (r: u64) {
        proof {
            size.lemma_transpose_area();
        }
        self.0.position_label(size, pos)
    }

    fn num_labels(&self, size: Size) -> (r: u64) {
        proof {
            size.lemma_transpose_area();
        }
        self.0.num_labels(size)
    }
}

impl<L: BijectiveLabel> BijectiveLabel for Id<L> {
    proof fn lemma_bijective(&self, size: Size) {
        let inner = size;
        size.lemma_transpose_area();
        self.0.lemma_bijective(inner);
        assert forall|p: (u64, u64)| size.spec_is_within_bounds(p) implies 0
            <= #[trigger] self.spec_position_label(size, p) < self.spec_num_labels(size) by {
            assert(inner.spec_is_within_bounds(id_pos(size, p)));
        }
        assert forall|p: (u64, u64), q: (u64, u64)|
            size.spec_is_within_bounds(p) && size.spec_is_within_bounds(q)
                && #[trigger] self.spec_position_label(size, p)
                == #[trigger] self.spec_position_label(size, q) implies p == q by {
            let (pp, qq) = (id_pos(size, p), id_pos(size, q));
            assert(inner.spec_is_within_bounds(pp) && inner.spec_is_within_bounds(qq));
            assert(self.0.spec_position_label(inner, pp) == self.0.spec_position_label(inner, qq));
        }
    }
}

/// The position that `pos` maps to under [`RotateCw`] on a puzzle of the given size.
pub open spec fn rotate_cw_pos(size: Size, pos: (u64, u64)) -> (u64, u64) {
    let (w, h) = (size.spec_width() as int, size.spec_height() as int);
    (pos.1, (w - 1 - pos.0) as u64)
}

impl<L: Label> Label for RotateCw<L> {
    open spec fn spec_valid_size(&self, size: Size) -> bool {
        self.0.spec_valid_size(size.spec_transpose())
    }

    open spec fn spec_position_label(&self, size: Size, pos: (u64, u64)) -> int {
        self.0.spec_position_label(size.spec_transpose(), rotate_cw_pos(size, pos))
    }

    open spec fn spec_num_labels(&self, size: Size) -> int {
        self.0.spec_num_labels(size.spec_transpose())
    }

    fn is_valid_size(&self, size: Size) -> (r: bool) {
        self.0.is_valid_size(size.transpose())
    }

    fn position_label(&self, size: Size, pos: (u64, u64)) -> (r: u64) {
        proof {
            size.lemma_transpose_area();
        }
        let (x, y) = pos;
        self.0.position_label(size.transpose(), (y, size.width() - 1 - x))
    }

    fn num_labels(&self, size: Size) -> (r: u64) {
        proof {
            size.lemma_transpose_area();
        }
        self.0.num_labels(size.transpose())
    }
}

impl<L: BijectiveLabel> BijectiveLabel for RotateCw<L> {
    proof fn lemma_bijective(&self, size: Size) {
        let inner = size.spec_transpose();
        size.lemma_transpose_area();
        self.0.lemma_bijective(inner);
        assert forall|p: (u64, u64)| size.spec_is_within_bounds(p) implies 0
            <= #[trigger] self.spec_position_label(size, p) < self.spec_num_labels(size) by {
            assert(inner.spec_is_within_bounds(rotate_cw_pos(size, p)));
        }
        assert forall|p: (u64, u64), q: (u64, u64)|
            size.spec_is_within_bounds(p) && size.spec_is_within_bounds(q)
                && #[trigger] self.spec_position_label(size, p)
                == #[trigger] self.spec_position_label(size, q) implies p == q by {
            let (pp, qq) = (rotate_cw_pos(size, p), rotate_cw_pos(size, q));
            assert(inner.spec_is_within_bounds(pp) && inner.spec_is_within_bounds(qq));
            assert(self.0.spec_position_label(inner, pp) == self.0.spec_position_label(inner, qq));
        }
    }
}

/// The position that `pos` maps to under [`RotateCcw`] on a puzzle of the given size.
pub open spec fn rotate_ccw_pos(size: Size, pos: (u64, u64)) -> (u64, u64) {
    let (w, h) = (size.spec_width() as int, size.spec_height() as int);
    ((h - 1 - pos.1) as u64, pos.0)
}

impl<L: Label> Label for RotateCcw<L> {
    open spec fn spec_valid_size(&self, size: Size) -> bool {
        self.0.spec_valid_size(size.spec_transpose())
    }

    open spec fn spec_position_label(&self, size: Size, pos: (u64, u64)) -> int {
        self.0.spec_position_label(size.spec_transpose(), rotate_ccw_pos(size, pos))
    }

    open spec fn spec_num_labels(&self, size: Size) -> int {
        self.0.spec_num_labels(size.spec_transpose())
    }

    fn is_valid_size(&self, size: Size) -> (r: bool) {
        self.0.is_valid_size(size.transpose())
    }

    fn position_label(&self, size: Size, pos: (u64, u64)) -> (r: u64) {
        proof {
            size.lemma_transpose_area();
        }
        let (x, y) = pos;
        self.0.position_label(size.transpose(), (size.height() - 1 - y, x))
    }

    fn num_labels(&self, size: Size) -> (r: u64) {
        proof {
            size.lemma_transpose_area();
        }
        self.0.num_labels(size.transpose())
    }
}

impl<L: BijectiveLabel> BijectiveLabel for RotateCcw<L> {
    proof fn lemma_bijective(&self, size: Size) {
        let inner = size.spec_transpose();
        size.lemma_transpose_area();
        self.0.lemma_bijective(inner);
        assert forall|p: (u64, u64)| size.spec_is_within_bounds(p) implies 0
            <= #[trigger] self.spec_position_label(size, p) < self.spec_num_labels(size) by {
            assert(inner.spec_is_within_bounds(rotate_ccw_pos(size, p)));
        }
        assert forall|p: (u64, u64), q: (u64, u64)|
            size.spec_is_within_bounds(p) && size.spec_is_within_bounds(q)
                && #[trigger] self.spec_position_label(size, p)
                == #[trigger] self.spec_position_label(size, q) implies p == q by {
            let (pp, qq) = (rotate_ccw_pos(size, p), rotate_ccw_pos(size, q));
            assert(inner.spec_is_within_bounds(pp) && inner.spec_is_within_bounds(qq));
            assert(self.0.spec_position_label(inner, pp) == self.0.spec_position_label(inner, qq));
        }
    }
}

/// The position that `pos` maps to under [`RotateHalf`] on a puzzle of the given size.
pub open spec fn rotate_half_pos(size: Size, pos: (u64, u64)) -> (u64, u64) {
    let (w, h) = (size.spec_width() as int, size.spec_height() as int);
    ((w - 1 - pos.0) as u64, (h - 1 - pos.1) as u64)
}

impl<L: Label> Label for RotateHalf<L> {
    open spec fn spec_valid_size(&self, size: Size) -> bool {
        self.0.spec_valid_size(size)
    }

    open spec fn spec_position_label(&self, size: Size, pos: (u64, u64)) -> int {
        self.0.spec_position_label(size, rotate_half_pos(size, pos))
    }

    open spec fn spec_num_labels(&self, size: Size) -> int {
        self.0.spec_num_labels(size)
    }

    fn is_valid_size(&self, size: Size) -> (r: bool) {
        self.0.is_valid_size(size)
    }

    fn position_label(&self, size: Size, pos: (u64, u64)) -> (r: u64) {
        proof {
            size.lemma_transpose_area();
        }
        let (x, y) = pos;
        self.0.position_label(size, (size.width() - 1 - x, size.height() - 1 - y))
    }

    fn num_labels(&self, size: Size) -> (r: u64) {
        proof {
            size.lemma_transpose_area();
        }
        self.0.num_labels(size)
    }
}

impl<L: BijectiveLabel> BijectiveLabel for RotateHalf<L> {
    proof fn lemma_bijective(&self, size: Size) {
        let inner = size;
        size.lemma_transpose_area();
        self.0.lemma_bijective(inner);
        assert forall|p: (u64, u64)| size.spec_is_within_bounds(p) implies 0
            <= #[trigger] self.spec_position_label(size, p) < self.spec_num_labels(size) by {
            assert(inner.spec_is_within_bounds(rotate_half_pos(size, p)));
        }
        assert forall|p: (u64, u64), q: (u64, u64)|
            size.spec_is_within_bounds(p) && size.spec_is_within_bounds(q)
                && #[trigger] self.spec_position_label(size, p)
                == #[trigger] self.spec_position_label(size, q) implies p == q by {
            let (pp, qq) = (rotate_half_pos(size, p), rotate_half_pos(size, q));
            assert(inner.spec_is_within_bounds(pp) && inner.spec_is_within_bounds(qq));
            assert(self.0.spec_position_label(inner, pp) == self.0.spec_position_label(inner, qq));
        }
    }
}

/// The position that `pos` maps to under [`ReflectVertical`] on a puzzle of the given size.
pub open spec fn reflect_vertical_pos(size: Size, pos: (u64, u64)) -> (u64, u64) {
    let (w, h) = (size.spec_width() as int, size.spec_height() as int);
    (pos.0, (h - 1 - pos.1) as u64)
}

impl<L: Label> Label for ReflectVertical<L> {
    open spec fn spec_valid_size(&self, size: Size) -> bool {
        self.0.spec_valid_size(size)
    }

    open spec fn spec_position_label(&self, size: Size, pos: (u64, u64)) -> int {
        self.0.spec_position_label(size, reflect_vertical_pos(size, pos))
    }

    open spec fn spec_num_labels(&self, size: Size) -> int {
        self.0.spec_num_labels(size)
    }

    fn is_valid_size(&self, size: Size) -> (r: bool) {
        self.0.is_valid_size(size)
    }

    fn position_label(&self, size: Size, pos: (u64, u64)) -> (r: u64) {
        proof {
            size.lemma_transpose_area();
        }
        let (x, y) = pos;
        self.0.position_label(size, (x, size.height() - 1 - y))
    }

    fn num_labels(&self, size: Size) -> (r: u64) {
        proof {
            size.lemma_transpose_area();
        }
        self.0.num_labels(size)
    }
}

impl<L: BijectiveLabel> BijectiveLabel for ReflectVertical<L> {
    proof fn lemma_bijective(&self, size: Size) {
        let inner = size;
        size.lemma_transpose_area();
        self.0.lemma_bijective(inner);
        assert forall|p: (u64, u64)| size.spec_is_within_bounds(p) implies 0
            <= #[trigger] self.spec_position_label(size, p) < self.spec_num_labels(size) by {
            assert(inner.spec_is_within_bounds(reflect_vertical_pos(size, p)));
        }
        assert forall|p: (u64, u64), q: (u64, u64)|
            size.spec_is_within_bounds(p) && size.spec_is_within_bounds(q)
                && #[trigger] self.spec_position_label(size, p)
                == #[trigger] self.spec_position_label(size, q) implies p == q by {
            let (pp, qq) = (reflect_vertical_pos(size, p), reflect_vertical_pos(size, q));
            assert(inner.spec_is_within_bounds(pp) && inner.spec_is_within_bounds(qq));
            assert(self.0.spec_position_label(inner, pp) == self.0.spec_position_label(inner, qq));
        }
    }
}

/// The position that `pos` maps to under [`ReflectHorizontal`] on a puzzle of the given size.
pub open spec fn reflect_horizontal_pos(size: Size, pos: (u64, u64)) -> (u64, u64) {
    let (w, h) = (size.spec_width() as int, size.spec_height() as int);
    ((w - 1 - pos.0) as u64, pos.1)
}

impl<L: Label> Label for ReflectHorizontal<L> {
    open spec fn spec_valid_size(&self, size: Size) -> bool {
        self.0.spec_valid_size(size)
    }

    open spec fn spec_position_label(&self, size: Size, pos: (u64, u64)) -> int {
        self.0.spec_position_label(size, reflect_horizontal_pos(size, pos))
    }

    open spec fn spec_num_labels(&self, size: Size) -> int {
        self.0.spec_num_labels(size)
    }

    fn is_valid_size(&self, size: Size) -> (r: bool) {
        self.0.is_valid_size(size)
    }

    fn position_label(&self, size: Size, pos: (u64, u64)) -> (r: u64) {
        proof {
            size.lemma_transpose_area();
        }
        let (x, y) = pos;
        self.0.position_label(size, (size.width() - 1 - x, y))
    }

    fn num_labels(&self, size: Size) -> (r: u64) {
        proof {
            size.lemma_transpose_area();
        }
        self.0.num_labels(size)
    }
}

impl<L: BijectiveLabel> BijectiveLabel for ReflectHorizontal<L> {
    proof fn lemma_bijective(&self, size: Size) {
        let inner = size;
        size.lemma_transpose_area();
        self.0.lemma_bijective(inner);
        assert forall|p: (u64, u64)| size.spec_is_within_bounds(p) implies 0
            <= #[trigger] self.spec_position_label(size, p) < self.spec_num_labels(size) by {
            assert(inner.spec_is_within_bounds(reflect_horizontal_pos(size, p)));
        }
        assert forall|p: (u64, u64), q: (u64, u64)|
            size.spec_is_within_bounds(p) && size.spec_is_within_bounds(q)
                && #[trigger] self.spec_position_label(size, p)
                == #[trigger] self.spec_position_label(size, q) implies p == q by {
            let (pp, qq) = (reflect_horizontal_pos(size, p), reflect_horizontal_pos(size, q));
            assert(inner.spec_is_within_bounds(pp) && inner.spec_is_within_bounds(qq));
            assert(self.0.spec_position_label(inner, pp) == self.0.spec_position_label(inner, qq));
        }
    }
}

/// The position that `pos` maps to under [`ReflectDiagonal`] on a puzzle of the given size.
pub open spec fn reflect_diagonal_pos(size: Size, pos: (u64, u64)) -> (u64, u64) {
    let (w, h) = (size.spec_width() as int, size.spec_height() as int);
    (pos.1, pos.0)
}

impl<L: Label> Label for ReflectDiagonal<L> {
    open spec fn spec_valid_size(&self, size: Size) -> bool {
        self.0.spec_valid_size(size.spec_transpose())
    }

    open spec fn spec_position_label(&self, size: Size, pos: (u64, u64)) -> int {
        self.0.spec_position_label(size.spec_transpose(), reflect_diagonal_pos(size, pos))
    }

    open spec fn spec_num_labels(&self, size: Size) -> int {
        self.0.spec_num_labels(size.spec_transpose())
    }

    fn is_valid_size(&self, size: Size) -> (r: bool) {
        self.0.is_valid_size(size.transpose())
    }

    fn position_label(&self, size: Size, pos: (u64, u64)) -> (r: u64) {
        proof {
            size.lemma_transpose_area();
        }
        let (x, y) = pos;
        self.0.position_label(size.transpose(), (y, x))
    }

    fn num_labels(&self, size: Size) -> (r: u64) {
        proof {
            size.lemma_transpose_area();
        }
        self.0.num_labels(size.transpose())
    }
}

impl<L: BijectiveLabel> BijectiveLabel for ReflectDiagonal<L> {
    proof fn lemma_bijective(&self, size: Size) {
        let inner = size.spec_transpose();
        size.lemma_transpose_area();
        self.0.lemma_bijective(inner);
        assert forall|p: (u64, u64)| size.spec_is_within_bounds(p) implies 0
            <= #[trigger] self.spec_position_label(size, p) < self.spec_num_labels(size) by {
            assert(inner.spec_is_within_bounds(reflect_diagonal_pos(size, p)));
        }
        assert forall|p: (u64, u64), q: (u64, u64)|
            size.spec_is_within_bounds(p) && size.spec_is_within_bounds(q)
                && #[trigger] self.spec_position_label(size, p)
                == #[trigger] self.spec_position_label(size, q) implies p == q by {
            let (pp, qq) = (reflect_diagonal_pos(size, p), reflect_diagonal_pos(size, q));
            assert(inner.spec_is_within_bounds(pp) && inner.spec_is_within_bounds(qq));
            assert(self.0.spec_position_label(inner, pp) == self.0.spec_position_label(inner, qq));
        }
    }
}

/// The position that `pos` maps to under [`ReflectAntidiagonal`] on a puzzle of the given size.
pub open spec fn reflect_antidiagonal_pos(size: Size, pos: (u64, u64)) -> (u64, u64) {
    let (w, h) = (size.spec_width() as int, size.spec_height() as int);
    ((h - 1 - pos.1) as u64, (w - 1 - pos.0) as u64)
}

impl<L: Label> Label for ReflectAntidiagonal<L> {
    open spec fn spec_valid_size(&self, size: Size) -> bool {
        self.0.spec_valid_size(size.spec_transpose())
    }

    open spec fn spec_position_label(&self, size: Size, pos: (u64, u64)) -> int {
        self.0.spec_position_label(size.spec_transpose(), reflect_antidiagonal_pos(size, pos))
    }

    open spec fn spec_num_labels(&self, size: Size) -> int {
        self.0.spec_num_labels(size.spec_transpose())
    }

    fn is_valid_size(&self, size: Size) -> (r: bool) {
        self.0.is_valid_size(size.transpose())
    }

    fn position_label(&self, size: Size, pos: (u64, u64)) -> (r: u64) {
        proof {
            size.lemma_transpose_area();
        }
        let (x, y) = pos;
        self.0.position_label(size.transpose(), (size.height() - 1 - y, size.width() - 1 - x))
    }

    fn num_labels(&self, size: Size) -> (r: u64) {
        proof {
            size.lemma_transpose_area();
        }
        self.0.num_labels(size.transpose())
    }
}

impl<L: BijectiveLabel> BijectiveLabel for ReflectAntidiagonal<L> {
    proof fn lemma_bijective(&self, size: Size) {
        let inner = size.spec_transpose();
        size.lemma_transpose_area();
        self.0.lemma_bijective(inner);
        assert forall|p: (u64, u64)| size.spec_is_within_bounds(p) implies 0
            <= #[trigger] self.spec_position_label(size, p) < self.spec_num_labels(size) by {
            assert(inner.spec_is_within_bounds(reflect_antidiagonal_pos(size, p)));
        }
        assert forall|p: (u64, u64), q: (u64, u64)|
            size.spec_is_within_bounds(p) && size.spec_is_within_bounds(q)
                && #[trigger] self.spec_position_label(size, p)
                == #[trigger] self.spec_position_label(size, q) implies p == q by {
            let (pp, qq) = (reflect_antidiagonal_pos(size, p), reflect_antidiagonal_pos(size, q));
            assert(inner.spec_is_within_bounds(pp) && inner.spec_is_within_bounds(qq));
            assert(self.0.spec_position_label(inner, pp) == self.0.spec_position_label(inner, qq));
        }
    }
}

} // verus!
