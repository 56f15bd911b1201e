//! Defines the [`Grids`] trait.

use vstd::prelude::*;

use crate::puzzle::label::rect_partition::Rect;
use crate::puzzle::size::Size;

verus! {

/// Defines the grid structure of a [`Label`] or a color scheme: the puzzle is divided into
/// rectangular grids.
///
/// [`Label`]: crate::puzzle::label::label::Label
pub trait Grids {
    /// Returns the [`Rect`] corresponding to a grid containing the given position on a puzzle of
    /// the given [`Size`].
    fn grid_containing_pos(&self, size: Size, pos: (u64, u64)) -> (r: Rect)
        requires
            size.spec_is_within_bounds(pos),
        ensures
            r.covers(pos.0 as int, pos.1 as int),
    ;
}

} // verus!
