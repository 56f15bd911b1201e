//! The integer geometry of color schemes: where a position lies in a tiled or split puzzle.
//!
//! A color scheme maps each position of a puzzle to a color. The colors themselves are computed
//! outside this crate; what is here decides which grid a position falls in, and where in it.

pub mod balanced_split;
pub mod multi_layer;
pub mod scheme_list;
pub mod tiled;

use vstd::prelude::*;

use crate::puzzle::size::Size;

verus! {

/// Error type for color schemes.
#[derive(Clone, Copy, Debug, PartialEq, Eq)]
pub enum ColorSchemeError {
    /// Returned when the `(x, y)` position is outside the bounds of the puzzle.
    PositionOutOfBounds {
        /// Size of the puzzle.
        size: Size,
        /// Piece position.
        pos: (u64, u64),
    },
}

/// A color scheme that always outputs black. This is just to make rendering more convenient
/// (because most of the time, we probably want black text and black borders).
#[derive(Clone, Copy, Debug, Default, PartialEq, Eq)]
pub struct Black;

} // verus!
