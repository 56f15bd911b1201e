//! Re-exports the [`Label`] trait and all implementations.

pub use super::grid::Grid;
pub use super::label::{
    BijectiveLabel, Checkerboard, ConcentricRectangles, Diagonals, FixedSize, FixedSizeLabel,
    FixedSizeLabelExt, Fringe, FringeGrids, Label, LabelError, LabelExt, LastTwoRows, RowGrids,
    Rows, Spiral, SpiralGrids, SplitFringe, SplitLastTwoRows, SplitSquareFringe, SquareFringe,
    Trivial,
};
pub use super::rect_partition::{Rect, RectError, RectPartition, RectPartitionError};
pub use super::scaled::{Scaled, ScaledError};
pub use super::symmetry::{
    Id, ReflectAntidiagonal, ReflectDiagonal, ReflectHorizontal, ReflectVertical, RotateCcw,
    RotateCw, RotateHalf,
};
