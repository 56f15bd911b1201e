//! Errors of labels built recursively from a partition of the puzzle into rectangles, each
//! labelled in turn.

use vstd::prelude::*;

verus! {

/// Error type for recursive labels.
#[derive(Clone, Copy, Debug, PartialEq, Eq, PartialOrd, Ord, Hash)]
pub enum RecursiveLabelError {
    /// Returned when the number of sublabels differs from the number of rectangles of the
    /// partition.
    InvalidSublabels {
        /// The number of sublabels given.
        num_labels: usize,
        /// The number of rectangles of the partition.
        num_rects: usize,
    },
    /// Returned when the partition does not start at the top left corner `(0, 0)`.
    InvalidPartitionRect {
        /// The top left corner of the partition.
        top_left: (u32, u32),
    },
}

} // verus!
