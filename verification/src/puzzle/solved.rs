//! Solved states defined directly on the pieces of a puzzle.

pub mod solved;
