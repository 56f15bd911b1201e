//! Sliding puzzles, their sizes, labels, moves and everything around them.

pub mod scrambler;
pub mod size;
pub mod small;
pub mod puzzle;
pub mod puzzle_move;
pub mod render;
pub mod sliding_puzzle;
pub mod label;
pub mod color_scheme;
pub mod coloring;
pub mod display;
pub mod grids;
pub mod solvable;
pub mod solved;
pub mod solved_state;
