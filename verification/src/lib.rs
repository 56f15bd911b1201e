//! Utilities for working with sliding puzzles of arbitrary size, such as the 15 puzzle.
//!
//! The functions of this crate are verified with Verus against the contracts that they state,
//! except a few small trusted wrappers around outside code (`str::parse`, collecting characters
//! into a `String`, and `rand`'s `random_range` and index sampling), whose contracts are taken
//! on trust from those functions' documentation.

use vstd::prelude::*;

pub mod arith;
pub mod perm;
pub mod puzzle;
pub mod text;
