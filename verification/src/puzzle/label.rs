//! Defines the [`Label`] trait and all implementations.
//!
//! [`Label`]: label/trait.Label.html

pub mod grid;
pub mod label;
pub mod labels;
pub mod rect_partition;
pub mod recursive;
pub mod scaled;
pub mod symmetry;
