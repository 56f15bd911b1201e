//! Displays a [`Puzzle`] in a way chosen by a marker type.

use std::marker::PhantomData;

use vstd::prelude::*;

use crate::puzzle::display::{grid_width, puzzle_text, DisplayGrid as Grid, DisplayInline as Inline};
use crate::puzzle::puzzle::Puzzle;

verus! {

/// Displays `puzzle` in the way that `T` names: [`DisplayGrid`] or [`DisplayInline`].
pub struct DisplayPuzzle<'a, T> {
    puzzle: &'a Puzzle,
    phantom: PhantomData<T>,
}

impl<'a, T> DisplayPuzzle<'a, T> {
    /// Creates a [`DisplayPuzzle`] for displaying `puzzle`.
    pub fn new(puzzle: &'a Puzzle) -> (r: Self)
        ensures
            r.spec_puzzle() == puzzle,
    {
        Self { puzzle, phantom: PhantomData }
    }

    /// The puzzle, in specifications.
    pub closed spec fn spec_puzzle(&self) -> &'a Puzzle {
        self.puzzle
    }
}

/// Marks a [`DisplayPuzzle`] that shows the puzzle as a grid.
pub struct DisplayGrid;

/// Marks a [`DisplayPuzzle`] that shows the puzzle on a single line.
pub struct DisplayInline;

impl DisplayPuzzle<'_, DisplayGrid> {
    /// The puzzle as text, as [`Grid::to_string`] gives it.
    pub fn to_string(&self) -> (r: String)
        requires
            self.spec_puzzle().wf(),
            self.spec_puzzle()@.len() > 1,
        ensures
            r@ == puzzle_text(
                self.spec_puzzle()@,
                self.spec_puzzle().w(),
                self.spec_puzzle().h(),
                grid_width(self.spec_puzzle()),
                '\n',
            ),
    {
        Grid::new(self.puzzle).to_string()
    }
}

impl DisplayPuzzle<'_, DisplayInline> {
    /// The puzzle as text, as [`Inline::to_string`] gives it.
    pub fn to_string(&self) -> (r: String)
        requires
            self.spec_puzzle().wf(),
        ensures
            r@ == puzzle_text(self.spec_puzzle()@, self.spec_puzzle().w(), self.spec_puzzle().h(), 0, '/'),
    {
        Inline::new(self.puzzle).to_string()
    }
}

} // verus!
