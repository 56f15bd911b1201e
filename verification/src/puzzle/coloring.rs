//! Colorings map labels to colors. The colors themselves are values of a type chosen by the
//! caller; what is here is how a label picks one.

use vstd::prelude::*;

verus! {

/// Error type for [`ColorList`].
#[derive(Clone, Copy, Debug, PartialEq, Eq, PartialOrd, Ord, Hash)]
pub enum ColorListError {
    /// Returned when [`ColorList::new`] is given an empty list.
    EmptyColorList,
}

/// A coloring that always produces the same color.
#[derive(Clone, Debug, Default, PartialEq)]
pub struct Monochrome<C> {
    /// The color that this coloring always produces.
    pub color: C,
}

impl<C> Monochrome<C> {
    /// Creates a new [`Monochrome`] coloring.
    pub fn new(color: C) -> (r: Self)
        ensures
            r.color == color,
    {
        Self { color }
    }

    /// The color of every label: the one color of this coloring.
    pub fn color(&self, label: u64, num_labels: u64) -> (r: &C)
        ensures
            *r == self.color,
    {
        &self.color
    }

    /// See [`Monochrome::color`]; `None` if `label` is not below `num_labels`.
    pub fn try_color(&self, label: u64, num_labels: u64) -> (r: Option<&C>)
        ensures
            r == if label < num_labels {
                Some(&self.color)
            } else {
                None
            },
    {
        if label < num_labels {
            Some(self.color(label, num_labels))
        } else {
            None
        }
    }
}

/// A coloring that cycles through a non-empty list of colors: label `i` gets the color at index
/// `i` modulo the length of the list.
#[derive(Debug, PartialEq)]
pub struct ColorList<C> {
    colors: Vec<C>,
}

impl<C: Clone> Clone for ColorList<C> {
    fn clone(&self) -> (r: Self)
        ensures
            r@.len() == self@.len(),
    {
        proof {
            use_type_invariant(self);
        }
        Self { colors: self.colors.clone() }
    }
}

/// A coloring that produces rainbow colors from red to pink, spread over the labels.
#[derive(Clone, Copy, Debug, PartialEq, Eq, PartialOrd, Ord, Hash)]
pub struct RainbowFull;

impl<C> ColorList<C> {
    /// The list is never empty.
    #[verifier::type_invariant]
    spec fn nonempty(self) -> bool {
        self.colors.len() > 0
    }

    /// The colors of the list, in specifications.
    pub closed spec fn view(&self) -> Seq<C> {
        self.colors@
    }

    /// Creates a new [`ColorList`] from a vector of colors: an error if the vector is empty.
    pub fn new(colors: Vec<C>) -> (r: Result<Self, ColorListError>)
        ensures
            colors@.len() == 0 <==> r == Err::<Self, ColorListError>(ColorListError::EmptyColorList),
            r is Ok ==> r->Ok_0@ == colors@,
    {
        if colors.len() == 0 {
            Err(ColorListError::EmptyColorList)
        } else {
            Ok(Self { colors })
        }
    }

    /// The colors of the list.
    pub fn colors(&self) -> (r: &[C])
        ensures
            r@ == self@,
            r@.len() > 0,
    {
        proof {
            use_type_invariant(self);
        }
        self.colors.as_slice()
    }

    /// The color of label `label`: the color at index `label` modulo the length of the list.
    /// The number of labels plays no part.
    pub fn color(&self, label: u64, num_labels: u64) -> (r: &C)
        ensures
            self@.len() > 0,
            *r == self@[(label % (self@.len() as u64)) as int],
    {
        proof {
            use_type_invariant(self);
        }
        let len = self.colors.len() as u64;
        let idx = (label % len) as usize;
        &self.colors[idx]
    }

    /// See [`ColorList::color`]; `None` if `label` is not below `num_labels`.
    pub fn try_color(&self, label: u64, num_labels: u64) -> (r: Option<&C>)
        ensures
            self@.len() > 0,
            label < num_labels ==> r == Some(&self@[(label % (self@.len() as u64)) as int]),
            label >= num_labels ==> r is None,
    {
        proof {
            use_type_invariant(self);
        }
        if label < num_labels {
            Some(self.color(label, num_labels))
        } else {
            None
        }
    }
}

} // verus!
