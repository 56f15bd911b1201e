//! A list of color schemes, used as the layers of a multi-layer color scheme.

use vstd::prelude::*;

use crate::puzzle::size::Size;

verus! {

/// Error type for [`SchemeList`].
#[derive(Clone, Copy, Debug, PartialEq, Eq)]
pub enum SchemeListError {
    /// Returned from [`SchemeList::new`] if the list of schemes is empty.
    Empty,
}

/// A non-empty list of color schemes: layer `i` is colored by the `i`-th scheme.
#[derive(Debug, PartialEq, Eq, Hash)]
pub struct SchemeList<S> {
    schemes: Vec<S>,
}

impl<S> SchemeList<S> {
    /// The list is never empty.
    #[verifier::type_invariant]
    spec fn nonempty(self) -> bool {
        self.schemes.len() > 0
    }

    /// The schemes, in specifications.
    pub closed spec fn view(&self) -> Seq<S> {
        self.schemes@
    }

    /// Create a new [`SchemeList`] containing the given list of color schemes: an error if the
    /// list is empty.
    pub fn new(schemes: Vec<S>) -> (r: Result<Self, SchemeListError>)
        ensures
            schemes@.len() == 0 <==> r == Err::<Self, SchemeListError>(SchemeListError::Empty),
            r is Ok ==> r->Ok_0@ == schemes@,
    {
        if schemes.len() == 0 {
            Err(SchemeListError::Empty)
        } else {
            Ok(Self { schemes })
        }
    }

    /// A list holding the single scheme `scheme`.
    pub fn from_scheme(scheme: S) -> (r: Self)
        ensures
            r@ == seq![scheme],
    {
        let mut schemes = Vec::new();
        schemes.push(scheme);
        Self { schemes }
    }

    /// Returns a reference to the list of schemes.
    pub fn schemes(&self) -> (r: &[S])
        ensures
            r@ == self@,
            r@.len() > 0,
    {
        proof {
            use_type_invariant(self);
        }
        self.schemes.as_slice()
    }

    /// The number of layers: the number of schemes, cut down to a `u32`.
    pub fn num_layers(&self, size: Size) -> (r: u32)
        ensures
            r == self@.len() as u32,
    {
        self.schemes.len() as u32
    }

    /// The scheme that colors layer `layer`.
    pub fn scheme(&self, layer: u32) -> (r: &S)
        requires
            layer < self@.len(),
        ensures
            *r == self@[layer as int],
    {
        &self.schemes[layer as usize]
    }
}

} // verus!
