//! Color schemes with multiple "layers".

use vstd::prelude::*;

use crate::puzzle::color_scheme::ColorSchemeError;

verus! {

/// Error type for multi-layer color schemes.
#[derive(Clone, Copy, Debug, PartialEq, Eq)]
pub enum MultiLayerColorSchemeError {
    /// Errors from a single-layer color scheme.
    ColorSchemeError(ColorSchemeError),
    /// Returned when the layer index is out of bounds.
    LayerOutOfBounds {
        /// The provided layer index.
        layer: u32,
    },
}

/// Represents a single layer of a multi-layer color scheme.
#[derive(Clone, Debug, PartialEq, Eq)]
pub struct Layer<S> {
    scheme: S,
    layer: u32,
}

impl<S> Layer<S> {
    /// The layer `layer` of `scheme`.
    pub fn new(scheme: S, layer: u32) -> (r: Self)
        ensures
            r.spec_scheme() == scheme,
            r.spec_layer() == layer,
    {
        Self { scheme, layer }
    }

    /// The scheme, in specifications.
    pub closed spec fn spec_scheme(&self) -> S {
        self.scheme
    }

    /// The index of the layer, in specifications.
    pub closed spec fn spec_layer(&self) -> u32 {
        self.layer
    }

    /// Returns a reference to the inner multi-layer color scheme.
    pub fn scheme(&self) -> (r: &S)
        ensures
            *r == self.spec_scheme(),
    {
        &self.scheme
    }

    /// Returns the index of the layer that this [`Layer`] represents.
    pub fn layer(&self) -> (r: u32)
        ensures
            r == self.spec_layer(),
    {
        self.layer
    }
}

} // verus!
