//! The errors of the library.

use vstd::prelude::*;

verus! {

/// The ways in which an operation on a network can fail.
#[derive(Debug, Clone, Copy, PartialEq, Eq, Structural)]
pub enum NetworkError {
    /// An input, target, weight, bias or buffer length disagrees with the layer sizes.
    DimensionMismatch,
    /// No line of the text is a list of two or more layer sizes.
    MissingHeader,
    /// The text ends before every weight and bias has been read.
    MissingValues,
    /// Fewer than two layers, or a layer without units.
    InvalidLayers,
}

} // verus!
