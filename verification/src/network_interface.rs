//! Entry points for programs that work with networks by name.

use crate::neural_network::NeuralNetwork;
use crate::scalar::Scalar;
use vstd::prelude::*;

verus! {

/// Takes an input and a network, and does nothing with them.
pub fn process<T: Scalar>(input: &[T], network: &NeuralNetwork<T>) {
}

/// Takes the layer sizes and the name of a network, and does nothing with
/// them.
pub fn create(layers: &[u32], name: &str) {
}

} // verus!
