//! A fully connected feed-forward network with sigmoid units, trained by
//! gradient descent with backpropagation, and its text format.
//!
//! The network is written for any [`scalar::Scalar`]: its functions say which
//! arithmetic operations they apply to which values and in which order, and
//! the caller supplies the arithmetic. [`model::Parameters`] is what a network
//! is, [`neural_network::NeuralNetwork`] holds it in vectors together with the
//! buffers of the forward pass.

pub mod determinacy;
pub mod equality;
pub mod error;
pub mod forward;
pub mod laws;
pub mod model;
pub mod network_interface;
pub mod network_math;
pub mod neural_network;
pub mod scalar;
pub mod serialization;
pub mod text;
pub mod training;
