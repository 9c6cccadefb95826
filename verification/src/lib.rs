//! Reverse-mode automatic differentiation over a graph of scalar nodes.
//!
//! A [`Graph`] is an arena of nodes. Each node holds a value, an accumulated
//! gradient and the record of how it was derived. A [`Scalar`] names one node
//! of a graph, and a [`Tensor2D`] is a grid of such names. The numbers
//! themselves are any type that implements [`Number`]: the engine hands them
//! to the operations of that trait and stores what comes back.
//!
//! Operations add nodes and never change one that exists. A backward pass
//! from a node adds one to its gradient and lets every node it reaches hand
//! its gradient down to its operands, every node before its dependencies.

pub mod grad;
pub mod laws;
pub mod loss;
pub mod nn;
pub mod number;
pub mod ops;
pub mod order;
pub mod rules;
pub mod tensor;

pub use grad::{Activation, Data, Dependency, Graph, Nonlinear, Scalar};
pub use loss::mse;
pub use nn::{Layer, Neuron, MLP};
pub use number::Number;
pub use ops::Operation;
pub use tensor::{ShapeMismatch, Tensor2D};
