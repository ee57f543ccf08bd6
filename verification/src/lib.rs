//! Reverse-mode automatic differentiation over a graph of dense 2-D tensors.
//!
//! The crate keeps the structure of a computation and proves what it says of
//! it: which node was built from which operands, what shape every tensor has,
//! in which order gradients have to flow, and which rule carries a gradient
//! across each edge. The numbers themselves are kept by the caller, one value
//! and one gradient tensor for each handle.
//!
//! - [`autograd`]: the arena of nodes, handles on them, and the operations that
//!   append a node.
//! - [`order`]: depth-first post-order of the nodes below a root, and the proof
//!   that it is a topological order of exactly those nodes.
//! - [`backward`]: the backward pass as a list of accumulation steps, and the
//!   proofs that every edge is taken once, that no gradient is read before it is
//!   complete, and that every contribution has the shape of its target.
//! - [`mlp`]: neurons, layers and multilayer perceptrons built from those
//!   operations.

pub mod autograd;
pub mod backward;
pub mod mlp;
pub mod order;
