//! Verified core of a small tensor library with reverse-mode
//! differentiation.
//!
//! - `tensor`, `shape`, `creation`: dense row-major tensors whose buffer always
//!   matches their extents, and their constructors and accessors.
//! - `compare`, `logical`, `broadcast`, `ops`, `joins`, `permute`: element-wise
//!   comparisons and connectives, broadcasting arithmetic, sums, matrix
//!   products, windows (`narrow`, `select`, `slice_tensor`), concatenation,
//!   stacking and axis exchange; the differentiable ones record how their
//!   result was computed.
//! - `graph`, `backprop`, `backward`, `kernels`: the computation graph, the
//!   gradient rule of every recorded operation and the backward pass.
//! - `activation`, `slices`: the rectified linear unit and the slice-wise
//!   layout shared by softmax-like normalisations.
//! - `reduction`, `text`, `recurrent`, `autograd`: configuration enums and
//!   their parsing, and the shape checks of recurrent training.
//! - `laws`: properties relating several operations.

pub mod error;
pub mod shape;
pub mod text;
pub mod tensor;
pub mod compare;
pub mod logical;
pub mod broadcast;
pub mod activation;
pub mod slices;
pub mod reduction;
pub mod autograd;
pub mod laws;
pub mod graph;
pub mod kernels;
pub mod ops;
pub mod backprop;
pub mod backward;
pub mod creation;
pub mod joins;
pub mod recurrent;
pub mod permute;
pub mod gradients;
