//! A small tensor library: strided storage with views, materializing shape
//! operations, reductions, matrix products and convolutions over a closed set
//! of element types; the gradient rules of the recorded operations and the
//! schedule of a backward pass; neural-network layer descriptions; and
//! dataset parsing and batching helpers.
pub mod autograd;
pub mod data;
pub mod dtype;
pub mod errors;
pub mod laws;
pub mod nn;
pub mod storage;
pub mod text;
