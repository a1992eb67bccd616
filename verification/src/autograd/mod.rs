//! Recorded operations and their gradient rules, stated on storages, and the
//! schedule of a backward pass.
pub mod grad_fn;
pub mod ops;
pub mod plan;
