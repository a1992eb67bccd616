//! Datasets and batching.
pub mod dataloader;
pub mod dataset;
