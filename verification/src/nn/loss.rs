//! Loss functions.
use crate::nn::activate::LogSoftmax;
use vstd::prelude::*;

verus! {

/// Cross-entropy over the last (class) dimension, computed from
/// log-probabilities and one-hot targets.
pub struct CrossEntropyLoss {
    pub log_softmax: LogSoftmax,
}

impl CrossEntropyLoss {
    pub fn new() -> (r: Self)
        ensures
            r == (CrossEntropyLoss { log_softmax: LogSoftmax {} }),
    {
        CrossEntropyLoss { log_softmax: LogSoftmax::new() }
    }
}

impl Default for CrossEntropyLoss {
    fn default() -> (r: Self)
        ensures
            r == (CrossEntropyLoss { log_softmax: LogSoftmax {} }),
    {
        Self::new()
    }
}

} // verus!
