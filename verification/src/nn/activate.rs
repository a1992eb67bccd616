//! Parameterless activation layers.
use crate::nn::module::Layer;
use vstd::prelude::*;

verus! {

/// Rectified linear unit, `max(x, 0)`.
pub struct ReLU {}

impl ReLU {
    pub fn new() -> (r: Self)
        ensures
            r == (ReLU {}),
    {
        ReLU {}
    }
}

impl Default for ReLU {
    fn default() -> (r: Self)
        ensures
            r == (ReLU {}),
    {
        Self::new()
    }
}

impl Layer for ReLU {}

/// Log-softmax over the last dimension.
pub struct LogSoftmax {}

impl LogSoftmax {
    pub fn new() -> (r: Self)
        ensures
            r == (LogSoftmax {}),
    {
        LogSoftmax {}
    }
}

impl Default for LogSoftmax {
    fn default() -> (r: Self)
        ensures
            r == (LogSoftmax {}),
    {
        Self::new()
    }
}

impl Layer for LogSoftmax {}

/// Softmax over the last dimension.
pub struct Softmax {}

impl Softmax {
    pub fn new() -> (r: Self)
        ensures
            r == (Softmax {}),
    {
        Softmax {}
    }
}

impl Default for Softmax {
    fn default() -> (r: Self)
        ensures
            r == (Softmax {}),
    {
        Self::new()
    }
}

impl Layer for Softmax {}

} // verus!
