//! Parameterless 2D pooling layers over `[batch, channel, height, width]`
//! inputs.
use crate::nn::module::Layer;
use vstd::prelude::*;

verus! {

/// The stride a pooling layer uses: the given one, or the kernel size (no
/// overlap) when none is given.
pub open spec fn pool_stride(kernel_size: usize, stride: Option<usize>) -> usize {
    match stride {
        Some(s) => s,
        None => kernel_size,
    }
}

/// Square-window average pooling.
pub struct AvgPool2d {
    pub kernel: (usize, usize),
    pub stride: (usize, usize),
}

impl AvgPool2d {
    pub fn new(kernel_size: usize, stride: Option<usize>) -> (r: Self)
        ensures
            r.kernel == (kernel_size, kernel_size),
            r.stride == (pool_stride(kernel_size, stride), pool_stride(kernel_size, stride)),
    {
        let stride = match stride {
            Some(s) => s,
            None => kernel_size,
        };
        AvgPool2d { kernel: (kernel_size, kernel_size), stride: (stride, stride) }
    }
}

impl Layer for AvgPool2d {}

/// Square-window max pooling.
pub struct MaxPool2d {
    pub kernel: (usize, usize),
    pub stride: (usize, usize),
}

impl MaxPool2d {
    pub fn new(kernel_size: usize, stride: Option<usize>) -> (r: Self)
        ensures
            r.kernel == (kernel_size, kernel_size),
            r.stride == (pool_stride(kernel_size, stride), pool_stride(kernel_size, stride)),
    {
        let stride = match stride {
            Some(s) => s,
            None => kernel_size,
        };
        MaxPool2d { kernel: (kernel_size, kernel_size), stride: (stride, stride) }
    }
}

impl Layer for MaxPool2d {}

} // verus!
