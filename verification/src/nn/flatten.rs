//! Flattening a contiguous range of dimensions into one.
use crate::nn::module::Layer;
use crate::storage::layout::{dims_positive, lemma_numel_split, lemma_numel_positive, numel_of};
use vstd::prelude::*;

verus! {

/// A dimension in PyTorch's signed convention (negative counts from the end)
/// as a plain index.
pub open spec fn normalized_dim(dim: isize, ndim: usize) -> int {
    if dim < 0 {
        ndim + dim
    } else {
        dim as int
    }
}

/// `dim` names one of `ndim` dimensions.
pub open spec fn dim_in_range(dim: isize, ndim: usize) -> bool {
    0 <= normalized_dim(dim, ndim) < ndim
}

/// `shape` with dimensions `start..=end` replaced by their product.
pub open spec fn flattened_shape(shape: Seq<usize>, start: int, end: int) -> Seq<usize> {
    shape.take(start) + seq![numel_of(shape.subrange(start, end + 1)) as usize] + shape.skip(end + 1)
}

/// Flatten dimensions `start_dim..=end_dim` (signed, PyTorch convention).
/// The default `1..=-1` turns `[B, C, H, W]` into `[B, C * H * W]`.
pub struct Flatten {
    pub start_dim: isize,
    pub end_dim: isize,
}

impl Flatten {
    pub fn new() -> (r: Self)
        ensures
            r.start_dim == 1,
            r.end_dim == -1,
    {
        Flatten { start_dim: 1, end_dim: -1 }
    }

    pub fn with_dims(start_dim: isize, end_dim: isize) -> (r: Self)
        ensures
            r.start_dim == start_dim,
            r.end_dim == end_dim,
    {
        Flatten { start_dim, end_dim }
    }

    /// Same as [`Self::with_dims`].
    pub fn new_with_dims(start_dim: isize, end_dim: isize) -> (r: Self)
        ensures
            r.start_dim == start_dim,
            r.end_dim == end_dim,
    {
        Self::with_dims(start_dim, end_dim)
    }

    /// The shape an input of `shape` is reshaped to by this flatten.
    pub fn output_shape(&self, shape: &[usize]) -> (r: Vec<usize>)
        requires
            shape@.len() > 0,
            shape@.len() <= isize::MAX,
            dims_positive(shape@),
            numel_of(shape@) <= usize::MAX,
            dim_in_range(self.start_dim, shape@.len() as usize),
            dim_in_range(self.end_dim, shape@.len() as usize),
            normalized_dim(self.start_dim, shape@.len() as usize) <= normalized_dim(
                self.end_dim,
                shape@.len() as usize,
            ),
        ensures
            r@ == flattened_shape(
                shape@,
                normalized_dim(self.start_dim, shape@.len() as usize),
                normalized_dim(self.end_dim, shape@.len() as usize),
            ),
    {
        let ndim = shape.len();
        let start = normalize_dim(self.start_dim, ndim, "start_dim");
        let end = normalize_dim(self.end_dim, ndim, "end_dim");
        let mut out: Vec<usize> = Vec::new();
        let mut d: usize = 0;
        while d < start
            invariant
                start <= end < ndim,
                ndim == shape@.len(),
                d <= start,
                out@ == shape@.take(d as int),
            decreases start - d,
        {
            out.push(shape[d]);
            d += 1;
            assert(out@ =~= shape@.take(d as int));
        }
        let mut prod: usize = 1;
        let mut k: usize = start;
        proof {
            assert(shape@.subrange(start as int, start as int) =~= Seq::<usize>::empty());
        }
        while k <= end
            invariant
                start <= end < ndim,
                ndim == shape@.len(),
                dims_positive(shape@),
                numel_of(shape@) <= usize::MAX,
                start <= k <= end + 1,
                prod == numel_of(shape@.subrange(start as int, k as int)),
            decreases end + 1 - k,
        {
            proof {
                let sub = shape@.subrange(start as int, k + 1);
                assert(sub.drop_last() =~= shape@.subrange(start as int, k as int));
                lemma_numel_split(shape@, start as int);
                let tail = shape@.subrange(start as int, ndim as int);
                lemma_numel_split(tail, k + 1 - start);
                assert(tail.subrange(0, k + 1 - start) =~= sub);
                let rest = tail.subrange(k + 1 - start, tail.len() as int);
                assert(dims_positive(rest));
                lemma_numel_positive(rest);
                let head = shape@.subrange(0, start as int);
                assert(dims_positive(head));
                lemma_numel_positive(head);
                assert(numel_of(sub) <= numel_of(tail)) by (nonlinear_arith)
                    requires
                        numel_of(tail) == numel_of(sub) * numel_of(rest),
                        numel_of(rest) >= 1,
                ;
                assert(numel_of(tail) <= numel_of(shape@)) by (nonlinear_arith)
                    requires
                        numel_of(shape@) == numel_of(head) * numel_of(tail),
                        numel_of(head) >= 1,
                ;
            }
            prod = prod * shape[k];
            k += 1;
        }
        out.push(prod);
        let mut e: usize = end + 1;
        let ghost pre = out@;
        while e < ndim
            invariant
                start <= end < ndim,
                ndim == shape@.len(),
                end + 1 <= e <= ndim,
                out@ == pre + shape@.subrange(end + 1, e as int),
            decreases ndim - e,
        {
            out.push(shape[e]);
            e += 1;
            assert(out@ =~= pre + shape@.subrange(end + 1, e as int));
        }
        assert(out@ =~= flattened_shape(shape@, start as int, end as int));
        out
    }
}

impl Default for Flatten {
    fn default() -> (r: Self)
        ensures
            r.start_dim == 1,
            r.end_dim == -1,
    {
        Self::new()
    }
}

impl Layer for Flatten {}

/// Resolve a signed dimension against `ndim` dimensions.
pub fn normalize_dim(dim: isize, ndim: usize, name: &str) -> (r: usize)
    requires
        ndim <= isize::MAX,
        dim_in_range(dim, ndim),
    ensures
        r == normalized_dim(dim, ndim),
{
    let normalized = if dim < 0 {
        ndim as isize + dim
    } else {
        dim
    };
    normalized as usize
}

} // verus!
