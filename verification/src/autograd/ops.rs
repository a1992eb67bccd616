//! The operations a computation graph records, each with the rule that maps
//! the gradient of its output back onto its operands.
use crate::dtype::{Dtype, Numeric, Signed};
use crate::storage::layout::{dims_positive, numel_of, swap_seq, valid_index};
use crate::storage::ops::math::{fresh_layout, mat_at, mat_col, mat_row, matmul_entry, sum_products};
use crate::storage::ops::shape::{
    pad_inside, pad_source, padded_shape, pads_fit, range_lens, shifted_index, slices_fit,
    window_coord, window_hit, windows_fit,
};
use crate::storage::ops::conv::{
    conv_fits, conv_out_shape, conv_positions, grad_input_value, grad_weight_grads, grad_weight_inputs,
    Conv2dBackward,
};
use crate::storage::layout::{dot, lemma_dot_insert_zero, lemma_numel_mono, lemma_numel_update, unravel};
use crate::storage::ops::dims::{
    all_dims, dims_in_range, kept_shape, lemma_kept_insert, lemma_kept_none, lemma_kept_valid, lemma_part_numel,
    lemma_sorted_unique, resolved_dims, same_dims, sorted_dims,
};
use crate::storage::ops::reduce::{fold_max, slice_values};
use crate::storage::ops::shape::strictly_increasing;
use crate::autograd::grad_fn::{axis_sum, folded, folded_grad, lemma_folded_agree, reduce_grad_to_shape, sum_keepdim};
use crate::storage::ops::broadcast::{broadcast_source, broadcasts_to};
use crate::storage::TensorStorage;
use vstd::prelude::*;

verus! {

/// A recorded operation whose gradient rule is known.
pub trait GradFnTrait {}

/// Deep copy; the gradient passes through as a copy.
pub struct CopyDOp {}

/// Insertion of a unit axis at `dim`.
pub struct UnsqueezeOp {
    pub dim: usize,
}

/// Removal of the unit axis at `dim`.
pub struct SqueezeOp {
    pub dim: usize,
}

/// Swap of axes `dim_a` and `dim_b`.
pub struct TransposeOp {
    pub dim_a: usize,
    pub dim_b: usize,
}

/// Stride-0 expansion of the singleton axis `dim`.
pub struct ExpandOp {
    pub dim: usize,
}

/// Broadcast from `old_shape`.
pub struct BroadcastOp {
    pub old_shape: Vec<usize>,
}

/// Zero padding by `(before, after)` per axis.
pub struct PadOp {
    pub pads: Vec<(usize, usize)>,
}

/// Window `(start, len)` per axis.
pub struct SliceOp {
    pub ranges: Vec<(usize, usize)>,
}

/// Strided window `(start, len, step)` per axis.
pub struct StridedSliceOp {
    pub ranges: Vec<(usize, usize, usize)>,
}

/// Reshape to `new_shape`.
pub struct ReshapeOp {
    pub new_shape: Vec<usize>,
}

/// Element-wise negation.
pub struct NegOp;

/// Element-wise absolute value.
pub struct AbsOp;

/// Element-wise natural logarithm.
pub struct LnOp;

/// Element-wise exponential.
pub struct ExpOp;

/// Element-wise square root.
pub struct SqrtOp;

/// Matrix product.
pub struct MatmulOp;

/// Element-wise addition.
pub struct AddOp;

/// Element-wise subtraction.
pub struct SubOp;

/// Element-wise multiplication.
pub struct MulOp;

/// Element-wise division.
pub struct DivOp;

/// Element-wise power.
pub struct PowOp;

/// Element-wise maximum.
pub struct MaximumOp;

/// Sum over `dims`.
pub struct SumOp {
    pub dims: Vec<usize>,
    pub keepdim: bool,
}

/// Maximum over `dims`.
pub struct MaxOp {
    pub dims: Vec<usize>,
    pub keepdim: bool,
}

/// 2D average pooling.
pub struct AvgPool2dOp {
    pub kernel: (usize, usize),
    pub stride: (usize, usize),
}

/// 2D max pooling, with the tied maximum positions of every window.
pub struct MaxPool2dOp {
    pub kernel: (usize, usize),
    pub stride: (usize, usize),
    pub max_indices: Vec<Vec<usize>>,
}

/// 2D convolution.
pub struct Conv2dOp {
    pub stride: (usize, usize),
    pub padding: ((usize, usize), (usize, usize)),
    pub dilation: (usize, usize),
}

impl GradFnTrait for CopyDOp {}

impl GradFnTrait for UnsqueezeOp {}

impl GradFnTrait for SqueezeOp {}

impl GradFnTrait for TransposeOp {}

impl GradFnTrait for ExpandOp {}

impl GradFnTrait for BroadcastOp {}

impl GradFnTrait for PadOp {}

impl GradFnTrait for SliceOp {}

impl GradFnTrait for StridedSliceOp {}

impl GradFnTrait for ReshapeOp {}

impl GradFnTrait for NegOp {}

impl GradFnTrait for AbsOp {}

impl GradFnTrait for LnOp {}

impl GradFnTrait for ExpOp {}

impl GradFnTrait for SqrtOp {}

impl GradFnTrait for MatmulOp {}

impl GradFnTrait for AddOp {}

impl GradFnTrait for SubOp {}

impl GradFnTrait for MulOp {}

impl GradFnTrait for DivOp {}

impl GradFnTrait for PowOp {}

impl GradFnTrait for MaximumOp {}

impl GradFnTrait for SumOp {}

impl GradFnTrait for MaxOp {}

impl GradFnTrait for AvgPool2dOp {}

impl GradFnTrait for MaxPool2dOp {}

impl GradFnTrait for Conv2dOp {}

impl CopyDOp {
    /// The gradient of a deep copy: a deep copy of the incoming gradient.
    pub fn grad<T: Dtype>(&self, in_grad: &TensorStorage<T>) -> (r: TensorStorage<T>)
        requires
            in_grad.wf(),
        ensures
            r.wf(),
            r.shape@ == in_grad.shape@,
            r.elems() == in_grad.elems(),
    {
        TensorStorage::copy_d(in_grad)
    }
}

impl UnsqueezeOp {
    /// The gradient of an unsqueeze: squeeze the same axis back out.
    pub fn grad<T: Dtype>(&self, in_grad: &TensorStorage<T>) -> (r: TensorStorage<T>)
        requires
            in_grad.wf(),
            self.dim < in_grad.shape@.len(),
            in_grad.shape@[self.dim as int] == 1,
        ensures
            r.wf(),
            r.shape@ == in_grad.shape@.remove(self.dim as int),
            r.elems() == in_grad.elems(),
    {
        TensorStorage::squeeze(in_grad, self.dim)
    }
}

impl SqueezeOp {
    /// The gradient of a squeeze: re-insert the unit axis.
    pub fn grad<T: Dtype>(&self, in_grad: &TensorStorage<T>) -> (r: TensorStorage<T>)
        requires
            in_grad.wf(),
            self.dim <= in_grad.shape@.len(),
        ensures
            r.wf(),
            r.shape@ == in_grad.shape@.insert(self.dim as int, 1usize),
            r.elems() == in_grad.elems(),
    {
        TensorStorage::unsqueeze(in_grad, self.dim)
    }
}

impl TransposeOp {
    /// The gradient of a transpose: the same transpose.
    pub fn grad<T: Dtype>(&self, in_grad: &TensorStorage<T>) -> (r: TensorStorage<T>)
        requires
            in_grad.wf(),
            self.dim_a < in_grad.shape@.len(),
            self.dim_b < in_grad.shape@.len(),
        ensures
            r.wf(),
            r.shape@ == swap_seq(in_grad.shape@, self.dim_a as int, self.dim_b as int),
            forall|idx: Seq<usize>|
                valid_index(r.shape@, idx) ==> #[trigger] r.value_at(idx) == in_grad.value_at(
                    swap_seq(idx, self.dim_a as int, self.dim_b as int),
                ),
    {
        TensorStorage::transpose(in_grad, self.dim_a, self.dim_b)
    }
}

/// Window `(pads[d].0, shape[d])` per axis: where the unpadded input sits in
/// the padded output.
pub open spec fn unpad_ranges(shape: Seq<usize>, pads: Seq<(usize, usize)>) -> Seq<(usize, usize)> {
    Seq::new(shape.len(), |d: int| (pads[d].0, shape[d]))
}

impl PadOp {
    /// The gradient of a zero padding: the window of the incoming gradient
    /// where the input sits.
    pub fn grad<T: Dtype>(&self, input_shape: &[usize], in_grad: &TensorStorage<T>) -> (r: TensorStorage<T>)
        requires
            in_grad.wf(),
            dims_positive(input_shape@),
            pads_fit(input_shape@, self.pads@),
            in_grad.shape@ == padded_shape(input_shape@, self.pads@),
        ensures
            r.wf(),
            r.shape@ == input_shape@,
            forall|idx: Seq<usize>|
                valid_index(input_shape@, idx) ==> #[trigger] r.value_at(idx) == in_grad.value_at(
                    shifted_index(idx, Seq::new(input_shape@.len(), |d: int| self.pads@[d].0)),
                ),
    {
        let n = input_shape.len();
        let mut ranges: Vec<(usize, usize)> = Vec::with_capacity(n);
        let mut d: usize = 0;
        while d < n
            invariant
                n == input_shape@.len(),
                self.pads@.len() == n,
                d <= n,
                ranges@ == unpad_ranges(input_shape@, self.pads@).take(d as int),
            decreases n - d,
        {
            ranges.push((self.pads[d].0, input_shape[d]));
            d += 1;
            assert(ranges@ =~= unpad_ranges(input_shape@, self.pads@).take(d as int));
        }
        assert(ranges@ =~= unpad_ranges(input_shape@, self.pads@));
        proof {
            assert forall|k: int| 0 <= k < n implies #[trigger] ranges@[k].1 > 0 && ranges@[k].0
                + ranges@[k].1 <= in_grad.shape@[k] by {
                assert(in_grad.shape@[k] == input_shape@[k] + self.pads@[k].0 + self.pads@[k].1);
            }
        }
        let r = TensorStorage::slice(in_grad, ranges.as_slice());
        proof {
            assert(r.shape@ =~= input_shape@);
            assert(Seq::new(ranges@.len(), |d: int| ranges@[d].0) =~= Seq::new(
                input_shape@.len(),
                |d: int| self.pads@[d].0,
            ));
        }
        r
    }
}

/// Padding `(start, shape[d] - start - len)` per axis: where a slice sits in
/// its input.
pub open spec fn unslice_pads(shape: Seq<usize>, ranges: Seq<(usize, usize)>) -> Seq<(usize, usize)> {
    Seq::new(shape.len(), |d: int| (ranges[d].0, (shape[d] - ranges[d].0 - ranges[d].1) as usize))
}

impl SliceOp {
    /// The gradient of a slice: the incoming gradient zero-padded back to the
    /// input shape.
    pub fn grad<T: Numeric>(&self, input_shape: &[usize], in_grad: &TensorStorage<T>) -> (r: TensorStorage<T>)
        requires
            in_grad.wf(),
            dims_positive(input_shape@),
            numel_of(input_shape@) <= usize::MAX,
            slices_fit(input_shape@, self.ranges@),
            in_grad.shape@ == Seq::new(self.ranges@.len(), |d: int| self.ranges@[d].1),
        ensures
            r.wf(),
            r.shape@ == input_shape@,
            forall|idx: Seq<usize>|
                valid_index(input_shape@, idx) ==> #[trigger] r.value_at(idx) == (if pad_inside(
                    in_grad.shape@,
                    unslice_pads(input_shape@, self.ranges@),
                    idx,
                ) {
                    in_grad.value_at(pad_source(unslice_pads(input_shape@, self.ranges@), idx))
                } else {
                    T::spec_zero()
                }),
    {
        let n = input_shape.len();
        let ghost up = unslice_pads(input_shape@, self.ranges@);
        let mut pads: Vec<(usize, usize)> = Vec::with_capacity(n);
        let mut d: usize = 0;
        while d < n
            invariant
                n == input_shape@.len(),
                slices_fit(input_shape@, self.ranges@),
                up == unslice_pads(input_shape@, self.ranges@),
                d <= n,
                pads@ == up.take(d as int),
            decreases n - d,
        {
            let (start, len) = self.ranges[d];
            pads.push((start, input_shape[d] - start - len));
            d += 1;
            assert(pads@ =~= up.take(d as int));
        }
        assert(pads@ =~= up);
        proof {
            let ps = padded_shape(in_grad.shape@, pads@);
            assert(ps =~= input_shape@);
            assert forall|k: int| 0 <= k < in_grad.shape@.len() implies #[trigger] in_grad.shape@[k]
                + pads@[k].0 + pads@[k].1 <= usize::MAX by {}
        }
        let r = TensorStorage::pad(in_grad, pads.as_slice());
        proof {
            assert(r.shape@ =~= input_shape@);
        }
        r
    }
}

impl StridedSliceOp {
    /// The gradient of a strided slice: the incoming gradient scattered back
    /// onto zeros of the input shape.
    pub fn grad<T: Numeric>(&self, input_shape: &[usize], in_grad: &TensorStorage<T>) -> (r: TensorStorage<T>)
        requires
            in_grad.wf(),
            dims_positive(input_shape@),
            numel_of(input_shape@) <= usize::MAX,
            windows_fit(input_shape@, self.ranges@),
            in_grad.shape@ == range_lens(self.ranges@),
        ensures
            r.wf(),
            r.shape@ == input_shape@,
            forall|idx: Seq<usize>|
                valid_index(input_shape@, idx) ==> #[trigger] r.value_at(idx) == (if window_hit(
                    self.ranges@,
                    idx,
                ) {
                    T::spec_add(T::spec_zero(), in_grad.value_at(window_coord(self.ranges@, idx)))
                } else {
                    T::spec_zero()
                }),
    {
        TensorStorage::slice_strided_backward(in_grad, input_shape, self.ranges.as_slice())
    }
}

impl ReshapeOp {
    /// The gradient of a reshape: the incoming gradient reshaped back.
    pub fn grad<T: Dtype>(&self, input_shape: &[usize], in_grad: &TensorStorage<T>) -> (r: TensorStorage<T>)
        requires
            in_grad.wf(),
            dims_positive(input_shape@),
            numel_of(input_shape@) == in_grad.numel,
        ensures
            r.is_fresh(input_shape@, in_grad.elems()),
    {
        TensorStorage::reshape(in_grad, input_shape)
    }
}

impl NegOp {
    /// The gradient of a negation: the negated incoming gradient.
    pub fn grad<T: Signed>(&self, in_grad: &TensorStorage<T>) -> (r: TensorStorage<T>)
        requires
            in_grad.wf(),
        ensures
            fresh_layout(r, in_grad.shape@),
            forall|i: int| 0 <= i < r.numel ==> #[trigger] r.elems()[i] == T::spec_neg(in_grad.elems()[i]),
    {
        TensorStorage::neg(&[in_grad])
    }
}

/// The gradients of the matrix product `a b` for an incoming gradient `g`:
/// `g bᵀ` for `a` (entry `(i, k)` is row `i` of `g` against row `k` of `b`)
/// and `aᵀ g` for `b` (entry `(k, j)` is column `k` of `a` against column `j`
/// of `g`).
fn matmul_grads_2d<T: Numeric>(
    a: &TensorStorage<T>,
    b: &TensorStorage<T>,
    in_grad: &TensorStorage<T>,
) -> (r: (TensorStorage<T>, TensorStorage<T>))
    requires
        a.wf(),
        b.wf(),
        in_grad.wf(),
        a.shape@.len() == 2,
        b.shape@.len() == 2,
        a.shape@[1] == b.shape@[0],
        in_grad.shape@ == seq![a.shape@[0], b.shape@[1]],
        a.shape@[0] * a.shape@[1] <= usize::MAX,
        b.shape@[0] * b.shape@[1] <= usize::MAX,
    ensures
        fresh_layout(r.0, a.shape@),
        fresh_layout(r.1, b.shape@),
        forall|i: usize, k: usize|
            i < a.shape@[0] && k < a.shape@[1] ==> #[trigger] mat_at(r.0, i, k) == sum_products(
                mat_row(*in_grad, i),
                mat_row(*b, k),
                b.shape@[1] as nat,
            ),
        forall|k: usize, j: usize|
            k < b.shape@[0] && j < b.shape@[1] ==> #[trigger] mat_at(r.1, k, j) == sum_products(
                mat_col(*a, k),
                mat_col(*in_grad, j),
                a.shape@[0] as nat,
            ),
{
    let bt = TensorStorage::transpose(b, 0, 1);
    let at = TensorStorage::transpose(a, 0, 1);
    let ga = TensorStorage::matmul(in_grad, &bt);
    let gb = TensorStorage::matmul(&at, in_grad);
    proof {
        assert(seq![in_grad.shape@[0], bt.shape@[1]] =~= a.shape@);
        assert(seq![at.shape@[0], in_grad.shape@[1]] =~= b.shape@);
        assert forall|i: usize, k: usize| i < a.shape@[0] && k < a.shape@[1] implies #[trigger] mat_at(
            ga,
            i,
            k,
        ) == sum_products(mat_row(*in_grad, i), mat_row(*b, k), b.shape@[1] as nat) by {
            assert(mat_at(ga, i, k) == matmul_entry(*in_grad, bt, i, k));
            assert forall|t: int| 0 <= t < b.shape@[1] implies #[trigger] mat_col(bt, k)[t] == mat_row(*b, k)[t] by {
                let c = seq![t as usize, k];
                assert(valid_index(bt.shape@, c));
                assert(swap_seq(c, 0, 1) =~= seq![k, t as usize]);
            }
            assert(mat_col(bt, k) =~= mat_row(*b, k));
        }
        assert forall|k: usize, j: usize| k < b.shape@[0] && j < b.shape@[1] implies #[trigger] mat_at(
            gb,
            k,
            j,
        ) == sum_products(mat_col(*a, k), mat_col(*in_grad, j), a.shape@[0] as nat) by {
            assert(mat_at(gb, k, j) == matmul_entry(at, *in_grad, k, j));
            assert forall|t: int| 0 <= t < a.shape@[0] implies #[trigger] mat_row(at, k)[t] == mat_col(*a, k)[t] by {
                let c = seq![k, t as usize];
                assert(valid_index(at.shape@, c));
                assert(swap_seq(c, 0, 1) =~= seq![t as usize, k]);
            }
            assert(mat_row(at, k) =~= mat_col(*a, k));
        }
    }
    (ga, gb)
}

/// Operand `a` read as a matrix: a vector `[k]` as the row `[1, k]` when
/// `as_row`, as the column `[k, 1]` otherwise.
pub open spec fn mat_view<T: Dtype>(a: TensorStorage<T>, as_row: bool, i: usize, j: usize) -> T {
    if a.shape@.len() == 1 {
        if as_row {
            a.value_at(seq![j])
        } else {
            a.value_at(seq![i])
        }
    } else {
        a.value_at(seq![i, j])
    }
}

/// The incoming gradient of `a b` read as a matrix, for operand ranks `an`
/// and `bn` (a vector operand drops its axis from the product).
pub open spec fn grad_view<T: Dtype>(g: TensorStorage<T>, an: nat, bn: nat, i: usize, j: usize) -> T {
    if an == 1 && bn == 1 {
        g.value_at(Seq::empty())
    } else if an == 1 {
        g.value_at(seq![j])
    } else if bn == 1 {
        g.value_at(seq![i])
    } else {
        g.value_at(seq![i, j])
    }
}

/// Shape of `a b` for matrix or vector operands.
pub open spec fn matmul_shape(a: Seq<usize>, b: Seq<usize>) -> Seq<usize> {
    if a.len() == 1 && b.len() == 1 {
        Seq::empty()
    } else if a.len() == 1 {
        seq![b[1]]
    } else if b.len() == 1 {
        seq![a[0]]
    } else {
        seq![a[0], b[1]]
    }
}

/// The (row, inner) position in `a`'s matrix view of `a`'s coordinate `idx`.
pub open spec fn row_pos(a: Seq<usize>, idx: Seq<usize>) -> (usize, usize) {
    if a.len() == 1 {
        (0usize, idx[0])
    } else {
        (idx[0], idx[1])
    }
}

/// The (inner, column) position in `b`'s matrix view of `b`'s coordinate `idx`.
pub open spec fn col_pos(b: Seq<usize>, idx: Seq<usize>) -> (usize, usize) {
    if b.len() == 1 {
        (idx[0], 0usize)
    } else {
        (idx[0], idx[1])
    }
}

/// Number of rows of `a`'s matrix view.
pub open spec fn view_rows(a: Seq<usize>) -> nat {
    if a.len() == 1 {
        1
    } else {
        a[0] as nat
    }
}

/// Number of columns of `b`'s matrix view.
pub open spec fn view_cols(b: Seq<usize>) -> nat {
    if b.len() == 1 {
        1
    } else {
        b[1] as nat
    }
}

/// A vector or matrix read as a matrix view, with the value relation.
fn as_matrix<T: Dtype>(a: &TensorStorage<T>, as_row: bool) -> (r: TensorStorage<T>)
    requires
        a.wf(),
        a.shape@.len() == 1 || a.shape@.len() == 2,
    ensures
        r.wf(),
        r.shape@.len() == 2,
        a.shape@.len() == 2 ==> r.shape@ == a.shape@,
        a.shape@.len() == 1 && as_row ==> r.shape@ == seq![1usize, a.shape@[0]],
        a.shape@.len() == 1 && !as_row ==> r.shape@ == seq![a.shape@[0], 1usize],
        forall|i: usize, j: usize|
            i < r.shape@[0] && j < r.shape@[1] ==> #[trigger] mat_at(r, i, j) == mat_view(*a, as_row, i, j),
{
    if a.shape.len() == 1 {
        let d: usize = if as_row { 0 } else { 1 };
        let r = TensorStorage::unsqueeze(a, d);
        proof {
            assert forall|i: usize, j: usize| i < r.shape@[0] && j < r.shape@[1] implies #[trigger] mat_at(r, i, j)
                == mat_view(*a, as_row, i, j) by {
                let c = seq![i, j];
                assert(valid_index(r.shape@, c));
                if as_row {
                    assert(c.remove(0) =~= seq![j]);
                } else {
                    assert(c.remove(1) =~= seq![i]);
                }
            }
        }
        r
    } else {
        TensorStorage::copy_s(a)
    }
}

impl MatmulOp {
    /// The gradients of `a b` (each operand a matrix, or a vector read as a
    /// row on the left and a column on the right) for the incoming gradient
    /// `g`: `g bᵀ` for `a` and `aᵀ g` for `b`, each reshaped back to its
    /// operand's shape.
    pub fn grad<T: Numeric>(
        &self,
        a: &TensorStorage<T>,
        b: &TensorStorage<T>,
        in_grad: &TensorStorage<T>,
    ) -> (r: (TensorStorage<T>, TensorStorage<T>))
        requires
            a.wf(),
            b.wf(),
            in_grad.wf(),
            a.shape@.len() == 1 || a.shape@.len() == 2,
            b.shape@.len() == 1 || b.shape@.len() == 2,
            a.shape@.last() == b.shape@[0],
            in_grad.shape@ == matmul_shape(a.shape@, b.shape@),
        ensures
            r.0.wf(),
            r.1.wf(),
            r.0.shape@ == a.shape@,
            r.1.shape@ == b.shape@,
            forall|idx: Seq<usize>|
                valid_index(a.shape@, idx) ==> #[trigger] r.0.value_at(idx) == sum_products(
                    Seq::new(
                        view_cols(b.shape@),
                        |t: int|
                            grad_view(
                                *in_grad,
                                a.shape@.len(),
                                b.shape@.len(),
                                row_pos(a.shape@, idx).0,
                                t as usize,
                            ),
                    ),
                    Seq::new(view_cols(b.shape@), |t: int| mat_view(*b, false, row_pos(a.shape@, idx).1, t as usize)),
                    view_cols(b.shape@),
                ),
            forall|idx: Seq<usize>|
                valid_index(b.shape@, idx) ==> #[trigger] r.1.value_at(idx) == sum_products(
                    Seq::new(view_rows(a.shape@), |t: int| mat_view(*a, true, t as usize, col_pos(b.shape@, idx).0)),
                    Seq::new(
                        view_rows(a.shape@),
                        |t: int|
                            grad_view(
                                *in_grad,
                                a.shape@.len(),
                                b.shape@.len(),
                                t as usize,
                                col_pos(b.shape@, idx).1,
                            ),
                    ),
                    view_rows(a.shape@),
                ),
    {
        let an = a.shape.len();
        let bn = b.shape.len();
        let a2 = as_matrix(a, true);
        let b2 = as_matrix(b, false);
        let g2 = if an == 1 && bn == 1 {
            let g1 = TensorStorage::unsqueeze(in_grad, 0);
            TensorStorage::unsqueeze(&g1, 1)
        } else if an == 1 {
            TensorStorage::unsqueeze(in_grad, 0)
        } else if bn == 1 {
            TensorStorage::unsqueeze(in_grad, 1)
        } else {
            TensorStorage::copy_s(in_grad)
        };
        proof {
            assert(g2.shape@ =~= seq![a2.shape@[0], b2.shape@[1]]);
            assert forall|i: usize, j: usize| i < g2.shape@[0] && j < g2.shape@[1] implies #[trigger] mat_at(g2, i, j)
                == grad_view(*in_grad, an as nat, bn as nat, i, j) by {
                let c = seq![i, j];
                assert(valid_index(g2.shape@, c));
                if an == 1 && bn == 1 {
                    assert(c.remove(1) =~= seq![i]);
                    assert(seq![i].remove(0) =~= Seq::<usize>::empty());
                } else if an == 1 {
                    assert(c.remove(0) =~= seq![j]);
                } else if bn == 1 {
                    assert(c.remove(1) =~= seq![i]);
                }
            }
            crate::storage::layout::lemma_numel_positive(a.shape@);
            crate::storage::layout::lemma_numel_positive(b.shape@);
            if an == 2 {
                assert(numel_of(a.shape@) == a.shape@[0] * a.shape@[1]) by {
                    crate::storage::layout::lemma_numel_split(a.shape@, 1);
                    assert(a.shape@.subrange(0, 1) =~= seq![a.shape@[0]]);
                    assert(a.shape@.subrange(1, 2) =~= seq![a.shape@[1]]);
                    crate::storage::layout::lemma_numel_single(a.shape@[0]);
                    crate::storage::layout::lemma_numel_single(a.shape@[1]);
                }
            } else {
                crate::storage::layout::lemma_numel_single(a.shape@[0]);
                assert(a.shape@ =~= seq![a.shape@[0]]);
            }
            if bn == 2 {
                assert(numel_of(b.shape@) == b.shape@[0] * b.shape@[1]) by {
                    crate::storage::layout::lemma_numel_split(b.shape@, 1);
                    assert(b.shape@.subrange(0, 1) =~= seq![b.shape@[0]]);
                    assert(b.shape@.subrange(1, 2) =~= seq![b.shape@[1]]);
                    crate::storage::layout::lemma_numel_single(b.shape@[0]);
                    crate::storage::layout::lemma_numel_single(b.shape@[1]);
                }
            } else {
                crate::storage::layout::lemma_numel_single(b.shape@[0]);
                assert(b.shape@ =~= seq![b.shape@[0]]);
            }
        }
        let (ga2, gb2) = matmul_grads_2d(&a2, &b2, &g2);
        let ga = if an == 1 {
            TensorStorage::squeeze(&ga2, 0)
        } else {
            TensorStorage::copy_s(&ga2)
        };
        let gb = if bn == 1 {
            TensorStorage::squeeze(&gb2, 1)
        } else {
            TensorStorage::copy_s(&gb2)
        };
        proof {
            assert(ga.shape@ =~= a.shape@);
            assert(gb.shape@ =~= b.shape@);
            let n = view_cols(b.shape@);
            let m = view_rows(a.shape@);
            assert forall|idx: Seq<usize>| valid_index(a.shape@, idx) implies #[trigger] ga.value_at(idx) == sum_products(
                Seq::new(n, |t: int| grad_view(*in_grad, a.shape@.len(), b.shape@.len(), row_pos(a.shape@, idx).0, t as usize)),
                Seq::new(n, |t: int| mat_view(*b, false, row_pos(a.shape@, idx).1, t as usize)),
                n,
            ) by {
                let (i, k) = row_pos(a.shape@, idx);
                if an == 1 {
                    assert(idx.insert(0, 0usize) =~= seq![0usize, idx[0]]);
                } else {
                    assert(idx =~= seq![idx[0], idx[1]]);
                }
                assert(ga.value_at(idx) == mat_at(ga2, i, k));
                let x1 = mat_row(g2, i);
                let y1 = mat_row(b2, k);
                let x2 = Seq::new(n, |t: int| grad_view(*in_grad, a.shape@.len(), b.shape@.len(), i, t as usize));
                let y2 = Seq::new(n, |t: int| mat_view(*b, false, k, t as usize));
                assert forall|t: int| 0 <= t < n implies x1[t] == x2[t] && y1[t] == y2[t] by {
                    assert(mat_at(g2, i, t as usize) == x2[t]);
                    assert(mat_at(b2, k, t as usize) == y2[t]);
                }
                assert(x1 =~= x2);
                assert(y1 =~= y2);
            }
            assert forall|idx: Seq<usize>| valid_index(b.shape@, idx) implies #[trigger] gb.value_at(idx) == sum_products(
                Seq::new(m, |t: int| mat_view(*a, true, t as usize, col_pos(b.shape@, idx).0)),
                Seq::new(m, |t: int| grad_view(*in_grad, a.shape@.len(), b.shape@.len(), t as usize, col_pos(b.shape@, idx).1)),
                m,
            ) by {
                let (k, j) = col_pos(b.shape@, idx);
                if bn == 1 {
                    assert(idx.insert(1, 0usize) =~= seq![idx[0], 0usize]);
                } else {
                    assert(idx =~= seq![idx[0], idx[1]]);
                }
                assert(gb.value_at(idx) == mat_at(gb2, k, j));
                let x1 = mat_col(a2, k);
                let y1 = mat_col(g2, j);
                let x2 = Seq::new(m, |t: int| mat_view(*a, true, t as usize, k));
                let y2 = Seq::new(m, |t: int| grad_view(*in_grad, a.shape@.len(), b.shape@.len(), t as usize, j));
                assert forall|t: int| 0 <= t < m implies x1[t] == x2[t] && y1[t] == y2[t] by {
                    assert(mat_at(a2, t as usize, k) == x2[t]);
                    assert(mat_at(g2, t as usize, j) == y2[t]);
                }
                assert(x1 =~= x2);
                assert(y1 =~= y2);
            }
        }
        (ga, gb)
    }
}

impl Conv2dOp {
    /// The gradients of a convolution with respect to its input and weight.
    pub fn grad<T: Numeric>(
        &self,
        input: &TensorStorage<T>,
        weight: &TensorStorage<T>,
        in_grad: &TensorStorage<T>,
    ) -> (r: Conv2dBackward<T>)
        requires
            in_grad.wf(),
            input.wf(),
            weight.wf(),
            conv_fits(input.shape@, weight.shape@, self.stride, self.padding, self.dilation),
            in_grad.shape@ == conv_out_shape(
                input.shape@,
                weight.shape@,
                self.stride,
                self.padding,
                self.dilation,
            ),
        ensures
            fresh_layout(r.grad_input, input.shape@),
            fresh_layout(r.grad_weight, weight.shape@),
            forall|e: int|
                0 <= e < r.grad_input.numel ==> #[trigger] r.grad_input.elems()[e] == grad_input_value(
                    *in_grad,
                    *weight,
                    self.stride,
                    self.padding,
                    self.dilation,
                    unravel(input.shape@, e as nat),
                ),
            forall|e: int|
                0 <= e < r.grad_weight.numel ==> #[trigger] r.grad_weight.elems()[e] == sum_products(
                    grad_weight_inputs(
                        *input,
                        self.stride,
                        self.padding,
                        self.dilation,
                        in_grad.shape@,
                        unravel(weight.shape@, e as nat),
                    ),
                    grad_weight_grads(*in_grad, in_grad.shape@, unravel(weight.shape@, e as nat)),
                    numel_of(conv_positions(in_grad.shape@)),
                ),
    {
        TensorStorage::conv2d_backward(in_grad, input, weight, self.stride, self.padding, self.dilation)
    }
}

/// `1` where `m` holds, `0` elsewhere.
fn mask_value<T: Numeric>(m: bool) -> (r: T)
    ensures
        r == (if m {
            T::spec_one()
        } else {
            T::spec_zero()
        }),
{
    if m {
        T::one()
    } else {
        T::zero()
    }
}

/// `idx` with the coordinates along `dims` set to 0.
pub open spec fn zero_dims(idx: Seq<usize>, dims: Seq<usize>) -> Seq<usize> {
    Seq::new(idx.len(), |p: int| if dims.contains(p as usize) { 0usize } else { idx[p] })
}

/// `shape` with the sizes along `dims` set to 1.
pub open spec fn unit_dims(shape: Seq<usize>, dims: Seq<usize>) -> Seq<usize> {
    Seq::new(shape.len(), |p: int| if dims.contains(p as usize) { 1usize } else { shape[p] })
}

/// Shape of the output of a reduction over `dims`: the reduced sizes set to
/// 1 (`keepdim`) or removed.
pub open spec fn reduced_grad_shape(shape: Seq<usize>, dims: Seq<usize>, keepdim: bool) -> Seq<usize> {
    if keepdim {
        unit_dims(shape, dims)
    } else {
        kept_shape(shape, dims)
    }
}

/// The output coordinate that input coordinate `idx` reduces into.
pub open spec fn reduced_coord(idx: Seq<usize>, dims: Seq<usize>, keepdim: bool) -> Seq<usize> {
    if keepdim {
        zero_dims(idx, dims)
    } else {
        kept_shape(idx, dims)
    }
}

/// The sizes of `shape`, except 1 along the dimensions `dims[t..]`.
spec fn unit_from(shape: Seq<usize>, dims: Seq<usize>, t: int) -> Seq<usize> {
    Seq::new(shape.len(), |p: int| if dims.skip(t).contains(p as usize) { 1usize } else { shape[p] })
}

/// In an increasing list, `dims[t]` is listed from `t` on but not after.
proof fn lemma_skip_contains(dims: Seq<usize>, t: int, p: usize)
    requires
        strictly_increasing(dims),
        0 <= t < dims.len(),
    ensures
        dims.skip(t).contains(p) <==> (p == dims[t] || dims.skip(t + 1).contains(p)),
        !dims.skip(t + 1).contains(dims[t]),
{
    let s0 = dims.skip(t);
    let s1 = dims.skip(t + 1);
    if s0.contains(p) {
        let j = choose|j: int| 0 <= j < s0.len() && #[trigger] s0[j] == p;
        if j > 0 {
            assert(s1[j - 1] == p);
        }
    }
    if s1.contains(p) {
        let j = choose|j: int| 0 <= j < s1.len() && #[trigger] s1[j] == p;
        assert(s0[j + 1] == p);
    }
    assert(s0[0] == dims[t]);
    if s1.contains(dims[t]) {
        let j = choose|j: int| 0 <= j < s1.len() && #[trigger] s1[j] == dims[t];
        assert(dims[t + 1 + j] == dims[t]);
    }
}

/// Replicate a reduction's gradient over the reduced dimensions with
/// stride-0 views: every input coordinate reads the gradient of the output
/// coordinate it was reduced into.
fn spread<T: Dtype>(g: &TensorStorage<T>, shape: &[usize], dims: &[usize], keepdim: bool) -> (r: TensorStorage<T>)
    requires
        g.wf(),
        strictly_increasing(dims@),
        dims_in_range(dims@, shape@.len()),
        dims_positive(shape@),
        numel_of(shape@) <= usize::MAX,
        g.shape@ == reduced_grad_shape(shape@, dims@, keepdim),
    ensures
        r.wf(),
        r.shares_buffer(g),
        r.shape@ == shape@,
        forall|idx: Seq<usize>|
            valid_index(shape@, idx) ==> #[trigger] r.value_at(idx) == g.value_at(
                reduced_coord(idx, dims@, keepdim),
            ),
{
    let ghost sh = shape@;
    let ghost ds = dims@;
    let rank = shape.len();
    let mut out = TensorStorage::copy_s(g);
    let mut t: usize = 0;
    if keepdim {
        proof {
            assert(ds.skip(0) =~= ds);
            assert(unit_from(sh, ds, 0) =~= unit_dims(sh, ds));
            assert forall|c: Seq<usize>| valid_index(out.shape@, c) implies #[trigger] out.value_at(c)
                == g.value_at(zero_dims(c, ds)) by {
                assert(zero_dims(c, ds) =~= c);
            }
        }
        while t < dims.len()
            invariant
                g.wf(),
                sh == shape@,
                sh.len() == rank,
                ds == dims@,
                strictly_increasing(ds),
                dims_in_range(ds, sh.len()),
                dims_positive(sh),
                numel_of(sh) <= usize::MAX,
                t <= ds.len(),
                out.wf(),
                out.shares_buffer(g),
                out.shape@ == unit_from(sh, ds, t as int),
                forall|c: Seq<usize>|
                    valid_index(out.shape@, c) ==> #[trigger] out.value_at(c) == g.value_at(zero_dims(c, ds)),
            decreases ds.len() - t,
        {
            let d = dims[t];
            proof {
                assert(ds[t as int] < sh.len());
                lemma_skip_contains(ds, t as int, d);
                let nxt = unit_from(sh, ds, t + 1);
                assert(out.shape@.update(d as int, sh[d as int]) =~= nxt) by {
                    assert forall|p: int| 0 <= p < sh.len() implies #[trigger] nxt[p] == out.shape@.update(
                        d as int,
                        sh[d as int],
                    )[p] by {
                        lemma_skip_contains(ds, t as int, p as usize);
                    }
                }
                lemma_numel_update(out.shape@, d as int, sh[d as int]);
                assert forall|p: int| 0 <= p < sh.len() implies #[trigger] nxt[p] <= sh[p] by {}
                lemma_numel_mono(nxt, sh);
            }
            let nout = TensorStorage::expand(&out, d, shape[d]);
            proof {
                assert forall|c: Seq<usize>| valid_index(nout.shape@, c) implies #[trigger] nout.value_at(c)
                    == g.value_at(zero_dims(c, ds)) by {
                    let c0 = c.update(d as int, 0usize);
                    assert(valid_index(out.shape@, c0)) by {
                        assert forall|p: int| 0 <= p < out.shape@.len() implies #[trigger] c0[p] < out.shape@[p] by {
                            lemma_skip_contains(ds, t as int, p as usize);
                        }
                    }
                    assert(zero_dims(c0, ds) =~= zero_dims(c, ds)) by {
                        assert(ds.contains(d)) by {
                            assert(ds[t as int] == d);
                        }
                    }
                }
            }
            out = nout;
            t += 1;
        }
        proof {
            assert(ds.skip(ds.len() as int) =~= Seq::<usize>::empty());
            assert(unit_from(sh, ds, ds.len() as int) =~= sh);
        }
    } else {
        proof {
            assert(ds.skip(0) =~= ds);
        }
        while t < dims.len()
            invariant
                g.wf(),
                sh == shape@,
                sh.len() == rank,
                ds == dims@,
                strictly_increasing(ds),
                dims_in_range(ds, sh.len()),
                dims_positive(sh),
                numel_of(sh) <= usize::MAX,
                t <= ds.len(),
                out.wf(),
                out.shares_buffer(g),
                out.shape@ == kept_shape(sh, ds.skip(t as int)),
                forall|idx: Seq<usize>|
                    valid_index(sh, idx) ==> #[trigger] out.value_at(kept_shape(idx, ds.skip(t as int)))
                        == g.value_at(kept_shape(idx, ds)),
            decreases ds.len() - t,
        {
            let d = dims[t];
            let ghost dd = ds.skip(t as int);
            let ghost dp = ds.skip(t + 1);
            proof {
                assert(ds[t as int] < sh.len());
                assert(dd =~= seq![d] + dp);
                assert forall|j: int| 0 <= j < dp.len() implies #[trigger] dp[j] > d by {
                    assert(dp[j] == ds[t + 1 + j]);
                }
                lemma_kept_insert(sh, dp, d);
            }
            let u = TensorStorage::unsqueeze(&out, d);
            proof {
                assert(u.shape@.update(d as int, sh[d as int]) =~= kept_shape(sh, dp));
                lemma_numel_update(u.shape@, d as int, sh[d as int]);
                lemma_part_numel(sh, dp, sh.len(), true);
                assert(sh.take(sh.len() as int) =~= sh);
            }
            let nout = TensorStorage::expand(&u, d, shape[d]);
            proof {
                assert forall|idx: Seq<usize>| valid_index(sh, idx) implies #[trigger] nout.value_at(
                    kept_shape(idx, dp),
                ) == g.value_at(kept_shape(idx, ds)) by {
                    let c = kept_shape(idx, dp);
                    lemma_kept_insert(idx, dp, d);
                    lemma_kept_valid(sh, idx, dp, sh.len());
                    assert(valid_index(nout.shape@, c));
                    let c0 = c.update(d as int, 0usize);
                    lemma_dot_insert_zero(out.strides@, c0, d as int);
                    assert(c0.remove(d as int) =~= kept_shape(idx, dd));
                    assert(u.value_at(c0) == out.value_at(kept_shape(idx, dd)));
                }
            }
            out = nout;
            t += 1;
        }
        proof {
            assert(ds.skip(ds.len() as int) =~= Seq::<usize>::empty());
            lemma_kept_none(sh);
            assert forall|idx: Seq<usize>| valid_index(sh, idx) implies #[trigger] out.value_at(idx) == g.value_at(
                reduced_coord(idx, ds, keepdim),
            ) by {
                lemma_kept_none(idx);
            }
        }
    }
    out
}

impl SumOp {
    /// The gradient of a sum over `dims` (increasing, as recorded): every
    /// input element receives the incoming gradient of the output element it
    /// was summed into, through a stride-0 view of the incoming gradient.
    pub fn grad<T: Dtype>(&self, input_shape: &[usize], in_grad: &TensorStorage<T>) -> (r: TensorStorage<T>)
        requires
            in_grad.wf(),
            strictly_increasing(self.dims@),
            dims_in_range(self.dims@, input_shape@.len()),
            dims_positive(input_shape@),
            numel_of(input_shape@) <= usize::MAX,
            in_grad.shape@ == reduced_grad_shape(input_shape@, self.dims@, self.keepdim),
        ensures
            r.wf(),
            r.shares_buffer(in_grad),
            r.shape@ == input_shape@,
            forall|idx: Seq<usize>|
                valid_index(input_shape@, idx) ==> #[trigger] r.value_at(idx) == in_grad.value_at(
                    reduced_coord(idx, self.dims@, self.keepdim),
                ),
    {
        spread(in_grad, input_shape, self.dims.as_slice(), self.keepdim)
    }
}

impl MaxOp {
    /// The gradient of a maximum over `dims` (increasing, and non-empty
    /// unless the input is a scalar, as recorded): each input element
    /// receives the incoming gradient of the output element it was reduced
    /// into where it reaches the maximum of its slice (every tied maximum
    /// does), and zero elsewhere.
    pub fn grad<T: Numeric>(&self, input: &TensorStorage<T>, in_grad: &TensorStorage<T>) -> (r: TensorStorage<T>)
        requires
            input.wf(),
            in_grad.wf(),
            strictly_increasing(self.dims@),
            dims_in_range(self.dims@, input.shape@.len()),
            self.dims@.len() > 0 || input.shape@.len() == 0,
            in_grad.shape@ == reduced_grad_shape(input.shape@, self.dims@, self.keepdim),
        ensures
            fresh_layout(r, input.shape@),
            forall|idx: Seq<usize>|
                valid_index(input.shape@, idx) ==> #[trigger] r.value_at(idx) == T::spec_mul(
                    in_grad.value_at(reduced_coord(idx, self.dims@, self.keepdim)),
                    if T::spec_ge(
                        input.value_at(idx),
                        fold_max(slice_values(*input, self.dims@, kept_shape(idx, self.dims@))),
                    ) {
                        T::spec_one()
                    } else {
                        T::spec_zero()
                    },
                ),
    {
        let ghost ds = self.dims@;
        let ghost sh = input.shape@;
        proof {
            if ds.len() > 0 {
                assert(same_dims(ds, ds));
                lemma_sorted_unique(sorted_dims(ds), ds);
            } else {
                assert(all_dims(0) =~= ds);
            }
            assert(resolved_dims(ds, sh.len()) == ds);
        }
        let maxv = TensorStorage::max(input, self.dims.as_slice());
        let max_b = spread(&maxv, input.shape.as_slice(), self.dims.as_slice(), false);
        let mask = TensorStorage::gte(&[input, &max_b]);
        let mask_num: TensorStorage<T> = TensorStorage::apply_unary(&mask, mask_value::<T>);
        let grad_b = spread(in_grad, input.shape.as_slice(), self.dims.as_slice(), self.keepdim);
        let r = TensorStorage::mul(&[&grad_b, &mask_num]);
        proof {
            assert forall|idx: Seq<usize>| valid_index(sh, idx) implies #[trigger] r.value_at(idx) == T::spec_mul(
                in_grad.value_at(reduced_coord(idx, ds, self.keepdim)),
                if T::spec_ge(input.value_at(idx), fold_max(slice_values(*input, ds, kept_shape(idx, ds)))) {
                    T::spec_one()
                } else {
                    T::spec_zero()
                },
            ) by {
                r.lemma_value_at_ravel(idx);
                grad_b.lemma_value_at_ravel(idx);
                mask_num.lemma_value_at_ravel(idx);
                mask.lemma_value_at_ravel(idx);
                input.lemma_value_at_ravel(idx);
                max_b.lemma_value_at_ravel(idx);
                lemma_kept_valid(sh, idx, ds, sh.len());
                let i = crate::storage::layout::ravel(sh, idx) as int;
                assert(max_b.value_at(idx) == maxv.value_at(kept_shape(idx, ds)));
                assert(mask.elems()[i] == T::spec_ge(input.elems()[i], max_b.elems()[i]));
            }
        }
        r
    }
}

/// `in_grad` times `x` broadcast to the gradient's shape, folded onto an
/// operand of shape `target`.
fn fold_product<T: Numeric>(
    in_grad: &TensorStorage<T>,
    x: &TensorStorage<T>,
    target: &[usize],
    retain_graph: bool,
) -> (r: TensorStorage<T>)
    requires
        in_grad.wf(),
        x.wf(),
        broadcasts_to(x.shape@, in_grad.shape@),
        broadcasts_to(target@, in_grad.shape@),
    ensures
        r.wf(),
        r.shape@ == target@,
        forall|c: Seq<usize>|
            valid_index(target@, c) ==> #[trigger] r.value_at(c) == folded(
                |y: Seq<usize>| T::spec_mul(in_grad.value_at(y), x.value_at(broadcast_source(x.shape@, y))),
                in_grad.shape@,
                target@,
                c,
            ),
{
    let xb = TensorStorage::broadcast_to_shape(x, in_grad.shape.as_slice());
    let p = TensorStorage::mul(&[in_grad, &xb]);
    let r = reduce_grad_to_shape(&p, target, retain_graph);
    proof {
        let f1 = |y: Seq<usize>| p.value_at(y);
        let f2 = |y: Seq<usize>| T::spec_mul(in_grad.value_at(y), x.value_at(broadcast_source(x.shape@, y)));
        assert forall|y: Seq<usize>| valid_index(in_grad.shape@, y) implies #[trigger] f1(y) == f2(y) by {
            p.lemma_value_at_ravel(y);
            in_grad.lemma_value_at_ravel(y);
            xb.lemma_value_at_ravel(y);
        }
        assert forall|c: Seq<usize>| valid_index(target@, c) implies #[trigger] r.value_at(c) == folded(
            f2,
            in_grad.shape@,
            target@,
            c,
        ) by {
            lemma_folded_agree(f1, f2, in_grad.shape@, target@, c);
        }
    }
    r
}

/// `in_grad` masked by `mask` (1 where it holds, 0 elsewhere), folded onto
/// an operand of shape `target`.
fn fold_masked<T: Numeric>(
    in_grad: &TensorStorage<T>,
    mask: &TensorStorage<bool>,
    target: &[usize],
    retain_graph: bool,
) -> (r: TensorStorage<T>)
    requires
        in_grad.wf(),
        mask.wf(),
        mask.shape@ == in_grad.shape@,
        broadcasts_to(target@, in_grad.shape@),
    ensures
        r.wf(),
        r.shape@ == target@,
        forall|c: Seq<usize>|
            valid_index(target@, c) ==> #[trigger] r.value_at(c) == folded(
                |y: Seq<usize>|
                    T::spec_mul(
                        in_grad.value_at(y),
                        if mask.value_at(y) {
                            T::spec_one()
                        } else {
                            T::spec_zero()
                        },
                    ),
                in_grad.shape@,
                target@,
                c,
            ),
{
    let m: TensorStorage<T> = TensorStorage::apply_unary(mask, mask_value::<T>);
    let p = TensorStorage::mul(&[in_grad, &m]);
    let r = reduce_grad_to_shape(&p, target, retain_graph);
    proof {
        let f1 = |y: Seq<usize>| p.value_at(y);
        let f2 = |y: Seq<usize>|
            T::spec_mul(
                in_grad.value_at(y),
                if mask.value_at(y) {
                    T::spec_one()
                } else {
                    T::spec_zero()
                },
            );
        assert forall|y: Seq<usize>| valid_index(in_grad.shape@, y) implies #[trigger] f1(y) == f2(y) by {
            p.lemma_value_at_ravel(y);
            in_grad.lemma_value_at_ravel(y);
            m.lemma_value_at_ravel(y);
            mask.lemma_value_at_ravel(y);
        }
        assert forall|c: Seq<usize>| valid_index(target@, c) implies #[trigger] r.value_at(c) == folded(
            f2,
            in_grad.shape@,
            target@,
            c,
        ) by {
            lemma_folded_agree(f1, f2, in_grad.shape@, target@, c);
        }
    }
    r
}

impl AddOp {
    /// The gradients of `a + b` (operands broadcast to the gradient's
    /// shape): the incoming gradient folded onto each operand's shape.
    pub fn grad<T: Numeric>(
        &self,
        a_shape: &[usize],
        b_shape: &[usize],
        in_grad: &TensorStorage<T>,
        retain_graph: bool,
    ) -> (r: (TensorStorage<T>, TensorStorage<T>))
        requires
            in_grad.wf(),
            broadcasts_to(a_shape@, in_grad.shape@),
            broadcasts_to(b_shape@, in_grad.shape@),
        ensures
            r.0.wf(),
            r.1.wf(),
            r.0.shape@ == a_shape@,
            r.1.shape@ == b_shape@,
            forall|c: Seq<usize>|
                valid_index(a_shape@, c) ==> #[trigger] r.0.value_at(c) == folded_grad(*in_grad, a_shape@, c),
            forall|c: Seq<usize>|
                valid_index(b_shape@, c) ==> #[trigger] r.1.value_at(c) == folded_grad(*in_grad, b_shape@, c),
    {
        (reduce_grad_to_shape(in_grad, a_shape, retain_graph), reduce_grad_to_shape(in_grad, b_shape, retain_graph))
    }
}

impl SubOp {
    /// The gradients of `a - b` (operands broadcast to the gradient's
    /// shape): the incoming gradient folded onto `a`'s shape, and its
    /// negation folded onto `b`'s.
    pub fn grad<T: Signed>(
        &self,
        a_shape: &[usize],
        b_shape: &[usize],
        in_grad: &TensorStorage<T>,
        retain_graph: bool,
    ) -> (r: (TensorStorage<T>, TensorStorage<T>))
        requires
            in_grad.wf(),
            broadcasts_to(a_shape@, in_grad.shape@),
            broadcasts_to(b_shape@, in_grad.shape@),
        ensures
            r.0.wf(),
            r.0.shape@ == a_shape@,
            fresh_layout(r.1, b_shape@),
            forall|c: Seq<usize>|
                valid_index(a_shape@, c) ==> #[trigger] r.0.value_at(c) == folded_grad(*in_grad, a_shape@, c),
            forall|c: Seq<usize>|
                valid_index(b_shape@, c) ==> #[trigger] r.1.value_at(c) == T::spec_neg(
                    folded_grad(*in_grad, b_shape@, c),
                ),
    {
        let ga = reduce_grad_to_shape(in_grad, a_shape, retain_graph);
        let fb = reduce_grad_to_shape(in_grad, b_shape, retain_graph);
        let gb = TensorStorage::neg(&[&fb]);
        proof {
            assert forall|c: Seq<usize>| valid_index(b_shape@, c) implies #[trigger] gb.value_at(c) == T::spec_neg(
                folded_grad(*in_grad, b_shape@, c),
            ) by {
                gb.lemma_value_at_ravel(c);
                fb.lemma_value_at_ravel(c);
            }
        }
        (ga, gb)
    }
}

impl MulOp {
    /// The gradients of `a * b` (operands broadcast to the gradient's
    /// shape): `g * b` folded onto `a`'s shape and `g * a` onto `b`'s.
    pub fn grad<T: Numeric>(
        &self,
        a: &TensorStorage<T>,
        b: &TensorStorage<T>,
        in_grad: &TensorStorage<T>,
        retain_graph: bool,
    ) -> (r: (TensorStorage<T>, TensorStorage<T>))
        requires
            a.wf(),
            b.wf(),
            in_grad.wf(),
            broadcasts_to(a.shape@, in_grad.shape@),
            broadcasts_to(b.shape@, in_grad.shape@),
        ensures
            r.0.wf(),
            r.1.wf(),
            r.0.shape@ == a.shape@,
            r.1.shape@ == b.shape@,
            forall|c: Seq<usize>|
                valid_index(a.shape@, c) ==> #[trigger] r.0.value_at(c) == folded(
                    |y: Seq<usize>| T::spec_mul(in_grad.value_at(y), b.value_at(broadcast_source(b.shape@, y))),
                    in_grad.shape@,
                    a.shape@,
                    c,
                ),
            forall|c: Seq<usize>|
                valid_index(b.shape@, c) ==> #[trigger] r.1.value_at(c) == folded(
                    |y: Seq<usize>| T::spec_mul(in_grad.value_at(y), a.value_at(broadcast_source(a.shape@, y))),
                    in_grad.shape@,
                    b.shape@,
                    c,
                ),
    {
        let ga = fold_product(in_grad, b, a.shape.as_slice(), retain_graph);
        let gb = fold_product(in_grad, a, b.shape.as_slice(), retain_graph);
        (ga, gb)
    }
}

impl MaximumOp {
    /// The gradients of `maximum(a, b)` (operands broadcast to the
    /// gradient's shape): the incoming gradient where `a >= b`, folded onto
    /// `a`'s shape, and where `a < b`, folded onto `b`'s.
    pub fn grad<T: Numeric>(
        &self,
        a: &TensorStorage<T>,
        b: &TensorStorage<T>,
        in_grad: &TensorStorage<T>,
        retain_graph: bool,
    ) -> (r: (TensorStorage<T>, TensorStorage<T>))
        requires
            a.wf(),
            b.wf(),
            in_grad.wf(),
            broadcasts_to(a.shape@, in_grad.shape@),
            broadcasts_to(b.shape@, in_grad.shape@),
        ensures
            r.0.wf(),
            r.1.wf(),
            r.0.shape@ == a.shape@,
            r.1.shape@ == b.shape@,
            forall|c: Seq<usize>|
                valid_index(a.shape@, c) ==> #[trigger] r.0.value_at(c) == folded(
                    |y: Seq<usize>|
                        T::spec_mul(
                            in_grad.value_at(y),
                            if T::spec_ge(
                                a.value_at(broadcast_source(a.shape@, y)),
                                b.value_at(broadcast_source(b.shape@, y)),
                            ) {
                                T::spec_one()
                            } else {
                                T::spec_zero()
                            },
                        ),
                    in_grad.shape@,
                    a.shape@,
                    c,
                ),
            forall|c: Seq<usize>|
                valid_index(b.shape@, c) ==> #[trigger] r.1.value_at(c) == folded(
                    |y: Seq<usize>|
                        T::spec_mul(
                            in_grad.value_at(y),
                            if T::spec_gt(
                                b.value_at(broadcast_source(b.shape@, y)),
                                a.value_at(broadcast_source(a.shape@, y)),
                            ) {
                                T::spec_one()
                            } else {
                                T::spec_zero()
                            },
                        ),
                    in_grad.shape@,
                    b.shape@,
                    c,
                ),
    {
        let ab = TensorStorage::broadcast_to_shape(a, in_grad.shape.as_slice());
        let bb = TensorStorage::broadcast_to_shape(b, in_grad.shape.as_slice());
        let ge = TensorStorage::gte(&[&ab, &bb]);
        let lt = TensorStorage::lt(&[&ab, &bb]);
        let ga = fold_masked(in_grad, &ge, a.shape.as_slice(), retain_graph);
        let gb = fold_masked(in_grad, &lt, b.shape.as_slice(), retain_graph);
        proof {
            let m1 = |y: Seq<usize>|
                T::spec_mul(
                    in_grad.value_at(y),
                    if ge.value_at(y) {
                        T::spec_one()
                    } else {
                        T::spec_zero()
                    },
                );
            let w1 = |y: Seq<usize>|
                T::spec_mul(
                    in_grad.value_at(y),
                    if T::spec_ge(a.value_at(broadcast_source(a.shape@, y)), b.value_at(broadcast_source(b.shape@, y))) {
                        T::spec_one()
                    } else {
                        T::spec_zero()
                    },
                );
            let m2 = |y: Seq<usize>|
                T::spec_mul(
                    in_grad.value_at(y),
                    if lt.value_at(y) {
                        T::spec_one()
                    } else {
                        T::spec_zero()
                    },
                );
            let w2 = |y: Seq<usize>|
                T::spec_mul(
                    in_grad.value_at(y),
                    if T::spec_gt(b.value_at(broadcast_source(b.shape@, y)), a.value_at(broadcast_source(a.shape@, y))) {
                        T::spec_one()
                    } else {
                        T::spec_zero()
                    },
                );
            assert forall|y: Seq<usize>| valid_index(in_grad.shape@, y) implies #[trigger] m1(y) == w1(y) by {
                ge.lemma_value_at_ravel(y);
                ab.lemma_value_at_ravel(y);
                bb.lemma_value_at_ravel(y);
            }
            assert forall|y: Seq<usize>| valid_index(in_grad.shape@, y) implies #[trigger] m2(y) == w2(y) by {
                lt.lemma_value_at_ravel(y);
                ab.lemma_value_at_ravel(y);
                bb.lemma_value_at_ravel(y);
            }
            assert forall|c: Seq<usize>| valid_index(a.shape@, c) implies #[trigger] ga.value_at(c) == folded(
                w1,
                in_grad.shape@,
                a.shape@,
                c,
            ) by {
                lemma_folded_agree(m1, w1, in_grad.shape@, a.shape@, c);
            }
            assert forall|c: Seq<usize>| valid_index(b.shape@, c) implies #[trigger] gb.value_at(c) == folded(
                w2,
                in_grad.shape@,
                b.shape@,
                c,
            ) by {
                lemma_folded_agree(m2, w2, in_grad.shape@, b.shape@, c);
            }
        }
        (ga, gb)
    }
}

impl BroadcastOp {
    /// The gradient of a broadcast from `old_shape`: the incoming gradient
    /// folded back onto `old_shape`.
    pub fn grad<T: Numeric>(&self, in_grad: &TensorStorage<T>, retain_graph: bool) -> (r: TensorStorage<T>)
        requires
            in_grad.wf(),
            broadcasts_to(self.old_shape@, in_grad.shape@),
        ensures
            r.wf(),
            r.shape@ == self.old_shape@,
            forall|c: Seq<usize>|
                valid_index(self.old_shape@, c) ==> #[trigger] r.value_at(c) == folded_grad(
                    *in_grad,
                    self.old_shape@,
                    c,
                ),
    {
        reduce_grad_to_shape(in_grad, self.old_shape.as_slice(), retain_graph)
    }
}

impl ExpandOp {
    /// The gradient of expanding axis `dim`: the incoming gradient summed
    /// along that axis, kept as a size-1 axis.
    pub fn grad<T: Numeric>(&self, in_grad: &TensorStorage<T>) -> (r: TensorStorage<T>)
        requires
            in_grad.wf(),
            self.dim < in_grad.shape@.len(),
        ensures
            r.wf(),
            r.shape@ == in_grad.shape@.update(self.dim as int, 1usize),
            forall|c: Seq<usize>|
                valid_index(r.shape@, c) ==> #[trigger] r.value_at(c) == (axis_sum(
                    |x: Seq<usize>| in_grad.value_at(x),
                    in_grad.shape@[self.dim as int] as nat,
                    self.dim as int,
                ))(c),
    {
        sum_keepdim(in_grad, self.dim)
    }
}

/// `1` where `x > 0`, `0` elsewhere.
fn positive_mask<T: Signed>(x: T) -> (r: T)
    ensures
        r == (if T::spec_gt(x, T::spec_zero()) {
            T::spec_one()
        } else {
            T::spec_zero()
        }),
{
    if x.greater(T::zero()) {
        T::one()
    } else {
        T::zero()
    }
}

/// `1` where `x < 0`, `0` elsewhere.
fn negative_mask<T: Signed>(x: T) -> (r: T)
    ensures
        r == (if T::spec_gt(T::spec_zero(), x) {
            T::spec_one()
        } else {
            T::spec_zero()
        }),
{
    if T::zero().greater(x) {
        T::one()
    } else {
        T::zero()
    }
}

impl AbsOp {
    /// The gradient of `|a|`: the incoming gradient times the sign of `a`
    /// (`(a > 0) - (a < 0)`, so 0 where `a` is 0).
    pub fn grad<T: Signed>(&self, a: &TensorStorage<T>, in_grad: &TensorStorage<T>) -> (r: TensorStorage<T>)
        requires
            a.wf(),
            in_grad.wf(),
            in_grad.shape@ == a.shape@,
        ensures
            fresh_layout(r, a.shape@),
            forall|i: int|
                0 <= i < a.numel ==> #[trigger] r.elems()[i] == T::spec_mul(
                    in_grad.elems()[i],
                    T::spec_sub(
                        if T::spec_gt(a.elems()[i], T::spec_zero()) {
                            T::spec_one()
                        } else {
                            T::spec_zero()
                        },
                        if T::spec_gt(T::spec_zero(), a.elems()[i]) {
                            T::spec_one()
                        } else {
                            T::spec_zero()
                        },
                    ),
                ),
    {
        let pos: TensorStorage<T> = TensorStorage::apply_unary(a, positive_mask::<T>);
        let neg: TensorStorage<T> = TensorStorage::apply_unary(a, negative_mask::<T>);
        let sign = TensorStorage::sub(&[&pos, &neg]);
        TensorStorage::mul(&[in_grad, &sign])
    }
}

/// The quotient `g / b` read at coordinate `y` of the gradient's shape.
pub open spec fn quotient_at<T: Numeric>(g: TensorStorage<T>, b: TensorStorage<T>, y: Seq<usize>) -> T {
    T::spec_div(g.value_at(y), b.value_at(broadcast_source(b.shape@, y)))
}

/// The quotient `g / b` at coordinate `y` is defined.
pub open spec fn quotient_defined<T: Numeric>(g: TensorStorage<T>, b: TensorStorage<T>, y: Seq<usize>) -> bool {
    T::div_defined(g.value_at(y), b.value_at(broadcast_source(b.shape@, y)))
}

/// The quotient `-(g * a) / (b * b)` at coordinate `y` is defined.
pub open spec fn divisor_grad_defined<T: Signed>(
    g: TensorStorage<T>,
    a: TensorStorage<T>,
    b: TensorStorage<T>,
    y: Seq<usize>,
) -> bool {
    let bv = b.value_at(broadcast_source(b.shape@, y));
    T::div_defined(T::spec_neg(T::spec_mul(g.value_at(y), a.value_at(broadcast_source(a.shape@, y)))), T::spec_mul(bv, bv))
}

/// `-(g * a) / (b * b)` read at coordinate `y` of the gradient's shape.
pub open spec fn divisor_grad_at<T: Signed>(
    g: TensorStorage<T>,
    a: TensorStorage<T>,
    b: TensorStorage<T>,
    y: Seq<usize>,
) -> T {
    let bv = b.value_at(broadcast_source(b.shape@, y));
    T::spec_div(T::spec_neg(T::spec_mul(g.value_at(y), a.value_at(broadcast_source(a.shape@, y)))), T::spec_mul(bv, bv))
}

impl DivOp {
    /// The gradients of `a / b` (operands broadcast to the gradient's
    /// shape): `g / b` folded onto `a`'s shape and `-(g * a) / (b * b)`
    /// folded onto `b`'s. Every quotient taken must be defined.
    pub fn grad<T: Signed>(
        &self,
        a: &TensorStorage<T>,
        b: &TensorStorage<T>,
        in_grad: &TensorStorage<T>,
        retain_graph: bool,
    ) -> (r: (TensorStorage<T>, TensorStorage<T>))
        requires
            a.wf(),
            b.wf(),
            in_grad.wf(),
            broadcasts_to(a.shape@, in_grad.shape@),
            broadcasts_to(b.shape@, in_grad.shape@),
            forall|y: Seq<usize>|
                valid_index(in_grad.shape@, y) ==> #[trigger] quotient_defined(*in_grad, *b, y),
            forall|y: Seq<usize>|
                valid_index(in_grad.shape@, y) ==> #[trigger] divisor_grad_defined(*in_grad, *a, *b, y),
        ensures
            r.0.wf(),
            r.1.wf(),
            r.0.shape@ == a.shape@,
            r.1.shape@ == b.shape@,
            forall|c: Seq<usize>|
                valid_index(a.shape@, c) ==> #[trigger] r.0.value_at(c) == folded(
                    |y: Seq<usize>| quotient_at(*in_grad, *b, y),
                    in_grad.shape@,
                    a.shape@,
                    c,
                ),
            forall|c: Seq<usize>|
                valid_index(b.shape@, c) ==> #[trigger] r.1.value_at(c) == folded(
                    |y: Seq<usize>| divisor_grad_at(*in_grad, *a, *b, y),
                    in_grad.shape@,
                    b.shape@,
                    c,
                ),
    {
        let gs = in_grad.shape.as_slice();
        let bb = TensorStorage::broadcast_to_shape(b, gs);
        proof {
            assert forall|i: int| 0 <= i < in_grad.numel implies #[trigger] T::div_defined(
                in_grad.elems()[i],
                bb.elems()[i],
            ) by {
                let y = unravel(in_grad.shape@, i as nat);
                in_grad.lemma_elem_at(i as nat);
                crate::storage::layout::lemma_unravel_valid(in_grad.shape@, i as nat);
                bb.lemma_value_at_ravel(y);
                assert(quotient_defined(*in_grad, *b, y));
            }
        }
        let q = TensorStorage::div(&[in_grad, &bb]);
        let ga = reduce_grad_to_shape(&q, a.shape.as_slice(), retain_graph);
        let ab = TensorStorage::broadcast_to_shape(a, gs);
        let prod = TensorStorage::mul(&[in_grad, &ab]);
        let num = TensorStorage::neg(&[&prod]);
        let b2 = TensorStorage::mul(&[b, b]);
        let b2b = TensorStorage::broadcast_to_shape(&b2, gs);
        proof {
            assert forall|i: int| 0 <= i < num.numel implies #[trigger] T::div_defined(num.elems()[i], b2b.elems()[i])
                by {
                let y = unravel(in_grad.shape@, i as nat);
                in_grad.lemma_elem_at(i as nat);
                num.lemma_value_at_ravel(y);
                prod.lemma_value_at_ravel(y);
                ab.lemma_value_at_ravel(y);
                b2b.lemma_value_at_ravel(y);
                crate::storage::layout::lemma_unravel_valid(in_grad.shape@, i as nat);
                let sb = broadcast_source(b.shape@, y);
                crate::storage::ops::broadcast::lemma_broadcast_source_valid(b.shape@, in_grad.shape@, y);
                b2.lemma_value_at_ravel(sb);
                b.lemma_value_at_ravel(sb);
                assert(divisor_grad_defined(*in_grad, *a, *b, y));
            }
        }
        let rhs = TensorStorage::div(&[&num, &b2b]);
        let gb = reduce_grad_to_shape(&rhs, b.shape.as_slice(), retain_graph);
        proof {
            let f1 = |y: Seq<usize>| q.value_at(y);
            let w1 = |y: Seq<usize>| quotient_at(*in_grad, *b, y);
            assert forall|y: Seq<usize>| valid_index(in_grad.shape@, y) implies #[trigger] f1(y) == w1(y) by {
                q.lemma_value_at_ravel(y);
                in_grad.lemma_value_at_ravel(y);
                bb.lemma_value_at_ravel(y);
            }
            assert forall|c: Seq<usize>| valid_index(a.shape@, c) implies #[trigger] ga.value_at(c) == folded(
                w1,
                in_grad.shape@,
                a.shape@,
                c,
            ) by {
                lemma_folded_agree(f1, w1, in_grad.shape@, a.shape@, c);
            }
            let f2 = |y: Seq<usize>| rhs.value_at(y);
            let w2 = |y: Seq<usize>| divisor_grad_at(*in_grad, *a, *b, y);
            assert forall|y: Seq<usize>| valid_index(in_grad.shape@, y) implies #[trigger] f2(y) == w2(y) by {
                rhs.lemma_value_at_ravel(y);
                num.lemma_value_at_ravel(y);
                prod.lemma_value_at_ravel(y);
                in_grad.lemma_value_at_ravel(y);
                ab.lemma_value_at_ravel(y);
                b2b.lemma_value_at_ravel(y);
                let sb = broadcast_source(b.shape@, y);
                crate::storage::ops::broadcast::lemma_broadcast_source_valid(b.shape@, in_grad.shape@, y);
                b2.lemma_value_at_ravel(sb);
                b.lemma_value_at_ravel(sb);
            }
            assert forall|c: Seq<usize>| valid_index(b.shape@, c) implies #[trigger] gb.value_at(c) == folded(
                w2,
                in_grad.shape@,
                b.shape@,
                c,
            ) by {
                lemma_folded_agree(f2, w2, in_grad.shape@, b.shape@, c);
            }
        }
        (ga, gb)
    }
}

} // verus!
