//! Batched 2D cross-correlation (grouped-one convolution) and its gradients.
use crate::dtype::Numeric;
use crate::storage::indexing::unravel_index;
use crate::storage::layout::{
    dims_positive, lemma_numel_positive, lemma_unravel_valid, numel_of, unravel, valid_index,
};
use crate::storage::ops::math::{fresh_layout, sum_products};
use crate::storage::ops::shape::{pad_inside, pad_source, padded_shape, pads_fit};
use crate::storage::{compute_numel_from_shape, TensorStorage};
use vstd::prelude::*;

verus! {

/// Per-axis padding of the rank-4 input: none on batch and channel axes.
pub open spec fn conv_pads(padding: ((usize, usize), (usize, usize))) -> Seq<(usize, usize)> {
    seq![(0usize, 0usize), (0usize, 0usize), padding.0, padding.1]
}

/// Extent of a dilated kernel: `(k - 1) * d + 1`.
pub open spec fn effective(k: int, d: int) -> int {
    (k - 1) * d + 1
}

/// The convolution geometry is valid: rank-4 operands, matching input
/// channels, nonzero stride and dilation, and a dilated kernel that fits the
/// padded input. Sizes of the padded input and of the output fit in memory.
pub open spec fn conv_fits(
    in_shape: Seq<usize>,
    w_shape: Seq<usize>,
    stride: (usize, usize),
    padding: ((usize, usize), (usize, usize)),
    dilation: (usize, usize),
) -> bool {
    &&& in_shape.len() == 4
    &&& w_shape.len() == 4
    &&& w_shape[0] == in_shape[1]
    &&& stride.0 > 0
    &&& stride.1 > 0
    &&& dilation.0 > 0
    &&& dilation.1 > 0
    &&& pads_fit(in_shape, conv_pads(padding))
    &&& effective(w_shape[2] as int, dilation.0 as int) <= in_shape[2] + padding.0.0 + padding.0.1
    &&& effective(w_shape[3] as int, dilation.1 as int) <= in_shape[3] + padding.1.0 + padding.1.1
    &&& numel_of(conv_out_shape(in_shape, w_shape, stride, padding, dilation)) <= usize::MAX
    &&& w_shape[0] * w_shape[2] * w_shape[3] <= usize::MAX
}

/// Output shape `[batch, out_channels, out_h, out_w]`.
pub open spec fn conv_out_shape(
    in_shape: Seq<usize>,
    w_shape: Seq<usize>,
    stride: (usize, usize),
    padding: ((usize, usize), (usize, usize)),
    dilation: (usize, usize),
) -> Seq<usize> {
    seq![
        in_shape[0],
        w_shape[1],
        ((in_shape[2] + padding.0.0 + padding.0.1 - effective(w_shape[2] as int, dilation.0 as int))
            / (stride.0 as int) + 1) as usize,
        ((in_shape[3] + padding.1.0 + padding.1.1 - effective(w_shape[3] as int, dilation.1 as int))
            / (stride.1 as int) + 1) as usize,
    ]
}

/// Input element at padded coordinate `(b, c, hh, ww)`: zero in the padding.
pub open spec fn padded_at<T: Numeric>(
    input: TensorStorage<T>,
    padding: ((usize, usize), (usize, usize)),
    idx: Seq<usize>,
) -> T {
    if pad_inside(input.shape@, conv_pads(padding), idx) {
        input.value_at(pad_source(conv_pads(padding), idx))
    } else {
        T::spec_zero()
    }
}

/// Tap `t` of the kernel (row-major over `[in_channel, kh, kw]`) as
/// `(ic, kh, kw)`.
pub open spec fn conv_tap(w_shape: Seq<usize>, t: int) -> (int, int, int) {
    let khw = (w_shape[2] * w_shape[3]) as int;
    (t / khw, (t % khw) / (w_shape[3] as int), (t % khw) % (w_shape[3] as int))
}

/// The padded-input values read by output coordinate `oc`, one per tap.
pub open spec fn conv_inputs<T: Numeric>(
    input: TensorStorage<T>,
    w_shape: Seq<usize>,
    stride: (usize, usize),
    padding: ((usize, usize), (usize, usize)),
    dilation: (usize, usize),
    oc: Seq<usize>,
) -> Seq<T> {
    Seq::new(
        (w_shape[0] * w_shape[2] * w_shape[3]) as nat,
        |t: int|
            {
                let (ic, kh, kw) = conv_tap(w_shape, t);
                padded_at(
                    input,
                    padding,
                    seq![
                        oc[0],
                        ic as usize,
                        (oc[2] * stride.0 + kh * dilation.0) as usize,
                        (oc[3] * stride.1 + kw * dilation.1) as usize,
                    ],
                )
            },
    )
}

/// The weights paired with those inputs for output channel `oc[1]`.
pub open spec fn conv_weights<T: Numeric>(weight: TensorStorage<T>, oc: Seq<usize>) -> Seq<T> {
    Seq::new(
        (weight.shape@[0] * weight.shape@[2] * weight.shape@[3]) as nat,
        |t: int|
            {
                let (ic, kh, kw) = conv_tap(weight.shape@, t);
                weight.value_at(seq![ic as usize, oc[1], kh as usize, kw as usize])
            },
    )
}

/// Output element `o` of the convolution: the tap products accumulated from
/// zero in tap order.
pub open spec fn conv_value<T: Numeric>(
    input: TensorStorage<T>,
    weight: TensorStorage<T>,
    stride: (usize, usize),
    padding: ((usize, usize), (usize, usize)),
    dilation: (usize, usize),
    o: nat,
) -> T {
    let oc = unravel(conv_out_shape(input.shape@, weight.shape@, stride, padding, dilation), o);
    sum_products(
        conv_inputs(input, weight.shape@, stride, padding, dilation, oc),
        conv_weights(weight, oc),
        (weight.shape@[0] * weight.shape@[2] * weight.shape@[3]) as nat,
    )
}

/// The taps of an in-bounds output coordinate read inside the padded input.
proof fn lemma_conv_tap_valid(
    in_shape: Seq<usize>,
    w_shape: Seq<usize>,
    stride: (usize, usize),
    padding: ((usize, usize), (usize, usize)),
    dilation: (usize, usize),
    oc: Seq<usize>,
    t: int,
)
    requires
        conv_fits(in_shape, w_shape, stride, padding, dilation),
        dims_positive(in_shape),
        dims_positive(w_shape),
        valid_index(conv_out_shape(in_shape, w_shape, stride, padding, dilation), oc),
        0 <= t < w_shape[0] * w_shape[2] * w_shape[3],
    ensures
        ({
            let (ic, kh, kw) = conv_tap(w_shape, t);
            &&& 0 <= ic < w_shape[0]
            &&& 0 <= kh < w_shape[2]
            &&& 0 <= kw < w_shape[3]
            &&& oc[2] * stride.0 + kh * dilation.0 < in_shape[2] + padding.0.0 + padding.0.1
            &&& oc[3] * stride.1 + kw * dilation.1 < in_shape[3] + padding.1.0 + padding.1.1
        }),
{
    let (kh_n, kw_n) = (w_shape[2] as int, w_shape[3] as int);
    let khw = kh_n * kw_n;
    let (ic, kh, kw) = conv_tap(w_shape, t);
    assert(kh_n * kw_n > 0) by (nonlinear_arith)
        requires
            kh_n > 0,
            kw_n > 0,
    ;
    vstd::arithmetic::div_mod::lemma_fundamental_div_mod(t, khw);
    vstd::arithmetic::div_mod::lemma_fundamental_div_mod(t % khw, kw_n);
    assert(ic < w_shape[0]) by (nonlinear_arith)
        requires
            t < w_shape[0] * kh_n * kw_n,
            t == khw * ic + t % khw,
            khw == kh_n * kw_n,
            0 <= t % khw < khw,
    ;
    assert(kh < kh_n) by (nonlinear_arith)
        requires
            t % khw < kh_n * kw_n,
            t % khw == kw_n * kh + (t % khw) % kw_n,
            0 <= (t % khw) % kw_n < kw_n,
    ;
    assert(ic >= 0) by (nonlinear_arith)
        requires
            t >= 0,
            khw > 0,
            t == khw * ic + t % khw,
            t % khw < khw,
    ;
    assert(kh >= 0) by (nonlinear_arith)
        requires
            t % khw >= 0,
            kw_n > 0,
            t % khw == kw_n * kh + (t % khw) % kw_n,
            (t % khw) % kw_n < kw_n,
    ;
    let (sh, sw) = (stride.0 as int, stride.1 as int);
    let (dh, dw) = (dilation.0 as int, dilation.1 as int);
    let ph = in_shape[2] + padding.0.0 + padding.0.1;
    let pw = in_shape[3] + padding.1.0 + padding.1.1;
    let eh = effective(kh_n, dh);
    let ew = effective(kw_n, dw);
    let qh = (ph - eh) / sh;
    let qw = (pw - ew) / sw;
    vstd::arithmetic::div_mod::lemma_fundamental_div_mod(ph - eh, sh);
    vstd::arithmetic::div_mod::lemma_fundamental_div_mod(pw - ew, sw);
    assert(oc[2] * sh + kh * dh < ph) by (nonlinear_arith)
        requires
            oc[2] <= qh,
            ph - eh == sh * qh + (ph - eh) % sh,
            (ph - eh) % sh >= 0,
            eh == (kh_n - 1) * dh + 1,
            0 <= kh < kh_n,
            sh > 0,
            dh > 0,
    ;
    assert(oc[3] * sw + kw * dw < pw) by (nonlinear_arith)
        requires
            oc[3] <= qw,
            pw - ew == sw * qw + (pw - ew) % sw,
            (pw - ew) % sw >= 0,
            ew == (kw_n - 1) * dw + 1,
            0 <= kw < kw_n,
            sw > 0,
            dw > 0,
    ;
}

impl<T: Numeric> TensorStorage<T> {
    /// The input with its spatial zero padding applied (a shared view when
    /// there is none).
    fn padded_input(input: &TensorStorage<T>, padding: ((usize, usize), (usize, usize))) -> (r: TensorStorage<T>)
        requires
            input.wf(),
            input.shape@.len() == 4,
            pads_fit(input.shape@, conv_pads(padding)),
        ensures
            r.wf(),
            r.shape@ == padded_shape(input.shape@, conv_pads(padding)),
            forall|idx: Seq<usize>|
                valid_index(r.shape@, idx) ==> #[trigger] r.value_at(idx) == padded_at(*input, padding, idx),
    {
        let ((pt, pb), (pl, pr)) = padding;
        if pt == 0 && pb == 0 && pl == 0 && pr == 0 {
            let r = TensorStorage::copy_s(input);
            proof {
                assert(padded_shape(input.shape@, conv_pads(padding)) =~= input.shape@);
                assert forall|idx: Seq<usize>| valid_index(r.shape@, idx) implies #[trigger] r.value_at(idx)
                    == padded_at(*input, padding, idx) by {
                    assert(pad_inside(input.shape@, conv_pads(padding), idx));
                    assert(pad_source(conv_pads(padding), idx) =~= idx);
                }
            }
            r
        } else {
            let pads = [(0usize, 0usize), (0usize, 0usize), (pt, pb), (pl, pr)];
            proof {
                assert(pads@ =~= conv_pads(padding));
            }
            TensorStorage::pad(input, &pads)
        }
    }

    /// Batched 2D cross-correlation of a `[batch, in_channels, height, width]`
    /// input with an `[in_channels, out_channels, kernel_h, kernel_w]` weight,
    /// with stride, zero padding `((top, bottom), (left, right))` and
    /// dilation. Each output element accumulates its tap products from zero
    /// in `(in_channel, kh, kw)` order.
    pub fn conv2d(
        input: &TensorStorage<T>,
        weight: &TensorStorage<T>,
        stride: (usize, usize),
        padding: ((usize, usize), (usize, usize)),
        dilation: (usize, usize),
    ) -> (r: TensorStorage<T>)
        requires
            input.wf(),
            weight.wf(),
            conv_fits(input.shape@, weight.shape@, stride, padding, dilation),
        ensures
            fresh_layout(r, conv_out_shape(input.shape@, weight.shape@, stride, padding, dilation)),
            forall|o: int|
                0 <= o < r.numel ==> #[trigger] r.elems()[o] == conv_value(
                    *input,
                    *weight,
                    stride,
                    padding,
                    dilation,
                    o as nat,
                ),
    {
        let (batch, in_channels, height, width) = (input.shape[0], input.shape[1], input.shape[2], input.shape[3]);
        let (out_channels, kernel_h, kernel_w) = (weight.shape[1], weight.shape[2], weight.shape[3]);
        let (stride_h, stride_w) = stride;
        let (dilation_h, dilation_w) = dilation;
        let ((pad_top, pad_bottom), (pad_left, pad_right)) = padding;
        let padded_h = height + pad_top + pad_bottom;
        let padded_w = width + pad_left + pad_right;
        let effective_h = (kernel_h - 1) * dilation_h + 1;
        let effective_w = (kernel_w - 1) * dilation_w + 1;
        let out_h = (padded_h - effective_h) / stride_h + 1;
        let out_w = (padded_w - effective_w) / stride_w + 1;
        let ghost os = conv_out_shape(input.shape@, weight.shape@, stride, padding, dilation);
        let out_shape = vec![batch, out_channels, out_h, out_w];
        proof {
            assert(out_shape@ =~= os);
            assert(dims_positive(os));
        }
        let padded = Self::padded_input(input, padding);
        let out_numel = compute_numel_from_shape(out_shape.as_slice());
        proof {
            let (a0, a2, a3) = (weight.shape@[0] as int, weight.shape@[2] as int, weight.shape@[3] as int);
            assert(a2 * a3 <= a0 * a2 * a3 && a0 * (a2 * a3) == a0 * a2 * a3 && a2 * a3 > 0) by (nonlinear_arith)
                requires
                    a0 >= 1,
                    a2 >= 1,
                    a3 >= 1,
            ;
        }
        let khw = kernel_h * kernel_w;
        let taps = in_channels * khw;
        let mut out: Vec<T> = Vec::with_capacity(out_numel);
        let mut o: usize = 0;
        while o < out_numel
            invariant
                input.wf(),
                weight.wf(),
                padded.wf(),
                conv_fits(input.shape@, weight.shape@, stride, padding, dilation),
                padded.shape@ == padded_shape(input.shape@, conv_pads(padding)),
                forall|idx: Seq<usize>|
                    valid_index(padded.shape@, idx) ==> #[trigger] padded.value_at(idx) == padded_at(
                        *input,
                        padding,
                        idx,
                    ),
                out_shape@ == os,
                os == conv_out_shape(input.shape@, weight.shape@, stride, padding, dilation),
                dims_positive(os),
                out_numel == numel_of(os),
                taps == weight.shape@[0] * weight.shape@[2] * weight.shape@[3],
                khw == weight.shape@[2] * weight.shape@[3],
                khw > 0,
                kernel_w == weight.shape@[3],
                stride == (stride_h, stride_w),
                dilation == (dilation_h, dilation_w),
                o <= out_numel,
                out@.len() == o,
                forall|q: int|
                    0 <= q < o ==> #[trigger] out@[q] == conv_value(
                        *input,
                        *weight,
                        stride,
                        padding,
                        dilation,
                        q as nat,
                    ),
            decreases out_numel - o,
        {
            let oc = unravel_index(out_shape.as_slice(), o);
            proof {
                lemma_unravel_valid(os, o as nat);
            }
            let ghost xs = conv_inputs(*input, weight.shape@, stride, padding, dilation, oc@);
            let ghost ws = conv_weights(*weight, oc@);
            let mut sum = T::zero();
            let mut t: usize = 0;
            while t < taps
                invariant
                    input.wf(),
                    weight.wf(),
                    padded.wf(),
                    conv_fits(input.shape@, weight.shape@, stride, padding, dilation),
                    padded.shape@ == padded_shape(input.shape@, conv_pads(padding)),
                    forall|idx: Seq<usize>|
                        valid_index(padded.shape@, idx) ==> #[trigger] padded.value_at(idx) == padded_at(
                            *input,
                            padding,
                            idx,
                        ),
                    os == conv_out_shape(input.shape@, weight.shape@, stride, padding, dilation),
                    valid_index(os, oc@),
                    oc@.len() == 4,
                    xs == conv_inputs(*input, weight.shape@, stride, padding, dilation, oc@),
                    ws == conv_weights(*weight, oc@),
                    taps == weight.shape@[0] * weight.shape@[2] * weight.shape@[3],
                    khw == weight.shape@[2] * weight.shape@[3],
                    khw > 0,
                    kernel_w == weight.shape@[3],
                    stride == (stride_h, stride_w),
                    dilation == (dilation_h, dilation_w),
                    t <= taps,
                    sum == sum_products(xs, ws, t as nat),
                decreases taps - t,
            {
                proof {
                    lemma_conv_tap_valid(input.shape@, weight.shape@, stride, padding, dilation, oc@, t as int);
                }
                let ic = t / khw;
                let rem = t % khw;
                let kh = rem / kernel_w;
                let kw = rem % kernel_w;
                let hh = oc[2] * stride_h + kh * dilation_h;
                let ww = oc[3] * stride_w + kw * dilation_w;
                let x = padded.at4(oc[0], ic, hh, ww);
                let w = weight.at4(ic, oc[1], kh, kw);
                proof {
                    assert(x == xs[t as int]);
                    assert(w == ws[t as int]);
                }
                sum = sum.plus(x.times(w));
                t += 1;
            }
            out.push(sum);
            o += 1;
        }
        TensorStorage::from_buffer(out_shape, out)
    }
}

/// The input and weight gradients of a convolution.
pub struct Conv2dBackward<T: Numeric> {
    pub grad_input: TensorStorage<T>,
    pub grad_weight: TensorStorage<T>,
}

/// Output positions `[batch, out_h, out_w]` that every weight tap visits.
pub open spec fn conv_positions(os: Seq<usize>) -> Seq<usize> {
    seq![os[0], os[2], os[3]]
}

/// For weight coordinate `wc = [ic, oc, kh, kw]`, the padded-input values
/// under the tap at every output position, in row-major position order.
pub open spec fn grad_weight_inputs<T: Numeric>(
    input: TensorStorage<T>,
    stride: (usize, usize),
    padding: ((usize, usize), (usize, usize)),
    dilation: (usize, usize),
    os: Seq<usize>,
    wc: Seq<usize>,
) -> Seq<T> {
    Seq::new(
        numel_of(conv_positions(os)),
        |s: int|
            {
                let p = unravel(conv_positions(os), s as nat);
                padded_at(
                    input,
                    padding,
                    seq![
                        p[0],
                        wc[0],
                        (p[1] * stride.0 + wc[2] * dilation.0) as usize,
                        (p[2] * stride.1 + wc[3] * dilation.1) as usize,
                    ],
                )
            },
    )
}

/// The output gradients of channel `wc[1]` at every output position.
pub open spec fn grad_weight_grads<T: Numeric>(
    grad_output: TensorStorage<T>,
    os: Seq<usize>,
    wc: Seq<usize>,
) -> Seq<T> {
    Seq::new(
        numel_of(conv_positions(os)),
        |s: int|
            {
                let p = unravel(conv_positions(os), s as nat);
                grad_output.value_at(seq![p[0], wc[1], p[1], p[2]])
            },
    )
}

/// Kernel tap `k` (dilation `d`) at padded position `ph` reads from the
/// output row/column `(ph - k * d) / s` when that is a whole, in-range step.
pub open spec fn tap_hits(ph: int, k: int, d: int, s: int, out: int) -> bool {
    &&& ph - k * d >= 0
    &&& (ph - k * d) % s == 0
    &&& (ph - k * d) / s < out
}

/// `vals[t]` accumulated from zero over the first `n` taps with `mask[t]`.
pub open spec fn masked_sum<T: Numeric>(vals: Seq<T>, mask: Seq<bool>, n: nat) -> T
    decreases n,
{
    if n == 0 {
        T::spec_zero()
    } else {
        let p = masked_sum(vals, mask, (n - 1) as nat);
        if mask[n - 1] {
            T::spec_add(p, vals[n - 1])
        } else {
            p
        }
    }
}

/// `vals[0] + ... + vals[n - 1]` accumulated from zero.
pub open spec fn sum_from_zero<T: Numeric>(vals: Seq<T>, n: nat) -> T
    decreases n,
{
    if n == 0 {
        T::spec_zero()
    } else {
        T::spec_add(sum_from_zero(vals, (n - 1) as nat), vals[n - 1])
    }
}

/// Which kernel taps `(kh, kw)` (row-major) of input coordinate
/// `ic = [b, c, ih, iw]` land on an output position.
pub open spec fn grad_input_mask(
    w_shape: Seq<usize>,
    stride: (usize, usize),
    padding: ((usize, usize), (usize, usize)),
    dilation: (usize, usize),
    os: Seq<usize>,
    ic: Seq<usize>,
) -> Seq<bool> {
    Seq::new(
        (w_shape[2] * w_shape[3]) as nat,
        |t: int|
            tap_hits(ic[2] + padding.0.0, t / (w_shape[3] as int), dilation.0 as int, stride.0 as int, os[2] as int)
                && tap_hits(
                ic[3] + padding.1.0,
                t % (w_shape[3] as int),
                dilation.1 as int,
                stride.1 as int,
                os[3] as int,
            ),
    )
}

/// The products `grad_output * weight` of every kernel tap of input
/// coordinate `ic` for output channel `oc`.
pub open spec fn grad_input_terms<T: Numeric>(
    grad_output: TensorStorage<T>,
    weight: TensorStorage<T>,
    stride: (usize, usize),
    padding: ((usize, usize), (usize, usize)),
    dilation: (usize, usize),
    ic: Seq<usize>,
    oc: int,
) -> Seq<T> {
    Seq::new(
        (weight.shape@[2] * weight.shape@[3]) as nat,
        |t: int|
            {
                let kh = t / (weight.shape@[3] as int);
                let kw = t % (weight.shape@[3] as int);
                T::spec_mul(
                    grad_output.value_at(
                        seq![
                            ic[0],
                            oc as usize,
                            ((ic[2] + padding.0.0 - kh * dilation.0) / (stride.0 as int)) as usize,
                            ((ic[3] + padding.1.0 - kw * dilation.1) / (stride.1 as int)) as usize,
                        ],
                    ),
                    weight.value_at(seq![ic[1], oc as usize, kh as usize, kw as usize]),
                )
            },
    )
}

/// Input-gradient element at coordinate `ic`: per output channel, the hitting
/// taps' products accumulated from zero; the channel totals then summed from
/// zero in channel order.
pub open spec fn grad_input_value<T: Numeric>(
    grad_output: TensorStorage<T>,
    weight: TensorStorage<T>,
    stride: (usize, usize),
    padding: ((usize, usize), (usize, usize)),
    dilation: (usize, usize),
    ic: Seq<usize>,
) -> T {
    let mask = grad_input_mask(weight.shape@, stride, padding, dilation, grad_output.shape@, ic);
    sum_from_zero(
        Seq::new(
            weight.shape@[1] as nat,
            |oc: int|
                masked_sum(
                    grad_input_terms(grad_output, weight, stride, padding, dilation, ic, oc),
                    mask,
                    (weight.shape@[2] * weight.shape@[3]) as nat,
                ),
        ),
        weight.shape@[1] as nat,
    )
}

impl<T: Numeric> TensorStorage<T> {
    /// The weight-gradient element at weight coordinate `wc`.
    fn grad_weight_at(
        padded: &TensorStorage<T>,
        input: &TensorStorage<T>,
        grad_output: &TensorStorage<T>,
        stride: (usize, usize),
        padding: ((usize, usize), (usize, usize)),
        dilation: (usize, usize),
        positions: &[usize],
        wc: &[usize],
        Ghost(w_shape): Ghost<Seq<usize>>,
    ) -> (r: T)
        requires
            input.wf(),
            padded.wf(),
            grad_output.wf(),
            conv_fits(input.shape@, w_shape, stride, padding, dilation),
            dims_positive(w_shape),
            padded.shape@ == padded_shape(input.shape@, conv_pads(padding)),
            forall|idx: Seq<usize>|
                valid_index(padded.shape@, idx) ==> #[trigger] padded.value_at(idx) == padded_at(
                    *input,
                    padding,
                    idx,
                ),
            grad_output.shape@ == conv_out_shape(input.shape@, w_shape, stride, padding, dilation),
            positions@ == conv_positions(grad_output.shape@),
            valid_index(w_shape, wc@),
        ensures
            r == sum_products(
                grad_weight_inputs(*input, stride, padding, dilation, grad_output.shape@, wc@),
                grad_weight_grads(*grad_output, grad_output.shape@, wc@),
                numel_of(conv_positions(grad_output.shape@)),
            ),
    {
        let ghost os = grad_output.shape@;
        let ghost xs = grad_weight_inputs(*input, stride, padding, dilation, os, wc@);
        let ghost gs = grad_weight_grads(*grad_output, os, wc@);
        proof {
            assert(dims_positive(positions@));
            crate::storage::layout::lemma_numel_mono(positions@, seq![os[0], os[2], os[3]]);
            lemma_positions_numel(os);
        }
        let n = compute_numel_from_shape(positions);
        let (sh, sw) = stride;
        let (dh, dw) = dilation;
        let mut sum = T::zero();
        let mut s: usize = 0;
        while s < n
            invariant
                input.wf(),
                padded.wf(),
                grad_output.wf(),
                conv_fits(input.shape@, w_shape, stride, padding, dilation),
                dims_positive(w_shape),
                padded.shape@ == padded_shape(input.shape@, conv_pads(padding)),
                forall|idx: Seq<usize>|
                    valid_index(padded.shape@, idx) ==> #[trigger] padded.value_at(idx) == padded_at(
                        *input,
                        padding,
                        idx,
                    ),
                os == grad_output.shape@,
                os == conv_out_shape(input.shape@, w_shape, stride, padding, dilation),
                positions@ == conv_positions(os),
                dims_positive(positions@),
                valid_index(w_shape, wc@),
                xs == grad_weight_inputs(*input, stride, padding, dilation, os, wc@),
                gs == grad_weight_grads(*grad_output, os, wc@),
                n == numel_of(positions@),
                stride == (sh, sw),
                dilation == (dh, dw),
                s <= n,
                sum == sum_products(xs, gs, s as nat),
            decreases n - s,
        {
            let p = unravel_index(positions, s);
            proof {
                lemma_unravel_valid(positions@, s as nat);
                let oc4 = seq![p@[0], wc@[1], p@[1], p@[2]];
                assert(valid_index(os, oc4));
                let t = ((wc@[0] * w_shape[2] + wc@[2]) * w_shape[3] + wc@[3]) as int;
                lemma_tap_of(w_shape, wc@);
                lemma_conv_tap_valid(input.shape@, w_shape, stride, padding, dilation, oc4, t);
            }
            let hh = p[1] * sh + wc[2] * dh;
            let ww = p[2] * sw + wc[3] * dw;
            let x = padded.at4(p[0], wc[0], hh, ww);
            let g = grad_output.at4(p[0], wc[1], p[1], p[2]);
            proof {
                assert(x == xs[s as int]);
                assert(g == gs[s as int]);
            }
            sum = sum.plus(x.times(g));
            s += 1;
        }
        sum
    }

    /// Taps of one output channel that land on input coordinate `ic`,
    /// accumulated from zero.
    fn grad_input_channel(
        grad_output: &TensorStorage<T>,
        weight: &TensorStorage<T>,
        stride: (usize, usize),
        padding: ((usize, usize), (usize, usize)),
        dilation: (usize, usize),
        Ghost(in_shape): Ghost<Seq<usize>>,
        ic: &[usize],
        oc: usize,
    ) -> (r: T)
        requires
            grad_output.wf(),
            weight.wf(),
            conv_fits(in_shape, weight.shape@, stride, padding, dilation),
            dims_positive(in_shape),
            grad_output.shape@ == conv_out_shape(in_shape, weight.shape@, stride, padding, dilation),
            valid_index(in_shape, ic@),
            oc < weight.shape@[1],
        ensures
            r == masked_sum(
                grad_input_terms(*grad_output, *weight, stride, padding, dilation, ic@, oc as int),
                grad_input_mask(weight.shape@, stride, padding, dilation, grad_output.shape@, ic@),
                (weight.shape@[2] * weight.shape@[3]) as nat,
            ),
    {
        let ghost vals = grad_input_terms(*grad_output, *weight, stride, padding, dilation, ic@, oc as int);
        let ghost mask = grad_input_mask(weight.shape@, stride, padding, dilation, grad_output.shape@, ic@);
        let (kernel_h, kernel_w) = (weight.shape[2], weight.shape[3]);
        let (out_h, out_w) = (grad_output.shape[2], grad_output.shape[3]);
        let (sh, sw) = stride;
        let (dh, dw) = dilation;
        let ((pt, _pb), (pl, _pr)) = padding;
        proof {
            assert(kernel_h * kernel_w <= weight.shape@[0] * kernel_h * kernel_w) by (nonlinear_arith)
                requires
                    weight.shape@[0] >= 1,
                    kernel_h >= 0,
                    kernel_w >= 0,
            ;
        }
        let taps = kernel_h * kernel_w;
        let ph = ic[2] + pt;
        let pw = ic[3] + pl;
        let mut acc = T::zero();
        let mut t: usize = 0;
        while t < taps
            invariant
                grad_output.wf(),
                weight.wf(),
                conv_fits(in_shape, weight.shape@, stride, padding, dilation),
                dims_positive(in_shape),
                grad_output.shape@ == conv_out_shape(in_shape, weight.shape@, stride, padding, dilation),
                valid_index(in_shape, ic@),
                oc < weight.shape@[1],
                vals == grad_input_terms(*grad_output, *weight, stride, padding, dilation, ic@, oc as int),
                mask == grad_input_mask(weight.shape@, stride, padding, dilation, grad_output.shape@, ic@),
                taps == weight.shape@[2] * weight.shape@[3],
                kernel_h == weight.shape@[2],
                kernel_w == weight.shape@[3],
                out_h == grad_output.shape@[2],
                out_w == grad_output.shape@[3],
                stride == (sh, sw),
                dilation == (dh, dw),
                pt == padding.0.0,
                pl == padding.1.0,
                ph == ic@[2] + pt,
                pw == ic@[3] + pl,
                t <= taps,
                acc == masked_sum(vals, mask, t as nat),
            decreases taps - t,
        {
            let kh = t / kernel_w;
            let kw = t % kernel_w;
            proof {
                vstd::arithmetic::div_mod::lemma_fundamental_div_mod(t as int, kernel_w as int);
                assert(kh < kernel_h) by (nonlinear_arith)
                    requires
                        t < kernel_h * kernel_w,
                        t == kernel_w * kh + kw,
                        kw >= 0,
                ;
                assert(kh * dh < effective(kernel_h as int, dh as int)) by (nonlinear_arith)
                    requires
                        kh < kernel_h,
                        dh > 0,
                ;
                assert(kw * dw < effective(kernel_w as int, dw as int)) by (nonlinear_arith)
                    requires
                        kw < kernel_w,
                        dw > 0,
                ;
            }
            let mut hit = false;
            let mut oh: usize = 0;
            let mut ow: usize = 0;
            if ph >= kh * dh && (ph - kh * dh) % sh == 0 && (ph - kh * dh) / sh < out_h {
                if pw >= kw * dw && (pw - kw * dw) % sw == 0 && (pw - kw * dw) / sw < out_w {
                    hit = true;
                    oh = (ph - kh * dh) / sh;
                    ow = (pw - kw * dw) / sw;
                }
            }
            proof {
                assert(hit == mask[t as int]);
            }
            if hit {
                let g = grad_output.at4(ic[0], oc, oh, ow);
                let w = weight.at4(ic[1], oc, kh, kw);
                proof {
                    assert(T::spec_mul(g, w) == vals[t as int]) by {
                        assert(seq![ic@[0], oc, oh, ow] =~= seq![
                            ic@[0],
                            oc as usize,
                            ((ic@[2] + padding.0.0 - kh * dilation.0) / (stride.0 as int)) as usize,
                            ((ic@[3] + padding.1.0 - kw * dilation.1) / (stride.1 as int)) as usize,
                        ]);
                    }
                }
                acc = acc.plus(g.times(w));
            }
            t += 1;
        }
        acc
    }

    /// The input-gradient element at input coordinate `ic`.
    fn grad_input_at(
        grad_output: &TensorStorage<T>,
        weight: &TensorStorage<T>,
        stride: (usize, usize),
        padding: ((usize, usize), (usize, usize)),
        dilation: (usize, usize),
        Ghost(in_shape): Ghost<Seq<usize>>,
        ic: &[usize],
    ) -> (r: T)
        requires
            grad_output.wf(),
            weight.wf(),
            conv_fits(in_shape, weight.shape@, stride, padding, dilation),
            dims_positive(in_shape),
            grad_output.shape@ == conv_out_shape(in_shape, weight.shape@, stride, padding, dilation),
            valid_index(in_shape, ic@),
        ensures
            r == grad_input_value(*grad_output, *weight, stride, padding, dilation, ic@),
    {
        let ghost chans = Seq::new(
            weight.shape@[1] as nat,
            |oc: int|
                masked_sum(
                    grad_input_terms(*grad_output, *weight, stride, padding, dilation, ic@, oc),
                    grad_input_mask(weight.shape@, stride, padding, dilation, grad_output.shape@, ic@),
                    (weight.shape@[2] * weight.shape@[3]) as nat,
                ),
        );
        let out_channels = weight.shape[1];
        let mut total = T::zero();
        let mut oc: usize = 0;
        while oc < out_channels
            invariant
                grad_output.wf(),
                weight.wf(),
                conv_fits(in_shape, weight.shape@, stride, padding, dilation),
                dims_positive(in_shape),
                grad_output.shape@ == conv_out_shape(in_shape, weight.shape@, stride, padding, dilation),
                valid_index(in_shape, ic@),
                out_channels == weight.shape@[1],
                chans == Seq::new(
                    weight.shape@[1] as nat,
                    |oc: int|
                        masked_sum(
                            grad_input_terms(*grad_output, *weight, stride, padding, dilation, ic@, oc),
                            grad_input_mask(weight.shape@, stride, padding, dilation, grad_output.shape@, ic@),
                            (weight.shape@[2] * weight.shape@[3]) as nat,
                        ),
                ),
                oc <= out_channels,
                total == sum_from_zero(chans, oc as nat),
            decreases out_channels - oc,
        {
            let c = Self::grad_input_channel(grad_output, weight, stride, padding, dilation, Ghost(in_shape), ic, oc);
            total = total.plus(c);
            oc += 1;
        }
        total
    }

    /// Input and weight gradients of [`Self::conv2d`] for the upstream
    /// gradient `grad_output` (of the convolution's output shape).
    pub fn conv2d_backward(
        grad_output: &TensorStorage<T>,
        input: &TensorStorage<T>,
        weight: &TensorStorage<T>,
        stride: (usize, usize),
        padding: ((usize, usize), (usize, usize)),
        dilation: (usize, usize),
    ) -> (r: Conv2dBackward<T>)
        requires
            grad_output.wf(),
            input.wf(),
            weight.wf(),
            conv_fits(input.shape@, weight.shape@, stride, padding, dilation),
            grad_output.shape@ == conv_out_shape(input.shape@, weight.shape@, stride, padding, dilation),
        ensures
            fresh_layout(r.grad_input, input.shape@),
            fresh_layout(r.grad_weight, weight.shape@),
            forall|e: int|
                0 <= e < r.grad_input.numel ==> #[trigger] r.grad_input.elems()[e] == grad_input_value(
                    *grad_output,
                    *weight,
                    stride,
                    padding,
                    dilation,
                    unravel(input.shape@, e as nat),
                ),
            forall|e: int|
                0 <= e < r.grad_weight.numel ==> #[trigger] r.grad_weight.elems()[e] == sum_products(
                    grad_weight_inputs(
                        *input,
                        stride,
                        padding,
                        dilation,
                        grad_output.shape@,
                        unravel(weight.shape@, e as nat),
                    ),
                    grad_weight_grads(*grad_output, grad_output.shape@, unravel(weight.shape@, e as nat)),
                    numel_of(conv_positions(grad_output.shape@)),
                ),
    {
        let padded = Self::padded_input(input, padding);
        let positions = vec![grad_output.shape[0], grad_output.shape[2], grad_output.shape[3]];
        proof {
            assert(positions@ =~= conv_positions(grad_output.shape@));
        }
        let wn = weight.numel;
        let mut gw: Vec<T> = Vec::with_capacity(wn);
        let mut e: usize = 0;
        while e < wn
            invariant
                grad_output.wf(),
                input.wf(),
                weight.wf(),
                padded.wf(),
                conv_fits(input.shape@, weight.shape@, stride, padding, dilation),
                grad_output.shape@ == conv_out_shape(input.shape@, weight.shape@, stride, padding, dilation),
                padded.shape@ == padded_shape(input.shape@, conv_pads(padding)),
                forall|idx: Seq<usize>|
                    valid_index(padded.shape@, idx) ==> #[trigger] padded.value_at(idx) == padded_at(
                        *input,
                        padding,
                        idx,
                    ),
                positions@ == conv_positions(grad_output.shape@),
                wn == weight.numel,
                e <= wn,
                gw@.len() == e,
                forall|q: int|
                    0 <= q < e ==> #[trigger] gw@[q] == sum_products(
                        grad_weight_inputs(
                            *input,
                            stride,
                            padding,
                            dilation,
                            grad_output.shape@,
                            unravel(weight.shape@, q as nat),
                        ),
                        grad_weight_grads(*grad_output, grad_output.shape@, unravel(weight.shape@, q as nat)),
                        numel_of(conv_positions(grad_output.shape@)),
                    ),
            decreases wn - e,
        {
            let wc = unravel_index(weight.shape.as_slice(), e);
            proof {
                lemma_unravel_valid(weight.shape@, e as nat);
            }
            let v = Self::grad_weight_at(
                &padded,
                input,
                grad_output,
                stride,
                padding,
                dilation,
                positions.as_slice(),
                wc.as_slice(),
                Ghost(weight.shape@),
            );
            gw.push(v);
            e += 1;
        }
        let inn = input.numel;
        let mut gi: Vec<T> = Vec::with_capacity(inn);
        let mut e: usize = 0;
        while e < inn
            invariant
                grad_output.wf(),
                input.wf(),
                weight.wf(),
                conv_fits(input.shape@, weight.shape@, stride, padding, dilation),
                grad_output.shape@ == conv_out_shape(input.shape@, weight.shape@, stride, padding, dilation),
                inn == input.numel,
                e <= inn,
                gi@.len() == e,
                forall|q: int|
                    0 <= q < e ==> #[trigger] gi@[q] == grad_input_value(
                        *grad_output,
                        *weight,
                        stride,
                        padding,
                        dilation,
                        unravel(input.shape@, q as nat),
                    ),
            decreases inn - e,
        {
            let ic = unravel_index(input.shape.as_slice(), e);
            proof {
                lemma_unravel_valid(input.shape@, e as nat);
            }
            let v = Self::grad_input_at(grad_output, weight, stride, padding, dilation, Ghost(input.shape@), ic.as_slice());
            gi.push(v);
            e += 1;
        }
        Conv2dBackward {
            grad_input: TensorStorage::from_buffer(input.shape.clone(), gi),
            grad_weight: TensorStorage::from_buffer(weight.shape.clone(), gw),
        }
    }
}

/// The output positions of a convolution output shape fit in memory.
proof fn lemma_positions_numel(os: Seq<usize>)
    requires
        os.len() == 4,
        dims_positive(os),
    ensures
        numel_of(conv_positions(os)) <= numel_of(os),
{
    let p = conv_positions(os);
    assert(p.drop_last().drop_last() =~= seq![os[0]]);
    assert(os.drop_last().drop_last().drop_last() =~= seq![os[0]]);
    crate::storage::layout::lemma_numel_single(os[0]);
    let (a, b, c, d) = (os[0] as int, os[1] as int, os[2] as int, os[3] as int);
    assert(p.drop_last().drop_last().last() == os[0]);
    assert(numel_of(p.drop_last().drop_last()) == a);
    assert(p.drop_last().last() == os[2]);
    assert(numel_of(p.drop_last()) == a * c);
    assert(p.last() == os[3]);
    assert(numel_of(p) == a * c * d);
    let o3 = os.drop_last();
    let o2 = o3.drop_last();
    let o1 = o2.drop_last();
    assert(numel_of(o1) == a);
    assert(o2.last() == os[1]);
    assert(numel_of(o2) == a * b);
    assert(o3.last() == os[2]);
    assert(numel_of(o3) == a * b * c);
    assert(numel_of(os) == a * b * c * d);
    assert(a * c * d <= a * b * c * d) by (nonlinear_arith)
        requires
            a >= 1,
            b >= 1,
            c >= 1,
            d >= 1,
    ;
}

/// The tap index of weight coordinate `[ic, oc, kh, kw]` decomposes back to
/// `(ic, kh, kw)`.
proof fn lemma_tap_of(w_shape: Seq<usize>, wc: Seq<usize>)
    requires
        w_shape.len() == 4,
        valid_index(w_shape, wc),
    ensures
        ({
            let t = ((wc[0] * w_shape[2] + wc[2]) * w_shape[3] + wc[3]) as int;
            &&& 0 <= t < w_shape[0] * w_shape[2] * w_shape[3]
            &&& conv_tap(w_shape, t) == (wc[0] as int, wc[2] as int, wc[3] as int)
        }),
{
    let (a, b, c) = (w_shape[0] as int, w_shape[2] as int, w_shape[3] as int);
    let (i, j, k) = (wc[0] as int, wc[2] as int, wc[3] as int);
    let t = (i * b + j) * c + k;
    let khw = b * c;
    assert(t == i * khw + (j * c + k)) by (nonlinear_arith)
        requires
            t == (i * b + j) * c + k,
            khw == b * c,
    ;
    assert(j * c + k < khw) by (nonlinear_arith)
        requires
            j < b,
            k < c,
            khw == b * c,
            j >= 0,
            k >= 0,
    ;
    assert(t < (i + 1) * khw) by (nonlinear_arith)
        requires
            t == i * khw + (j * c + k),
            j * c + k < khw,
    ;
    assert((i + 1) * khw <= a * khw) by (nonlinear_arith)
        requires
            i < a,
            khw >= 0,
    ;
    assert(a * khw == a * b * c) by (nonlinear_arith)
        requires
            khw == b * c,
    ;
    assert(t >= 0) by (nonlinear_arith)
        requires
            i >= 0,
            j >= 0,
            k >= 0,
            b >= 0,
            c >= 0,
            t == (i * b + j) * c + k,
    ;
    vstd::arithmetic::div_mod::lemma_fundamental_div_mod_converse(t, khw, i, j * c + k);
    vstd::arithmetic::div_mod::lemma_fundamental_div_mod_converse(j * c + k, c, j, k);
}

} // verus!
