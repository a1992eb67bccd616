//! 2D max pooling over `[batch, channel, height, width]` storages, with the
//! positions of every window's (tied) maxima.
use crate::dtype::Numeric;
use crate::storage::indexing::unravel_index;
use crate::storage::layout::{
    dims_positive, lemma_numel_positive, lemma_unravel_valid, numel_of, ravel, unravel, valid_index,
};
use crate::storage::ops::math::fresh_layout;
use crate::storage::ops::reduce::fold_max;
use crate::storage::ops::shape::strictly_increasing;
use crate::storage::{compute_numel_from_shape, TensorStorage};
use vstd::prelude::*;

verus! {

/// Flat maximum-index metadata of a max pooling: `indices[offsets[o]..offsets[o + 1]]`
/// are the logical input indices attaining the maximum of output window `o`.
pub struct MaxPool2dMetadata {
    pub indices: Vec<usize>,
    pub offsets: Vec<usize>,
}

/// One route of a max-pooling gradient: upstream element `output` flows to
/// input element `input`, shared evenly among the `ties` maxima of its window.
pub struct MaxRoute {
    pub output: usize,
    pub input: usize,
    pub ties: usize,
}

impl MaxPool2dMetadata {
    /// The metadata describes `outputs` windows over an input of
    /// `input_numel` elements: one offset per window boundary, starting at 0
    /// and ending at the number of indices, every window holding at least one
    /// index, and every index inside the input.
    pub open spec fn routes_ok(&self, outputs: nat, input_numel: nat) -> bool {
        &&& self.offsets@.len() == outputs + 1
        &&& self.offsets@[0] == 0
        &&& self.offsets@[outputs as int] == self.indices@.len()
        &&& strictly_increasing(self.offsets@)
        &&& forall|j: int| 0 <= j < self.indices@.len() ==> #[trigger] self.indices@[j] < input_numel
    }

    /// `r` is the route of index entry `j`: its input is `indices[j]`, its
    /// output is the window whose offsets enclose `j`, and its tie count is
    /// that window's size.
    pub open spec fn is_route(&self, j: int, r: MaxRoute) -> bool {
        &&& r.output + 1 < self.offsets@.len()
        &&& self.offsets@[r.output as int] <= j < self.offsets@[r.output + 1]
        &&& r.input == self.indices@[j]
        &&& r.ties == self.offsets@[r.output + 1] - self.offsets@[r.output as int]
    }

    /// Check the metadata against the pooling it is meant to invert and list,
    /// for every recorded maximum in order, where its gradient comes from and
    /// goes to; `None` when the metadata does not fit.
    pub fn gradient_routes(&self, outputs: usize, input_numel: usize) -> (r: Option<Vec<MaxRoute>>)
        ensures
            r is Some <==> self.routes_ok(outputs as nat, input_numel as nat),
            r matches Some(v) ==> v@.len() == self.indices@.len() && forall|j: int|
                0 <= j < v@.len() ==> self.is_route(j, #[trigger] v@[j]),
    {
        let n = self.offsets.len();
        if n == 0 || n - 1 != outputs {
            return None;
        }
        if self.offsets[0] != 0 || self.offsets[outputs] != self.indices.len() {
            return None;
        }
        let mut i: usize = 0;
        while i < outputs
            invariant
                i <= outputs,
                self.offsets@.len() == outputs + 1,
                forall|a: int, b: int| 0 <= a < b <= i ==> self.offsets@[a] < self.offsets@[b],
            decreases outputs - i,
        {
            if self.offsets[i] >= self.offsets[i + 1] {
                return None;
            }
            i += 1;
        }
        let mut j: usize = 0;
        while j < self.indices.len()
            invariant
                j <= self.indices@.len(),
                forall|k: int| 0 <= k < j ==> #[trigger] self.indices@[k] < input_numel,
            decreases self.indices@.len() - j,
        {
            if self.indices[j] >= input_numel {
                return None;
            }
            j += 1;
        }
        let mut routes: Vec<MaxRoute> = Vec::new();
        let mut o: usize = 0;
        while o < outputs
            invariant
                o <= outputs,
                self.routes_ok(outputs as nat, input_numel as nat),
                routes@.len() == self.offsets@[o as int],
                forall|k: int| 0 <= k < routes@.len() ==> self.is_route(k, #[trigger] routes@[k]),
            decreases outputs - o,
        {
            let start = self.offsets[o];
            let end = self.offsets[o + 1];
            assert(self.offsets@[o + 1] <= self.offsets@[outputs as int]);
            let mut k: usize = start;
            while k < end
                invariant
                    o < outputs,
                    self.routes_ok(outputs as nat, input_numel as nat),
                    start == self.offsets@[o as int],
                    end == self.offsets@[o + 1],
                    start <= k <= end,
                    end <= self.indices@.len(),
                    routes@.len() == k,
                    forall|q: int| 0 <= q < routes@.len() ==> self.is_route(q, #[trigger] routes@[q]),
                decreases end - k,
            {
                routes.push(MaxRoute { output: o, input: self.indices[k], ties: end - start });
                k += 1;
            }
            o += 1;
        }
        Some(routes)
    }
}

/// Pooling geometry fits a rank-4 shape: nonzero kernel and stride, kernel
/// inside the spatial extent.
pub open spec fn pool_fits(shape: Seq<usize>, kernel: (usize, usize), stride: (usize, usize)) -> bool {
    &&& shape.len() == 4
    &&& kernel.0 > 0
    &&& kernel.1 > 0
    &&& stride.0 > 0
    &&& stride.1 > 0
    &&& kernel.0 <= shape[2]
    &&& kernel.1 <= shape[3]
}

/// Output shape `[b, c, (h - kh) / sh + 1, (w - kw) / sw + 1]`.
pub open spec fn pool_out_shape(shape: Seq<usize>, kernel: (usize, usize), stride: (usize, usize)) -> Seq<usize> {
    seq![
        shape[0],
        shape[1],
        ((shape[2] - kernel.0) / (stride.0 as int) + 1) as usize,
        ((shape[3] - kernel.1) / (stride.1 as int) + 1) as usize,
    ]
}

/// Input coordinate of tap `t` (row-major over the kernel) of the window
/// under output coordinate `oc`.
pub open spec fn pool_tap(oc: Seq<usize>, kernel: (usize, usize), stride: (usize, usize), t: int) -> Seq<usize> {
    seq![
        oc[0],
        oc[1],
        (oc[2] * stride.0 + t / (kernel.1 as int)) as usize,
        (oc[3] * stride.1 + t % (kernel.1 as int)) as usize,
    ]
}

/// The values of the window under output element `o`, row-major over the
/// kernel.
pub open spec fn pool_window<T: Numeric>(
    a: TensorStorage<T>,
    kernel: (usize, usize),
    stride: (usize, usize),
    o: nat,
) -> Seq<T> {
    let oc = unravel(pool_out_shape(a.shape@, kernel, stride), o);
    Seq::new((kernel.0 * kernel.1) as nat, |t: int| a.value_at(pool_tap(oc, kernel, stride, t)))
}

/// Logical input indices of the window taps under output element `o`.
pub open spec fn pool_window_indices(
    shape: Seq<usize>,
    kernel: (usize, usize),
    stride: (usize, usize),
    o: nat,
) -> Seq<usize> {
    let oc = unravel(pool_out_shape(shape, kernel, stride), o);
    Seq::new((kernel.0 * kernel.1) as nat, |t: int| ravel(shape, pool_tap(oc, kernel, stride, t)) as usize)
}

/// `idxs[t]` for the first `k` taps whose value equals `m`, in order.
pub open spec fn positions_of<T>(vals: Seq<T>, idxs: Seq<usize>, m: T, k: nat) -> Seq<usize>
    decreases k,
{
    if k == 0 {
        Seq::empty()
    } else {
        let p = positions_of(vals, idxs, m, (k - 1) as nat);
        if vals[k - 1] == m {
            p.push(idxs[k - 1])
        } else {
            p
        }
    }
}

/// The tied-maximum group of output window `o`.
pub open spec fn pool_group<T: Numeric>(
    a: TensorStorage<T>,
    kernel: (usize, usize),
    stride: (usize, usize),
    o: nat,
) -> Seq<usize> {
    let w = pool_window(a, kernel, stride, o);
    positions_of(w, pool_window_indices(a.shape@, kernel, stride, o), fold_max(w), w.len())
}

/// The metadata lists, for each of `n` outputs in order, exactly its group.
pub open spec fn metadata_matches<T: Numeric>(
    m: MaxPool2dMetadata,
    a: TensorStorage<T>,
    kernel: (usize, usize),
    stride: (usize, usize),
    n: nat,
) -> bool {
    &&& m.offsets@.len() == n + 1
    &&& m.offsets@[0] == 0
    &&& m.offsets@[n as int] == m.indices@.len()
    &&& forall|o: int|
        0 <= o < n ==> #[trigger] m.offsets@[o] <= m.offsets@[o + 1] && m.indices@.subrange(
            m.offsets@[o] as int,
            m.offsets@[o + 1] as int,
        ) == pool_group(a, kernel, stride, o as nat)
}

/// A running maximum dominates every element folded into it.
pub proof fn lemma_fold_max_ge<T: Numeric>(s: Seq<T>, k: int)
    requires
        s.len() >= 1,
        0 <= k < s.len(),
    ensures
        T::spec_ge(fold_max(s), s[k]),
        s.contains(fold_max(s)),
    decreases s.len(),
{
    if s.len() == 1 {
        T::lemma_order(s[0], s[0], s[0]);
        assert(s[0] == s[0]);
        assert(s.contains(s[0]));
    } else {
        let d = s.drop_last();
        let m = fold_max(d);
        if k < s.len() - 1 {
            lemma_fold_max_ge(d, k);
            assert(d[k] == s[k]);
        } else {
            lemma_fold_max_ge(d, 0);
        }
        T::lemma_order(s.last(), m, s[k]);
        T::lemma_order(m, s.last(), s[k]);
        T::lemma_order(s.last(), s.last(), s.last());
        assert(d.contains(m));
        let j = choose|j: int| 0 <= j < d.len() && d[j] == m;
        assert(s[j] == m);
        assert(s[s.len() - 1] == s.last());
    }
}

/// The row-major index of a rank-4 coordinate.
pub proof fn lemma_ravel4(shape: Seq<usize>, idx: Seq<usize>)
    requires
        shape.len() == 4,
        idx.len() == 4,
    ensures
        ravel(shape, idx) == ((idx[0] * shape[1] + idx[1]) * shape[2] + idx[2]) * shape[3] + idx[3],
{
    let s3 = shape.drop_last();
    let i3 = idx.drop_last();
    let s2 = s3.drop_last();
    let i2 = i3.drop_last();
    let s1 = s2.drop_last();
    let i1 = i2.drop_last();
    assert(ravel(s1.drop_last(), i1.drop_last()) == 0);
    assert(ravel(s1, i1) == idx[0]);
    assert(ravel(s2, i2) == idx[0] * shape[1] + idx[1]);
    assert(ravel(s3, i3) == (idx[0] * shape[1] + idx[1]) * shape[2] + idx[2]);
}

/// The window under an in-bounds output coordinate lies inside the input.
proof fn lemma_tap_valid(shape: Seq<usize>, kernel: (usize, usize), stride: (usize, usize), oc: Seq<usize>, t: int)
    requires
        pool_fits(shape, kernel, stride),
        valid_index(pool_out_shape(shape, kernel, stride), oc),
        0 <= t < kernel.0 * kernel.1,
    ensures
        valid_index(shape, pool_tap(oc, kernel, stride, t)),
        t / (kernel.1 as int) < kernel.0,
        t % (kernel.1 as int) < kernel.1,
        oc[2] * stride.0 + t / (kernel.1 as int) < shape[2],
        oc[3] * stride.1 + t % (kernel.1 as int) < shape[3],
{
    let (kh, kw) = kernel;
    let (sh, sw) = stride;
    let i = t / (kw as int);
    let j = t % (kw as int);
    vstd::arithmetic::div_mod::lemma_fundamental_div_mod(t, kw as int);
    assert(i < kh) by (nonlinear_arith)
        requires
            t < kh * kw,
            t == kw * i + j,
            0 <= j < kw,
    ;
    let oh = oc[2] as int;
    let ow = oc[3] as int;
    let qh = (shape[2] - kh) / (sh as int);
    let qw = (shape[3] - kw) / (sw as int);
    vstd::arithmetic::div_mod::lemma_fundamental_div_mod((shape[2] - kh) as int, sh as int);
    vstd::arithmetic::div_mod::lemma_fundamental_div_mod((shape[3] - kw) as int, sw as int);
    assert(oh * sh + i < shape[2]) by (nonlinear_arith)
        requires
            oh <= qh,
            shape[2] - kh == sh * qh + (shape[2] - kh) % (sh as int),
            (shape[2] - kh) % (sh as int) >= 0,
            i < kh,
            sh > 0,
    ;
    assert(ow * sw + j < shape[3]) by (nonlinear_arith)
        requires
            ow <= qw,
            shape[3] - kw == sw * qw + (shape[3] - kw) % (sw as int),
            (shape[3] - kw) % (sw as int) >= 0,
            j < kw,
            sw > 0,
    ;
}

impl<T: Numeric> TensorStorage<T> {
    /// Maximum of the window under output coordinate `oc`; when `collect`,
    /// the window's tied-maximum input indices are appended to `indices`.
    fn window_max(
        a: &TensorStorage<T>,
        kernel: (usize, usize),
        stride: (usize, usize),
        o: usize,
        oc: &[usize],
        collect: bool,
        indices: &mut Vec<usize>,
    ) -> (m: T)
        requires
            a.wf(),
            pool_fits(a.shape@, kernel, stride),
            kernel.0 * kernel.1 <= usize::MAX,
            oc@ == unravel(pool_out_shape(a.shape@, kernel, stride), o as nat),
            valid_index(pool_out_shape(a.shape@, kernel, stride), oc@),
        ensures
            m == fold_max(pool_window(*a, kernel, stride, o as nat)),
            collect ==> final(indices)@ == old(indices)@ + pool_group(*a, kernel, stride, o as nat),
            !collect ==> final(indices)@ == old(indices)@,
    {
        let (kh, kw) = kernel;
        let (sh, sw) = stride;
        let (c_dim, h, w) = (a.shape[1], a.shape[2], a.shape[3]);
        let ghost win = pool_window(*a, kernel, stride, o as nat);
        let ghost wid = pool_window_indices(a.shape@, kernel, stride, o as nat);
        let ghost start = indices@;
        let group_start = indices.len();
        let taps = kh * kw;
        proof {
            vstd::arithmetic::mul::lemma_mul_strictly_positive(kh as int, kw as int);
            vstd::arithmetic::div_mod::lemma_div_basics(kw as int);
            vstd::arithmetic::div_mod::lemma_small_mod(0, kw as nat);
            assert(0int / (kw as int) == 0);
            lemma_tap_valid(a.shape@, kernel, stride, oc@, 0);
            crate::storage::indexing::lemma_dot4(a.strides@, pool_tap(oc@, kernel, stride, 0));
            assert(pool_tap(oc@, kernel, stride, 0) =~= seq![oc@[0], oc@[1], (oc@[2] * sh) as usize, (oc@[3] * sw) as usize]);
        }
        let window_start_h = oc[2] * sh;
        let window_start_w = oc[3] * sw;
        let mut best = a.at4(oc[0], oc[1], window_start_h, window_start_w);
        proof {
            a.lemma_value_at_ravel(pool_tap(oc@, kernel, stride, 0));
            lemma_ravel4(a.shape@, pool_tap(oc@, kernel, stride, 0));
            assert(win.take(1).len() == 1);
            assert(pool_tap(oc@, kernel, stride, 0) == seq![oc@[0], oc@[1], window_start_h, window_start_w]);
            assert(win[0] == best);
            assert(fold_max(win.take(1)) == win[0]);
            assert(positions_of(win, wid, best, 0) == Seq::<usize>::empty());
            assert(positions_of(win, wid, best, 1) =~= seq![wid[0]]);
        }
        if collect {
            let first = ravel4_exec(a, oc[0], oc[1], window_start_h, window_start_w);
            indices.push(first);
        }
        let mut t: usize = 1;
        while t < taps
            invariant
                a.wf(),
                pool_fits(a.shape@, kernel, stride),
                kernel == (kh, kw),
                stride == (sh, sw),
                taps == kh * kw,
                taps <= usize::MAX,
                oc@ == unravel(pool_out_shape(a.shape@, kernel, stride), o as nat),
                valid_index(pool_out_shape(a.shape@, kernel, stride), oc@),
                win == pool_window(*a, kernel, stride, o as nat),
                wid == pool_window_indices(a.shape@, kernel, stride, o as nat),
                1 <= t <= taps,
                best == fold_max(win.take(t as int)),
                collect ==> indices@ == start + positions_of(win, wid, best, t as nat),
                !collect ==> indices@ == start,
                group_start == start.len(),
            decreases taps - t,
        {
            let i = t / kw;
            let j = t % kw;
            proof {
                lemma_tap_valid(a.shape@, kernel, stride, oc@, t as int);
            }
            let hh = oc[2] * sh + i;
            let ww = oc[3] * sw + j;
            let v = a.at4(oc[0], oc[1], hh, ww);
            proof {
                assert(pool_tap(oc@, kernel, stride, t as int) =~= seq![oc@[0], oc@[1], hh, ww]);
                assert(v == win[t as int]);
                let s = win.take(t + 1);
                assert(s.drop_last() =~= win.take(t as int));
                assert(s.last() == win[t as int]);
                lemma_fold_max_ge(win.take(t as int), 0);
                T::lemma_order(v, best, v);
                T::lemma_order(best, v, best);
                assert(best == fold_max(win.take(t as int)));
                lemma_positions_all_below(win, wid, best, v, t as nat);
            }
            if v.greater(best) {
                best = v;
                if collect {
                    let idx = ravel4_exec(a, oc[0], oc[1], hh, ww);
                    indices.truncate(group_start);
                    indices.push(idx);
                    proof {
                        assert(positions_of(win, wid, v, (t + 1) as nat) =~= seq![wid[t as int]]);
                        assert(indices@ =~= start + seq![wid[t as int]]);
                    }
                }
            } else if collect && v.same(best) {
                let idx = ravel4_exec(a, oc[0], oc[1], hh, ww);
                indices.push(idx);
                proof {
                    assert(indices@ =~= start + positions_of(win, wid, best, (t + 1) as nat));
                }
            } else {
                proof {
                    if collect {
                        assert(indices@ =~= start + positions_of(win, wid, best, (t + 1) as nat));
                    }
                }
            }
            t += 1;
        }
        proof {
            assert(win.take(taps as int) =~= win);
        }
        best
    }

    /// Max pooling with a `kernel` window moved by `stride` (floor mode, no
    /// padding); with `collect_indices`, also the logical input indices of
    /// every window's tied maxima, in output order.
    #[verifier::rlimit(40)]
    pub fn max_pool2d_impl(
        a: &TensorStorage<T>,
        kernel: (usize, usize),
        stride: (usize, usize),
        collect_indices: bool,
    ) -> (r: (TensorStorage<T>, MaxPool2dMetadata))
        requires
            a.wf(),
            pool_fits(a.shape@, kernel, stride),
            kernel.0 * kernel.1 <= usize::MAX,
        ensures
            fresh_layout(r.0, pool_out_shape(a.shape@, kernel, stride)),
            forall|o: int|
                0 <= o < r.0.numel ==> #[trigger] r.0.elems()[o] == fold_max(
                    pool_window(*a, kernel, stride, o as nat),
                ),
            collect_indices ==> metadata_matches(r.1, *a, kernel, stride, r.0.numel as nat),
            !collect_indices ==> r.1.indices@.len() == 0 && r.1.offsets@.len() == 0,
    {
        let (kh, kw) = kernel;
        let (sh, sw) = stride;
        let (b, c, h, w) = (a.shape[0], a.shape[1], a.shape[2], a.shape[3]);
        let out_h = (h - kh) / sh + 1;
        let out_w = (w - kw) / sw + 1;
        let out_shape = vec![b, c, out_h, out_w];
        let ghost os = pool_out_shape(a.shape@, kernel, stride);
        proof {
            assert(out_shape@ =~= os);
            assert(dims_positive(os));
            crate::storage::layout::lemma_numel_mono(os, a.shape@);
        }
        let out_numel = compute_numel_from_shape(out_shape.as_slice());
        let mut out: Vec<T> = Vec::with_capacity(out_numel);
        let mut indices: Vec<usize> = Vec::new();
        let mut offsets: Vec<usize> = Vec::new();
        if collect_indices {
            offsets.push(0);
        }
        let mut o: usize = 0;
        while o < out_numel
            invariant
                a.wf(),
                pool_fits(a.shape@, kernel, stride),
                kernel.0 * kernel.1 <= usize::MAX,
                out_shape@ == os,
                os == pool_out_shape(a.shape@, kernel, stride),
                dims_positive(os),
                out_numel == numel_of(os),
                o <= out_numel,
                out@.len() == o,
                forall|q: int|
                    0 <= q < o ==> #[trigger] out@[q] == fold_max(pool_window(*a, kernel, stride, q as nat)),
                collect_indices ==> {
                    &&& offsets@.len() == o + 1
                    &&& offsets@[0] == 0
                    &&& offsets@[o as int] == indices@.len()
                    &&& forall|q: int| 0 <= q <= o ==> #[trigger] offsets@[q] <= indices@.len()
                    &&& forall|q: int|
                        0 <= q < o ==> #[trigger] offsets@[q] <= offsets@[q + 1] && indices@.subrange(
                            offsets@[q] as int,
                            offsets@[q + 1] as int,
                        ) == pool_group(*a, kernel, stride, q as nat)
                },
                !collect_indices ==> indices@.len() == 0 && offsets@.len() == 0,
            decreases out_numel - o,
        {
            let oc = unravel_index(out_shape.as_slice(), o);
            proof {
                lemma_unravel_valid(os, o as nat);
            }
            let ghost before = indices@;
            let ghost offs = offsets@;
            let m = Self::window_max(a, kernel, stride, o, oc.as_slice(), collect_indices, &mut indices);
            out.push(m);
            if collect_indices {
                let len = indices.len();
                offsets.push(len);
                proof {
                    lemma_meta_step(
                        before,
                        pool_group(*a, kernel, stride, o as nat),
                        offs,
                        o as nat,
                        |q: nat| pool_group(*a, kernel, stride, q),
                    );
                }
            }
            o += 1;
        }
        let r = TensorStorage::from_buffer(out_shape, out);
        (r, MaxPool2dMetadata { indices, offsets })
    }

    /// Max pooling values only.
    pub fn max_pool2d(a: &TensorStorage<T>, kernel: (usize, usize), stride: (usize, usize)) -> (r:
        TensorStorage<T>)
        requires
            a.wf(),
            pool_fits(a.shape@, kernel, stride),
            kernel.0 * kernel.1 <= usize::MAX,
        ensures
            fresh_layout(r, pool_out_shape(a.shape@, kernel, stride)),
            forall|o: int|
                0 <= o < r.numel ==> #[trigger] r.elems()[o] == fold_max(pool_window(*a, kernel, stride, o as nat)),
    {
        Self::max_pool2d_impl(a, kernel, stride, false).0
    }

    /// Max pooling values together with every window's tied-maximum indices.
    pub fn max_pool2d_with_indices(
        a: &TensorStorage<T>,
        kernel: (usize, usize),
        stride: (usize, usize),
    ) -> (r: (TensorStorage<T>, MaxPool2dMetadata))
        requires
            a.wf(),
            pool_fits(a.shape@, kernel, stride),
            kernel.0 * kernel.1 <= usize::MAX,
        ensures
            fresh_layout(r.0, pool_out_shape(a.shape@, kernel, stride)),
            forall|o: int|
                0 <= o < r.0.numel ==> #[trigger] r.0.elems()[o] == fold_max(
                    pool_window(*a, kernel, stride, o as nat),
                ),
            metadata_matches(r.1, *a, kernel, stride, r.0.numel as nat),
    {
        Self::max_pool2d_impl(a, kernel, stride, true)
    }
}

/// Appending one more group keeps the offsets/indices layout exact.
proof fn lemma_meta_step(
    before: Seq<usize>,
    group: Seq<usize>,
    offs: Seq<usize>,
    o: nat,
    groups: spec_fn(nat) -> Seq<usize>,
)
    requires
        offs.len() == o + 1,
        offs[0] == 0,
        offs[o as int] == before.len(),
        forall|q: int| 0 <= q <= o ==> #[trigger] offs[q] <= before.len(),
        forall|q: int|
            0 <= q < o ==> #[trigger] offs[q] <= offs[q + 1] && before.subrange(offs[q] as int, offs[q + 1] as int)
                == groups(q as nat),
        group == groups(o),
        before.len() + group.len() <= usize::MAX,
    ensures
        ({
            let idx = before + group;
            let no = offs.push(idx.len() as usize);
            &&& no.len() == o + 2
            &&& no[0] == 0
            &&& no[o + 1 as int] == idx.len()
            &&& forall|q: int| 0 <= q <= o + 1 ==> #[trigger] no[q] <= idx.len()
            &&& forall|q: int|
                0 <= q < o + 1 ==> #[trigger] no[q] <= no[q + 1] && idx.subrange(no[q] as int, no[q + 1] as int)
                    == groups(q as nat)
        }),
{
    let idx = before + group;
    let no = offs.push(idx.len() as usize);
    assert forall|q: int| 0 <= q < o + 1 implies #[trigger] no[q] <= no[q + 1] && idx.subrange(
        no[q] as int,
        no[q + 1] as int,
    ) == groups(q as nat) by {
        if q < o {
            assert(idx.subrange(no[q] as int, no[q + 1] as int) =~= before.subrange(offs[q] as int, offs[q + 1] as int));
        } else {
            assert(idx.subrange(no[q] as int, no[q + 1] as int) =~= group);
        }
    }
}

/// Logical (row-major) index of an in-bounds rank-4 coordinate.
fn ravel4_exec<T: Numeric>(a: &TensorStorage<T>, i0: usize, i1: usize, i2: usize, i3: usize) -> (r: usize)
    requires
        a.wf(),
        a.shape@.len() == 4,
        valid_index(a.shape@, seq![i0, i1, i2, i3]),
    ensures
        r == ravel(a.shape@, seq![i0, i1, i2, i3]),
{
    let ghost idx = seq![i0, i1, i2, i3];
    proof {
        crate::storage::layout::lemma_ravel_valid(a.shape@, idx);
        lemma_ravel4(a.shape@, idx);
        let (s1, s2, s3) = (a.shape@[1] as int, a.shape@[2] as int, a.shape@[3] as int);
        let x = i0 * s1;
        let y = x + i1;
        let z = y * s2 + i2;
        assert(x <= y);
        assert(y <= y * s2) by (nonlinear_arith)
            requires
                s2 >= 1,
                y >= 0,
        ;
        assert(z <= z * s3) by (nonlinear_arith)
            requires
                s3 >= 1,
                z >= 0,
        ;
        assert(z * s3 + i3 == ravel(a.shape@, idx));
    }
    ((i0 * a.shape[1] + i1) * a.shape[2] + i2) * a.shape[3] + i3
}

/// Positions equal to a value above every earlier element are none, and a
/// running maximum's group grows exactly by equal elements.
proof fn lemma_positions_all_below<T: Numeric>(vals: Seq<T>, idxs: Seq<usize>, best: T, v: T, t: nat)
    requires
        1 <= t < vals.len(),
        best == fold_max(vals.take(t as int)),
        v == vals[t as int],
    ensures
        T::spec_gt(v, best) ==> positions_of(vals, idxs, v, t) == Seq::<usize>::empty(),
        T::spec_gt(v, best) ==> positions_of(vals, idxs, v, t + 1) == seq![idxs[t as int]],
        !T::spec_gt(v, best) && v == best ==> positions_of(vals, idxs, best, t + 1) == positions_of(
            vals,
            idxs,
            best,
            t,
        ).push(idxs[t as int]),
        v != best ==> positions_of(vals, idxs, best, t + 1) == positions_of(vals, idxs, best, t),
{
    if T::spec_gt(v, best) {
        lemma_positions_none(vals, idxs, best, v, t, t);
        assert(positions_of(vals, idxs, v, t + 1) =~= seq![idxs[t as int]]);
    }
}

proof fn lemma_positions_none<T: Numeric>(vals: Seq<T>, idxs: Seq<usize>, best: T, v: T, k: nat, t: nat)
    requires
        k <= t < vals.len(),
        t >= 1,
        best == fold_max(vals.take(t as int)),
        T::spec_gt(v, best),
    ensures
        positions_of(vals, idxs, v, k) == Seq::<usize>::empty(),
    decreases k,
{
    if k > 0 {
        lemma_positions_none(vals, idxs, best, v, (k - 1) as nat, t);
        lemma_fold_max_ge(vals.take(t as int), k - 1);
        T::lemma_order(v, best, vals[k - 1]);
        T::lemma_order(best, v, vals[k - 1]);
        assert(vals.take(t as int)[k - 1] == vals[k - 1]);
        assert(vals[k - 1] != v);
    }
}

} // verus!
