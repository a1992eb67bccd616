//! NumPy-style broadcasting: aligning shapes from the right and stretching
//! singleton dimensions with stride-0 views.
use crate::dtype::Dtype;
use crate::storage::layout::{dims_positive, dot, lemma_numel_mono, numel_of, valid_index, zeros};
use crate::storage::TensorStorage;
use vstd::prelude::*;

verus! {

/// The sequence of `n` unit dimensions.
pub open spec fn ones(n: nat) -> Seq<usize> {
    Seq::new(n, |j: int| 1usize)
}

/// Dimension `i` of `shape` right-aligned into a rank-`ndim` shape (1 where
/// `shape` has no such dimension).
pub open spec fn aligned_dim(shape: Seq<usize>, ndim: nat, i: int) -> usize {
    if i >= ndim - shape.len() {
        shape[i - (ndim - shape.len())]
    } else {
        1usize
    }
}

/// Right-aligned dimension `i` of the shorter of the two shapes agrees with
/// its counterpart in the longer: equal, or one of them is 1.
pub open spec fn dims_agree(src: Seq<usize>, target: Seq<usize>, i: int) -> bool {
    let a = if src.len() <= target.len() { src[i] } else { target[i] };
    let b = if src.len() <= target.len() {
        target[i + (target.len() - src.len())]
    } else {
        src[i + (src.len() - target.len())]
    };
    a == b || a == 1 || b == 1
}

/// Right-aligned pairwise compatibility used by `is_broadcastable`: wherever
/// both shapes have a dimension, the two are equal or one of them is 1, and
/// any extra leading source dimensions are 1.
pub open spec fn broadcast_compatible(src: Seq<usize>, target: Seq<usize>) -> bool {
    &&& (src.len() > target.len() ==> forall|d: int|
        0 <= d < src.len() - target.len() ==> #[trigger] src[d] == 1)
    &&& forall|i: int|
        0 <= i < src.len() && 0 <= i < target.len() ==> #[trigger] dims_agree(src, target, i)
}

/// `src` stretches onto `target`: `target` has at least its rank and every
/// right-aligned source dimension equals the target's or is 1.
pub open spec fn broadcasts_to(src: Seq<usize>, target: Seq<usize>) -> bool {
    &&& src.len() <= target.len()
    &&& forall|j: int|
        0 <= j < src.len() ==> #[trigger] src[j] == target[j + (target.len() - src.len())]
            || src[j] == 1
}

/// The source coordinate read by coordinate `idx` of a broadcast of a tensor
/// of shape `src`: leading dimensions are dropped and stretched ones read 0.
pub open spec fn broadcast_source(src: Seq<usize>, idx: Seq<usize>) -> Seq<usize> {
    Seq::new(
        src.len(),
        |j: int|
            if src[j] == 1 {
                0usize
            } else {
                idx[j + (idx.len() - src.len())]
            },
    )
}

proof fn lemma_dot_zero_strides(n: nat, idx: Seq<usize>)
    requires
        idx.len() == n,
    ensures
        dot(zeros(n), idx) == 0,
    decreases n,
{
    if n > 0 {
        assert(zeros(n).drop_last() =~= zeros((n - 1) as nat));
        lemma_dot_zero_strides((n - 1) as nat, idx.drop_last());
        let x = idx.last() as nat;
        assert(0 * x == 0) by (nonlinear_arith);
    }
}

/// Leading stride-0 dimensions contribute nothing to a coordinate's offset.
proof fn lemma_dot_leading_zeros(k: nat, strides: Seq<usize>, idx: Seq<usize>)
    requires
        idx.len() == k + strides.len(),
    ensures
        dot(zeros(k) + strides, idx) == dot(strides, idx.skip(k as int)),
    decreases strides.len(),
{
    let z = zeros(k) + strides;
    if strides.len() == 0 {
        assert(z =~= zeros(k));
        lemma_dot_zero_strides(k, idx);
        assert(idx.skip(k as int).len() == 0);
    } else {
        lemma_dot_leading_zeros(k, strides.drop_last(), idx.drop_last());
        assert(z.drop_last() =~= zeros(k) + strides.drop_last());
        assert(idx.drop_last().skip(k as int) =~= idx.skip(k as int).drop_last());
        assert(z.last() == strides.last());
        assert(idx.skip(k as int).last() == idx.last());
    }
}

impl<T: Dtype> TensorStorage<T> {
    /// Whether `self` and `shape` are broadcast-compatible, right-aligned.
    pub fn is_broadcastable(&self, shape: &[usize]) -> (r: bool)
        ensures
            r == broadcast_compatible(self.shape@, shape@),
    {
        let sl = self.shape.len();
        let tl = shape.len();
        if sl > tl {
            let mut d: usize = 0;
            while d < sl - tl
                invariant
                    sl == self.shape@.len(),
                    tl == shape@.len(),
                    sl > tl,
                    d <= sl - tl,
                    forall|e: int| 0 <= e < d ==> #[trigger] self.shape@[e] == 1,
                decreases sl - tl - d,
            {
                if self.shape[d] != 1 {
                    return false;
                }
                d += 1;
            }
        }
        let n = if sl <= tl { sl } else { tl };
        let off = if sl <= tl { tl - sl } else { sl - tl };
        let mut i: usize = 0;
        while i < n
            invariant
                sl == self.shape@.len(),
                tl == shape@.len(),
                n == (if sl <= tl { sl } else { tl }),
                off == (if sl <= tl { tl - sl } else { sl - tl }),
                i <= n,
                sl > tl ==> forall|e: int| 0 <= e < sl - tl ==> #[trigger] self.shape@[e] == 1,
                forall|j: int| 0 <= j < i ==> #[trigger] dims_agree(self.shape@, shape@, j),
            decreases n - i,
        {
            let a = if sl <= tl { self.shape[i] } else { shape[i] };
            let b = if sl <= tl { shape[i + off] } else { self.shape[i + off] };
            if !(a == b || a == 1 || b == 1) {
                assert(!dims_agree(self.shape@, shape@, i as int));
                return false;
            }
            i += 1;
        }
        true
    }

    /// A stride-0 view of `a` stretched to `shape`: missing leading dimensions
    /// are prepended as singletons, then every singleton that `shape` widens is
    /// expanded. The buffer is shared.
    pub fn broadcast_to_shape(a: &TensorStorage<T>, shape: &[usize]) -> (r: TensorStorage<T>)
        requires
            a.wf(),
            broadcasts_to(a.shape@, shape@),
            dims_positive(shape@),
            numel_of(shape@) <= usize::MAX,
        ensures
            r.wf(),
            r.shares_buffer(a),
            r.shape@ == shape@,
            r.numel == numel_of(shape@),
            r.contiguous == (a.contiguous && shape@ == ones((shape@.len() - a.shape@.len()) as nat)
                + a.shape@),
            forall|idx: Seq<usize>|
                valid_index(shape@, idx) ==> #[trigger] r.value_at(idx) == a.value_at(
                    broadcast_source(a.shape@, idx),
                ),
    {
        let ndim = shape.len();
        let k = ndim - a.shape.len();
        let mut r = TensorStorage::copy_s(a);
        let mut u: usize = 0;
        proof {
            assert(r.shape@ =~= ones(0) + a.shape@);
            assert(r.strides@ =~= zeros(0) + a.strides@);
        }
        while u < k
            invariant
                a.wf(),
                r.wf(),
                r.shares_buffer(a),
                k == shape@.len() - a.shape@.len(),
                u <= k,
                r.shape@ == ones(u as nat) + a.shape@,
                r.strides@ == zeros(u as nat) + a.strides@,
                r.contiguous == a.contiguous,
                r.numel == a.numel,
            decreases k - u,
        {
            r = TensorStorage::unsqueeze(&r, 0);
            u += 1;
            assert(r.shape@ =~= ones(u as nat) + a.shape@);
            assert(r.strides@ =~= zeros(u as nat) + a.strides@);
        }
        let ghost padded = ones(k as nat) + a.shape@;
        proof {
            assert forall|idx: Seq<usize>| valid_index(r.shape@, idx) implies #[trigger] r.value_at(
                idx,
            ) == a.value_at(broadcast_source(a.shape@, idx)) by {
                lemma_dot_leading_zeros(k as nat, a.strides@, idx);
                assert(idx.skip(k as int) =~= broadcast_source(a.shape@, idx)) by {
                    assert forall|j: int| 0 <= j < a.shape@.len() implies #[trigger] idx.skip(
                        k as int,
                    )[j] == broadcast_source(a.shape@, idx)[j] by {
                        assert(r.shape@[j + k] == a.shape@[j]);
                        assert(idx[j + k] < r.shape@[j + k]);
                    }
                }
            }
        }
        let mut d: usize = 0;
        let mut stretched = false;
        while d < ndim
            invariant
                a.wf(),
                r.wf(),
                r.shares_buffer(a),
                broadcasts_to(a.shape@, shape@),
                dims_positive(shape@),
                numel_of(shape@) <= usize::MAX,
                ndim == shape@.len(),
                k == ndim - a.shape@.len(),
                padded == ones(k as nat) + a.shape@,
                d <= ndim,
                r.shape@.len() == ndim,
                forall|i: int| 0 <= i < d ==> #[trigger] r.shape@[i] == shape@[i],
                forall|i: int| d <= i < ndim ==> #[trigger] r.shape@[i] == padded[i],
                r.contiguous == (a.contiguous && !stretched),
                stretched <==> exists|i: int| 0 <= i < d && #[trigger] padded[i] != shape@[i],
                forall|idx: Seq<usize>|
                    valid_index(r.shape@, idx) ==> #[trigger] r.value_at(idx) == a.value_at(
                        broadcast_source(a.shape@, idx),
                    ),
            decreases ndim - d,
        {
            proof {
                if d >= k {
                    assert(padded[d as int] == a.shape@[d - k]);
                    assert(a.shape@[d - k] == shape@[d as int] || a.shape@[d - k] == 1);
                }
            }
            if r.shape[d] == 1 && shape[d] != 1 {
                let ghost old_r = r;
                proof {
                    let ghost cur = r.shape@;
                    assert forall|i: int| 0 <= i < ndim implies #[trigger] cur[i] <= shape@[i] by {
                        if i >= d && i >= k {
                            assert(padded[i] == a.shape@[i - k]);
                            assert(a.shape@[i - k] == shape@[i] || a.shape@[i - k] == 1);
                        }
                    }
                    let upd = cur.update(d as int, shape@[d as int]);
                    assert forall|i: int| 0 <= i < ndim implies #[trigger] upd[i] <= shape@[i] by {
                        if i != d {
                            assert(upd[i] == cur[i]);
                        }
                    }
                    lemma_numel_mono(upd, shape@);
                    crate::storage::layout::lemma_numel_update(cur, d as int, shape@[d as int]);
                    crate::storage::layout::lemma_numel_update(cur, d as int, 1usize);
                    assert(cur.update(d as int, 1usize) =~= cur);
                }
                r = TensorStorage::expand(&r, d, shape[d]);
                stretched = true;
                proof {
                    assert forall|idx: Seq<usize>| valid_index(r.shape@, idx) implies #[trigger] r.value_at(
                        idx,
                    ) == a.value_at(broadcast_source(a.shape@, idx)) by {
                        let idx0 = idx.update(d as int, 0usize);
                        assert(valid_index(old_r.shape@, idx0));
                        assert(broadcast_source(a.shape@, idx0) =~= broadcast_source(a.shape@, idx)) by {
                            if d >= k {
                                assert(a.shape@[d - k] == 1);
                            }
                        }
                    }
                }
            }
            d += 1;
        }
        proof {
            assert(r.shape@ =~= shape@);
            if shape@ == padded {
                assert(!stretched);
            } else {
                assert(!(shape@ =~= padded));
                let i = choose|i: int| 0 <= i < ndim && shape@[i] != padded[i];
                assert(padded[i] != shape@[i]);
            }
        }
        r
    }

    /// Broadcast `a` to the shape of `b`.
    pub fn broadcast(a: &TensorStorage<T>, b: &TensorStorage<T>) -> (r: TensorStorage<T>)
        requires
            a.wf(),
            b.wf(),
            broadcasts_to(a.shape@, b.shape@),
        ensures
            r.wf(),
            r.shares_buffer(a),
            r.shape@ == b.shape@,
            forall|idx: Seq<usize>|
                valid_index(b.shape@, idx) ==> #[trigger] r.value_at(idx) == a.value_at(
                    broadcast_source(a.shape@, idx),
                ),
    {
        TensorStorage::broadcast_to_shape(a, b.shape.as_slice())
    }
}

/// The maximum rank over `shapes`.
pub open spec fn max_rank(shapes: Seq<Seq<usize>>) -> nat
    decreases shapes.len(),
{
    if shapes.len() == 0 {
        0
    } else {
        let m = max_rank(shapes.drop_last());
        if shapes.last().len() > m {
            shapes.last().len()
        } else {
            m
        }
    }
}

/// Dimension `i` of the common broadcast shape of `shapes` at rank `ndim`:
/// the largest right-aligned dimension (1 if every shape is 1 there).
pub open spec fn broadcast_dim(shapes: Seq<Seq<usize>>, ndim: nat, i: int) -> usize
    decreases shapes.len(),
{
    if shapes.len() == 0 {
        1usize
    } else {
        let m = broadcast_dim(shapes.drop_last(), ndim, i);
        let x = aligned_dim(shapes.last(), ndim, i);
        if x > m {
            x
        } else {
            m
        }
    }
}

/// `shapes` broadcast together: every right-aligned dimension is 1 or the
/// common dimension.
pub open spec fn shapes_compatible(shapes: Seq<Seq<usize>>) -> bool {
    forall|s: int, i: int|
        0 <= s < shapes.len() && 0 <= i < max_rank(shapes) ==> {
            let x = #[trigger] aligned_dim(shapes[s], max_rank(shapes), i);
            x == 1 || x == broadcast_dim(shapes, max_rank(shapes), i)
        }
}

proof fn lemma_broadcast_dim_pos(shapes: Seq<Seq<usize>>, ndim: nat, i: int)
    ensures
        broadcast_dim(shapes, ndim, i) >= 1,
    decreases shapes.len(),
{
    if shapes.len() > 0 {
        lemma_broadcast_dim_pos(shapes.drop_last(), ndim, i);
    }
}

pub proof fn lemma_max_rank_ge(shapes: Seq<Seq<usize>>, s: int)
    requires
        0 <= s < shapes.len(),
    ensures
        shapes[s].len() <= max_rank(shapes),
    decreases shapes.len(),
{
    if s < shapes.len() - 1 {
        lemma_max_rank_ge(shapes.drop_last(), s);
    }
}

/// The common shape that `shapes` broadcast to: rank is the largest rank,
/// each dimension the largest right-aligned one.
pub fn broadcast_shape(shapes: &[&[usize]]) -> (r: Vec<usize>)
    requires
        shapes@.len() > 0,
        shapes_compatible(shapes@.map_values(|s: &[usize]| s@)),
    ensures
        r@.len() == max_rank(shapes@.map_values(|s: &[usize]| s@)),
        forall|i: int|
            0 <= i < r@.len() ==> #[trigger] r@[i] == broadcast_dim(
                shapes@.map_values(|s: &[usize]| s@),
                r@.len() as nat,
                i,
            ),
{
    let ghost ss = shapes@.map_values(|s: &[usize]| s@);
    let mut ndim: usize = 0;
    let mut k: usize = 0;
    while k < shapes.len()
        invariant
            ss == shapes@.map_values(|s: &[usize]| s@),
            k <= shapes@.len(),
            ndim == max_rank(ss.take(k as int)),
        decreases shapes@.len() - k,
    {
        proof {
            assert(ss.take(k + 1).drop_last() =~= ss.take(k as int));
            assert(ss.take(k + 1).last() == shapes@[k as int]@);
        }
        if shapes[k].len() > ndim {
            ndim = shapes[k].len();
        }
        k += 1;
    }
    assert(ss.take(k as int) =~= ss);
    let ghost nd = ndim as nat;
    let mut out: Vec<usize> = vec![1; ndim];
    proof {
        assert forall|i: int| 0 <= i < ndim implies #[trigger] out@[i] == broadcast_dim(
            ss.take(0),
            nd,
            i,
        ) by {}
    }
    let mut s: usize = 0;
    while s < shapes.len()
        invariant
            ss == shapes@.map_values(|s: &[usize]| s@),
            shapes_compatible(ss),
            ndim == max_rank(ss),
            nd == ndim,
            s <= shapes@.len(),
            out@.len() == ndim,
            forall|i: int| 0 <= i < ndim ==> #[trigger] out@[i] == broadcast_dim(ss.take(s as int), nd, i),
        decreases shapes@.len() - s,
    {
        let sh = shapes[s];
        proof {
            lemma_max_rank_ge(ss, s as int);
            assert(ss[s as int] == sh@);
        }
        let pad = ndim - sh.len();
        let ghost before = out@;
        let mut i: usize = 0;
        while i < sh.len()
            invariant
                ss == shapes@.map_values(|s: &[usize]| s@),
                ndim == max_rank(ss),
                nd == ndim,
                s < shapes@.len(),
                sh@ == ss[s as int],
                pad == ndim - sh@.len(),
                i <= sh@.len(),
                out@.len() == ndim,
                before.len() == ndim,
                forall|j: int|
                    0 <= j < ndim ==> #[trigger] before[j] == broadcast_dim(ss.take(s as int), nd, j),
                forall|j: int|
                    0 <= j < ndim ==> #[trigger] out@[j] == (if pad <= j < pad + i {
                        let x = aligned_dim(sh@, nd, j);
                        if x > before[j] {
                            x
                        } else {
                            before[j]
                        }
                    } else {
                        before[j]
                    }),
            decreases sh@.len() - i,
        {
            let dim = sh[i];
            let d = pad + i;
            if dim > out[d] {
                out.set(d, dim);
            }
            i += 1;
        }
        proof {
            assert forall|j: int| 0 <= j < ndim implies #[trigger] out@[j] == broadcast_dim(
                ss.take(s + 1),
                nd,
                j,
            ) by {
                assert(ss.take(s + 1).drop_last() =~= ss.take(s as int));
                assert(ss.take(s + 1).last() == sh@);
                lemma_broadcast_dim_pos(ss.take(s as int), nd, j);
            }
        }
        s += 1;
    }
    proof {
        assert(ss.take(s as int) =~= ss);
    }
    out
}

/// The source coordinate of an in-bounds target coordinate is in bounds.
pub proof fn lemma_broadcast_source_valid(src: Seq<usize>, target: Seq<usize>, idx: Seq<usize>)
    requires
        broadcasts_to(src, target),
        valid_index(target, idx),
        dims_positive(src),
    ensures
        valid_index(src, broadcast_source(src, idx)),
{
    let s = broadcast_source(src, idx);
    assert forall|j: int| 0 <= j < src.len() implies #[trigger] s[j] < src[j] by {
        if src[j] != 1 {
            assert(src[j] == target[j + (target.len() - src.len())]);
        }
    }
}

} // verus!
