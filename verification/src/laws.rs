//! Properties that relate several operations of the library, stated over the
//! same specifications the operations' contracts use.
use crate::autograd::ops::{reduced_coord, zero_dims, SumOp};
use crate::autograd::plan::{BackwardPlan, GraphNode};
use crate::storage::ops::dims::lemma_part_agree;
use crate::storage::ops::shape::{insert_at_dims, remove_at_dims, unsqueeze_dims};
use crate::data::dataloader::MnistDataLoader;
use crate::dtype::{Dtype, Numeric};
use crate::nn::flatten::flattened_shape;
use crate::storage::layout::{dims_positive, lemma_numel_split, numel_of};
use crate::storage::ops::dims::{kept_shape, resolved_dims};
use crate::storage::ops::pool::positions_of;
use crate::storage::ops::reduce::{fold_sum, slice_values};
use crate::storage::ops::math::{mat_at, matmul_entry};
use crate::storage::layout::{swap_seq, valid_index};
use crate::storage::ops::broadcast::{aligned_dim, broadcast_dim, broadcasts_to, max_rank, shapes_compatible};
use crate::storage::ops::pool::lemma_fold_max_ge;
use crate::storage::ops::reduce::{first_argmax, fold_max};
use crate::storage::ops::shape::{
    pad_inside, pad_source, padded_shape, pads_fit, range_lens, shifted_index, window_coord,
    window_hit, window_source, windows_fit,
};
use crate::storage::TensorStorage;
use crate::storage::format::{block_text, blocks_text, row_text, storage_text};
use crate::data::dataset::line_starts_below;
use crate::dtype::DtypeStyler;
use vstd::prelude::*;

verus! {

/// Slicing the input's window back out of its zero padding gives the input
/// back: the gradient rule of a padding undoes the padding.
pub proof fn law_slice_undoes_pad<T: Numeric>(
    a: TensorStorage<T>,
    pads: Seq<(usize, usize)>,
    padded: TensorStorage<T>,
    back: TensorStorage<T>,
)
    requires
        a.wf(),
        pads_fit(a.shape@, pads),
        padded.shape@ == padded_shape(a.shape@, pads),
        forall|idx: Seq<usize>|
            valid_index(padded.shape@, idx) ==> #[trigger] padded.value_at(idx) == (if pad_inside(
                a.shape@,
                pads,
                idx,
            ) {
                a.value_at(pad_source(pads, idx))
            } else {
                T::spec_zero()
            }),
        back.shape@ == a.shape@,
        forall|idx: Seq<usize>|
            valid_index(back.shape@, idx) ==> #[trigger] back.value_at(idx) == padded.value_at(
                shifted_index(idx, Seq::new(a.shape@.len(), |d: int| pads[d].0)),
            ),
    ensures
        forall|idx: Seq<usize>| valid_index(a.shape@, idx) ==> #[trigger] back.value_at(idx) == a.value_at(idx),
{
    assert forall|idx: Seq<usize>| valid_index(a.shape@, idx) implies #[trigger] back.value_at(idx)
        == a.value_at(idx) by {
        let s = shifted_index(idx, Seq::new(a.shape@.len(), |d: int| pads[d].0));
        assert(valid_index(padded.shape@, s));
        assert(pad_inside(a.shape@, pads, s));
        assert(pad_source(pads, s) =~= idx);
    }
}

/// Transposing twice along the same pair of axes restores every element.
pub proof fn law_transpose_involution<T: Dtype>(
    a: TensorStorage<T>,
    dim_a: int,
    dim_b: int,
    once: TensorStorage<T>,
    twice: TensorStorage<T>,
)
    requires
        0 <= dim_a < a.shape@.len(),
        0 <= dim_b < a.shape@.len(),
        once.shape@ == swap_seq(a.shape@, dim_a, dim_b),
        forall|idx: Seq<usize>|
            valid_index(once.shape@, idx) ==> #[trigger] once.value_at(idx) == a.value_at(
                swap_seq(idx, dim_a, dim_b),
            ),
        twice.shape@ == swap_seq(once.shape@, dim_a, dim_b),
        forall|idx: Seq<usize>|
            valid_index(twice.shape@, idx) ==> #[trigger] twice.value_at(idx) == once.value_at(
                swap_seq(idx, dim_a, dim_b),
            ),
    ensures
        twice.shape@ == a.shape@,
        forall|idx: Seq<usize>| valid_index(a.shape@, idx) ==> #[trigger] twice.value_at(idx) == a.value_at(idx),
{
    assert(swap_seq(swap_seq(a.shape@, dim_a, dim_b), dim_a, dim_b) =~= a.shape@);
    assert forall|idx: Seq<usize>| valid_index(a.shape@, idx) implies #[trigger] twice.value_at(idx)
        == a.value_at(idx) by {
        let s = swap_seq(idx, dim_a, dim_b);
        assert(valid_index(once.shape@, s));
        assert(swap_seq(s, dim_a, dim_b) =~= idx);
    }
}

/// Scattering a gradient onto the input shape and slicing the same strided
/// window back out returns the gradient: the strided-slice gradient is a
/// right inverse of the strided slice.
pub proof fn law_slice_of_scatter<T: Numeric>(
    dy: TensorStorage<T>,
    in_shape: Seq<usize>,
    ranges: Seq<(usize, usize, usize)>,
    scattered: TensorStorage<T>,
    back: TensorStorage<T>,
)
    requires
        dy.wf(),
        windows_fit(in_shape, ranges),
        dy.shape@ == range_lens(ranges),
        scattered.shape@ == in_shape,
        forall|idx: Seq<usize>|
            valid_index(in_shape, idx) ==> #[trigger] scattered.value_at(idx) == (if window_hit(
                ranges,
                idx,
            ) {
                T::spec_add(T::spec_zero(), dy.value_at(window_coord(ranges, idx)))
            } else {
                T::spec_zero()
            }),
        back.shape@ == range_lens(ranges),
        forall|idx: Seq<usize>|
            valid_index(back.shape@, idx) ==> #[trigger] back.value_at(idx) == scattered.value_at(
                window_source(ranges, idx),
            ),
    ensures
        forall|idx: Seq<usize>| valid_index(dy.shape@, idx) ==> #[trigger] back.value_at(idx) == dy.value_at(idx),
{
    assert forall|idx: Seq<usize>| valid_index(dy.shape@, idx) implies #[trigger] back.value_at(idx)
        == dy.value_at(idx) by {
        let src = window_source(ranges, idx);
        crate::storage::ops::shape::lemma_window_roundtrip(in_shape, ranges, idx);
        crate::storage::ops::shape::lemma_window_source_valid(in_shape, ranges, idx);
        T::lemma_add_zero(dy.value_at(idx));
    }
}

/// The first maximal position of a slice holds the slice's maximum, and the
/// maximum is at least every element: `argmax` points at what `max` returns.
pub proof fn law_argmax_attains_max<T: Numeric>(s: Seq<T>)
    requires
        s.len() >= 1,
    ensures
        first_argmax(s) < s.len(),
        s[first_argmax(s) as int] == fold_max(s),
        forall|k: int| 0 <= k < s.len() ==> T::spec_ge(fold_max(s), #[trigger] s[k]),
    decreases s.len(),
{
    if s.len() > 1 {
        let d = s.drop_last();
        law_argmax_attains_max(d);
        let i = first_argmax(d);
        assert(s[i as int] == d[i as int]);
    }
    assert forall|k: int| 0 <= k < s.len() implies T::spec_ge(fold_max(s), #[trigger] s[k]) by {
        lemma_fold_max_ge(s, k);
    }
}

/// Every shape broadcasts to the common shape that `broadcast_shape`
/// computes for a compatible list.
pub proof fn law_broadcast_shape_covers(shapes: Seq<Seq<usize>>, s: int)
    requires
        shapes_compatible(shapes),
        0 <= s < shapes.len(),
    ensures
        broadcasts_to(
            shapes[s],
            Seq::new(max_rank(shapes), |i: int| broadcast_dim(shapes, max_rank(shapes), i)),
        ),
{
    let n = max_rank(shapes);
    let out = Seq::new(n, |i: int| broadcast_dim(shapes, n, i));
    crate::storage::ops::broadcast::lemma_max_rank_ge(shapes, s);
    let sh = shapes[s];
    assert forall|j: int| 0 <= j < sh.len() implies #[trigger] sh[j] == out[j + (out.len() - sh.len())]
        || sh[j] == 1 by {
        let i = j + (n - sh.len());
        assert(aligned_dim(sh, n, i) == sh[j]);
    }
}

/// Summing over an empty dimension list sums every element: the result is
/// the scalar total of the tensor in row-major order.
pub proof fn law_sum_no_dims_is_total<T: Numeric>(a: TensorStorage<T>)
    requires
        a.wf(),
        a.shape@.len() <= usize::MAX,
    ensures
        kept_shape(a.shape@, resolved_dims(Seq::<usize>::empty(), a.shape@.len())) == Seq::<usize>::empty(),
        fold_sum(slice_values(a, resolved_dims(Seq::<usize>::empty(), a.shape@.len()), Seq::<usize>::empty()))
            == fold_sum(a.elems()),
{
    crate::storage::ops::reduce::lemma_all_slice(a);
}

/// Every index collected into a max-pooling group is the index of a tap that
/// attains the window's maximum, and the group lists such taps in order.
pub proof fn law_pool_group_attains_max<T>(vals: Seq<T>, idxs: Seq<usize>, m: T, k: nat, j: int)
    requires
        k <= vals.len(),
        k <= idxs.len(),
        0 <= j < positions_of(vals, idxs, m, k).len(),
    ensures
        exists|t: int| 0 <= t < k && vals[t] == m && #[trigger] idxs[t] == positions_of(vals, idxs, m, k)[j],
    decreases k,
{
    let p = positions_of(vals, idxs, m, (k - 1) as nat);
    if j < p.len() {
        law_pool_group_attains_max(vals, idxs, m, (k - 1) as nat, j);
        let t = choose|t: int| 0 <= t < k - 1 && vals[t] == m && #[trigger] idxs[t] == p[j];
        assert(positions_of(vals, idxs, m, k)[j] == p[j]);
        assert(idxs[t] == positions_of(vals, idxs, m, k)[j]);
    } else {
        assert(vals[k - 1] == m);
        assert(positions_of(vals, idxs, m, k)[j] == idxs[k - 1]);
    }
}

/// Flattening a range of dimensions keeps the element count, so the flatten
/// is always a valid reshape.
pub proof fn law_flatten_keeps_numel(shape: Seq<usize>, start: int, end: int)
    requires
        0 <= start <= end < shape.len(),
        dims_positive(shape),
        numel_of(shape) <= usize::MAX,
    ensures
        numel_of(flattened_shape(shape, start, end)) == numel_of(shape),
{
    let f = flattened_shape(shape, start, end);
    let mid = shape.subrange(start, end + 1);
    let rest = shape.skip(end + 1);
    let head = shape.take(start);
    lemma_numel_split(shape, start);
    let tail = shape.subrange(start, shape.len() as int);
    lemma_numel_split(tail, end + 1 - start);
    assert(tail.subrange(0, end + 1 - start) =~= mid);
    assert(tail.subrange(end + 1 - start, tail.len() as int) =~= rest);
    assert(shape.subrange(0, start) =~= head);
    crate::storage::layout::lemma_numel_positive(head);
    crate::storage::layout::lemma_numel_positive(rest);
    assert(dims_positive(mid));
    crate::storage::layout::lemma_numel_positive(mid);
    assert(numel_of(mid) <= numel_of(shape)) by (nonlinear_arith)
        requires
            numel_of(shape) == numel_of(head) * numel_of(tail),
            numel_of(tail) == numel_of(mid) * numel_of(rest),
            numel_of(head) >= 1,
            numel_of(rest) >= 1,
    ;
    lemma_numel_split(f, start + 1);
    assert(f.subrange(0, start + 1) =~= head.push(numel_of(mid) as usize));
    assert(f.subrange(start + 1, f.len() as int) =~= rest);
    assert(head.push(numel_of(mid) as usize).drop_last() =~= head);
    assert(numel_of(head.push(numel_of(mid) as usize)) == numel_of(head) * numel_of(mid));
    assert(numel_of(head) * (numel_of(mid) * numel_of(rest)) == numel_of(head) * numel_of(mid) * numel_of(
        rest,
    )) by (nonlinear_arith);
}

/// The batches of a loader tile its visiting order: position `p` lies in
/// batch `p / batch_size`, which exists, and every batch lies inside the
/// order.
pub proof fn law_batches_cover(loader: MnistDataLoader, p: nat)
    requires
        loader.wf(),
        p < loader.data().labels_view().len(),
    ensures
        p / loader.batch_size_view() < loader.num_batches_view(),
        loader.batch_start(p / loader.batch_size_view()) <= p < loader.batch_start(
            p / loader.batch_size_view(),
        ) + loader.batch_len(p / loader.batch_size_view()),
        loader.batch_start(p / loader.batch_size_view()) + loader.batch_len(p / loader.batch_size_view())
            <= loader.data().labels_view().len(),
{
    loader.lemma_wf_facts();
    let bs = loader.batch_size_view();
    let n = loader.data().labels_view().len();
    let b = p / bs;
    vstd::arithmetic::div_mod::lemma_fundamental_div_mod(p as int, bs as int);
    vstd::arithmetic::div_mod::lemma_fundamental_div_mod((n + bs - 1) as int, bs as int);
    assert(b * bs <= p) by (nonlinear_arith)
        requires
            p == bs * b + p % bs,
            p % bs >= 0,
    ;
    assert(b * bs == bs * b) by (nonlinear_arith);
    assert(p < b * bs + bs);
    assert(b < (n + bs - 1) / (bs as int)) by (nonlinear_arith)
        requires
            p < n,
            b * bs <= p,
            bs > 0,
            (n + bs - 1) == bs * ((n + bs - 1) / (bs as int)) + (n + bs - 1) % (bs as int),
            (n + bs - 1) % (bs as int) < bs,
    ;
}

/// A matrix product depends only on the operands' values, not on their
/// strides or offsets: operands that agree at every coordinate give products
/// that agree at every coordinate.
pub proof fn law_matmul_layout_independent<T: Numeric>(
    a: TensorStorage<T>,
    a2: TensorStorage<T>,
    b: TensorStorage<T>,
    b2: TensorStorage<T>,
    r: TensorStorage<T>,
    r2: TensorStorage<T>,
)
    requires
        a.shape@.len() == 2,
        b.shape@.len() == 2,
        a.shape@[1] == b.shape@[0],
        a2.shape@ == a.shape@,
        b2.shape@ == b.shape@,
        forall|idx: Seq<usize>| valid_index(a.shape@, idx) ==> #[trigger] a.value_at(idx) == a2.value_at(idx),
        forall|idx: Seq<usize>| valid_index(b.shape@, idx) ==> #[trigger] b.value_at(idx) == b2.value_at(idx),
        forall|i: usize, j: usize|
            i < a.shape@[0] && j < b.shape@[1] ==> #[trigger] mat_at(r, i, j) == matmul_entry(a, b, i, j),
        forall|i: usize, j: usize|
            i < a.shape@[0] && j < b.shape@[1] ==> #[trigger] mat_at(r2, i, j) == matmul_entry(a2, b2, i, j),
    ensures
        forall|i: usize, j: usize|
            i < a.shape@[0] && j < b.shape@[1] ==> #[trigger] mat_at(r, i, j) == mat_at(r2, i, j),
{
    assert forall|i: usize, j: usize| i < a.shape@[0] && j < b.shape@[1] implies #[trigger] mat_at(r, i, j)
        == mat_at(r2, i, j) by {
        let k = a.shape@[1] as nat;
        assert forall|t: int| 0 <= t < k implies #[trigger] crate::storage::ops::math::mat_row(a, i)[t]
            == crate::storage::ops::math::mat_row(a2, i)[t] by {
            assert(valid_index(a.shape@, seq![i, t as usize]));
        }
        assert forall|t: int| 0 <= t < k implies #[trigger] crate::storage::ops::math::mat_col(b, j)[t]
            == crate::storage::ops::math::mat_col(b2, j)[t] by {
            assert(valid_index(b.shape@, seq![t as usize, j]));
        }
        assert(crate::storage::ops::math::mat_row(a, i) =~= crate::storage::ops::math::mat_row(a2, i));
        assert(crate::storage::ops::math::mat_col(b, j) =~= crate::storage::ops::math::mat_col(b2, j));
    }
}

/// A plan compiled from a graph can be run: its tables have one entry per
/// index, its operands name indices, its in-degrees count the slots naming
/// each index, and the output's index takes gradients exactly when the
/// output node does.
pub proof fn law_built_plan_is_runnable(p: BackwardPlan, graph: Seq<GraphNode>, seed: usize)
    requires
        p.plans(graph, seed),
    ensures
        p.wf(),
        p.requires_grad@[p.seed_idx as int] == graph[seed as int].requires_grad,
{
    assert(p.nodes@[0] < graph.len());
}

/// The gradient of a sum is uniform along the summed axes: input elements
/// that differ only in summed coordinates receive the same gradient.
pub proof fn law_sum_grad_uniform<T: Dtype>(
    op: SumOp,
    input_shape: Seq<usize>,
    in_grad: TensorStorage<T>,
    r: TensorStorage<T>,
    i1: Seq<usize>,
    i2: Seq<usize>,
)
    requires
        forall|idx: Seq<usize>|
            valid_index(input_shape, idx) ==> #[trigger] r.value_at(idx) == in_grad.value_at(
                reduced_coord(idx, op.dims@, op.keepdim),
            ),
        valid_index(input_shape, i1),
        valid_index(input_shape, i2),
        forall|d: int| 0 <= d < input_shape.len() && !op.dims@.contains(d as usize) ==> i1[d] == i2[d],
    ensures
        r.value_at(i1) == r.value_at(i2),
{
    if op.keepdim {
        assert(zero_dims(i1, op.dims@) =~= zero_dims(i2, op.dims@));
    } else {
        lemma_part_agree(i1, i2, op.dims@, i1.len());
    }
    assert(reduced_coord(i1, op.dims@, op.keepdim) == reduced_coord(i2, op.dims@, op.keepdim));
}

/// Re-inserting unit axes is injective: shapes of equal rank that become
/// equal after the same insertions were equal.
proof fn lemma_unsqueeze_dims_injective(x: Seq<usize>, y: Seq<usize>, dims: Seq<usize>)
    requires
        x.len() == y.len(),
        unsqueeze_dims(x, dims) == unsqueeze_dims(y, dims),
        forall|k: int| 0 <= k < dims.len() ==> #[trigger] dims[k] <= x.len() + k,
    ensures
        x == y,
    decreases dims.len(),
{
    if dims.len() > 0 {
        let d = dims.drop_last();
        assert forall|k: int| 0 <= k < d.len() implies #[trigger] d[k] <= x.len() + k by {
            assert(d[k] == dims[k]);
        }
        lemma_unsqueeze_dims_len(x, d);
        lemma_unsqueeze_dims_len(y, d);
        let px = unsqueeze_dims(x, d);
        let py = unsqueeze_dims(y, d);
        let p = dims.last() as int;
        assert(dims[dims.len() - 1] <= x.len() + dims.len() - 1);
        assert(px.insert(p, 1usize).remove(p) =~= px);
        assert(py.insert(p, 1usize).remove(p) =~= py);
        lemma_unsqueeze_dims_injective(x, y, d);
    }
}

proof fn lemma_unsqueeze_dims_len(x: Seq<usize>, dims: Seq<usize>)
    requires
        forall|k: int| 0 <= k < dims.len() ==> #[trigger] dims[k] <= x.len() + k,
    ensures
        unsqueeze_dims(x, dims).len() == x.len() + dims.len(),
    decreases dims.len(),
{
    if dims.len() > 0 {
        let d = dims.drop_last();
        assert forall|k: int| 0 <= k < d.len() implies #[trigger] d[k] <= x.len() + k by {
            assert(d[k] == dims[k]);
        }
        lemma_unsqueeze_dims_len(x, d);
        assert(dims[dims.len() - 1] <= x.len() + dims.len() - 1);
    }
}

/// Removing the entries inserted at `dims` gives the sequence back.
proof fn lemma_remove_undoes_insert_at_dims(x: Seq<usize>, dims: Seq<usize>, v: usize)
    requires
        forall|k: int| 0 <= k < dims.len() ==> #[trigger] dims[k] <= x.len() + k,
    ensures
        insert_at_dims(x, dims, v).len() == x.len() + dims.len(),
        remove_at_dims(insert_at_dims(x, dims, v), dims) == x,
    decreases dims.len(),
{
    if dims.len() > 0 {
        let d = dims.drop_last();
        assert forall|k: int| 0 <= k < d.len() implies #[trigger] d[k] <= x.len() + k by {
            assert(d[k] == dims[k]);
        }
        lemma_remove_undoes_insert_at_dims(x, d, v);
        let px = insert_at_dims(x, d, v);
        let p = dims.last() as int;
        assert(dims[dims.len() - 1] <= x.len() + dims.len() - 1);
        assert(px.insert(p, v).remove(p) =~= px);
    }
}

/// Removing the unit axes that were inserted at `dims` gives back the
/// storage itself: the same shape, strides, offset and buffer, hence the same
/// elements. `squeeze_at` undoes `unsqueeze_at` without copying.
pub proof fn law_squeeze_at_undoes_unsqueeze_at<T: Dtype>(
    a: TensorStorage<T>,
    dims: Seq<usize>,
    u: TensorStorage<T>,
    s: TensorStorage<T>,
)
    requires
        a.wf(),
        forall|k: int| 0 <= k < dims.len() ==> #[trigger] dims[k] <= a.shape@.len() + k,
        u.shares_buffer(&a),
        u.shape@ == unsqueeze_dims(a.shape@, dims),
        u.strides@ == insert_at_dims(a.strides@, dims, 0usize),
        u.elems() == a.elems(),
        s.shares_buffer(&u),
        unsqueeze_dims(s.shape@, dims) == u.shape@,
        s.strides@ == remove_at_dims(u.strides@, dims),
        s.shape@.len() + dims.len() == u.shape@.len(),
        s.elems() == u.elems(),
    ensures
        s.shape@ == a.shape@,
        s.strides@ == a.strides@,
        s.offset == a.offset,
        s.buffer@ == a.buffer@,
        s.elems() == a.elems(),
{
    lemma_remove_undoes_insert_at_dims(a.strides@, dims, 0usize);
    lemma_unsqueeze_dims_len(a.shape@, dims);
    assert forall|k: int| 0 <= k < dims.len() implies #[trigger] dims[k] <= s.shape@.len() + k by {}
    lemma_unsqueeze_dims_injective(s.shape@, a.shape@, dims);
}

/// Reshaping to another shape and back restores every element at its
/// coordinate: the gradient rule of a reshape undoes the reshape.
pub proof fn law_reshape_roundtrip<T: Dtype>(
    a: TensorStorage<T>,
    new_shape: Seq<usize>,
    r1: TensorStorage<T>,
    r2: TensorStorage<T>,
)
    requires
        a.wf(),
        r1.is_fresh(new_shape, a.elems()),
        r2.is_fresh(a.shape@, r1.elems()),
    ensures
        r2.shape@ == a.shape@,
        forall|idx: Seq<usize>| valid_index(a.shape@, idx) ==> #[trigger] r2.value_at(idx) == a.value_at(idx),
{
    r2.lemma_elems_eq_iff_at(&a);
}

/// `parts` in order, with `sep` between each two neighbours.
pub open spec fn joined(parts: Seq<Seq<char>>, sep: Seq<char>) -> Seq<char>
    decreases parts.len(),
{
    if parts.len() == 0 {
        Seq::empty()
    } else if parts.len() == 1 {
        parts[0]
    } else {
        joined(parts.drop_last(), sep) + sep + parts.last()
    }
}

proof fn lemma_row_text_joined<T: DtypeStyler>(t: TensorStorage<T>, p: Seq<usize>, i: int)
    requires
        0 <= i,
    ensures
        row_text(t, p, i) == joined(
            Seq::new(i as nat, |k: int| T::spec_text(t.value_at(p.push(k as usize)))),
            seq![',', ' '],
        ),
    decreases i,
{
    let parts = Seq::new(i as nat, |k: int| T::spec_text(t.value_at(p.push(k as usize))));
    if i > 0 {
        lemma_row_text_joined(t, p, i - 1);
        assert(parts.drop_last() =~= Seq::new((i - 1) as nat, |k: int| T::spec_text(t.value_at(p.push(k as usize)))));
    }
}

proof fn lemma_blocks_text_joined<T: DtypeStyler>(t: TensorStorage<T>, d: int, p: Seq<usize>, ind: int, i: int)
    requires
        0 <= d,
        d + 1 < t.shape@.len(),
        0 <= i,
    ensures
        blocks_text(t, d, p, ind, i) == joined(
            Seq::new(i as nat, |k: int| block_text(t, d + 1, p.push(k as usize), ind + 1)),
            seq![','] + Seq::new((t.shape@.len() - d - 1) as nat, |k: int| '\n') + Seq::new(
                (ind + 1) as nat,
                |k: int| ' ',
            ),
        ),
    decreases i,
{
    let parts = Seq::new(i as nat, |k: int| block_text(t, d + 1, p.push(k as usize), ind + 1));
    let sep = seq![','] + Seq::new((t.shape@.len() - d - 1) as nat, |k: int| '\n') + Seq::new(
        (ind + 1) as nat,
        |k: int| ' ',
    );
    if i > 0 {
        lemma_blocks_text_joined(t, d, p, ind, i - 1);
        assert(parts.drop_last() =~= Seq::new((i - 1) as nat, |k: int| block_text(t, d + 1, p.push(k as usize), ind + 1)));
        if i > 1 {
            assert(seq![','] + crate::storage::format::newlines(t.shape@.len() - d - 1)
                + crate::storage::format::spaces(ind + 1) =~= sep);
        }
    }
}

/// The printed text of a sub-tensor is bracketed and lists its parts in
/// index order. Along the innermost dimension the parts are the element
/// texts separated by `", "`. Along any outer dimension `d` of a rank-`r`
/// storage the parts are the sub-tensors' texts (indented one column
/// further), separated by a comma, `r - d - 1` line breaks and `indent + 1`
/// spaces: one line break between rows, one blank line between matrices, two
/// between rank-3 blocks, and so on at every level.
pub proof fn law_print_layout<T: DtypeStyler>(t: TensorStorage<T>, d: int, p: Seq<usize>, indent: int)
    requires
        0 <= d < t.shape@.len(),
    ensures
        d == t.shape@.len() - 1 ==> block_text(t, d, p, indent) == seq!['['] + joined(
            Seq::new(t.shape@[d] as nat, |k: int| T::spec_text(t.value_at(p.push(k as usize)))),
            seq![',', ' '],
        ) + seq![']'],
        d < t.shape@.len() - 1 ==> block_text(t, d, p, indent) == seq!['['] + joined(
            Seq::new(t.shape@[d] as nat, |k: int| block_text(t, d + 1, p.push(k as usize), indent + 1)),
            seq![','] + Seq::new((t.shape@.len() - d - 1) as nat, |k: int| '\n') + Seq::new(
                (indent + 1) as nat,
                |k: int| ' ',
            ),
        ) + seq![']'],
{
    if d == t.shape@.len() - 1 {
        lemma_row_text_joined(t, p, t.shape@[d] as int);
    } else {
        lemma_blocks_text_joined(t, d, p, indent, t.shape@[d] as int);
    }
}

/// The elements of a storage of rank at least one are printed last, right
/// after a line that starts with seven spaces and `data=`, and are followed by
/// the closing `)`; the outermost block is laid out with indentation 12, the
/// width of that line's prefix, so continuation lines align under the
/// opening bracket.
pub proof fn law_print_data_line<T: DtypeStyler>(t: TensorStorage<T>)
    requires
        t.shape@.len() > 0,
    ensures
        exists|head: Seq<char>|
            storage_text(t) == head + seq![',', '\n'] + Seq::new(7, |k: int| ' ') + seq!['d', 'a', 't', 'a', '=']
                + block_text(t, 0, Seq::empty(), 7int + 5) + seq![')'],
{
    reveal_strlit(",\n       data=");
    reveal_strlit(")");
    let tail = seq![',', '\n'] + Seq::new(7, |k: int| ' ') + seq!['d', 'a', 't', 'a', '='];
    assert(",\n       data="@ =~= tail);
    let head = "Tensor(shape="@ + crate::storage::format::list_text(t.shape@) + ", dtype="@
        + T::spec_dtype_name() + ",\n       numel="@ + crate::text::nat_text(t.numel as nat) + ", strides="@
        + crate::storage::format::list_text(t.strides@) + ", contiguous="@ + crate::text::bool_text(t.contiguous)
        + ", offset="@ + crate::text::nat_text(t.offset as nat);
    assert(storage_text(t) =~= head + tail + block_text(t, 0, Seq::empty(), 7int + 5) + seq![')']);
    assert(storage_text(t) =~= head + seq![',', '\n'] + Seq::new(7, |k: int| ' ') + seq!['d', 'a', 't', 'a', '=']
        + block_text(t, 0, Seq::empty(), 7int + 5) + seq![')']);
}

proof fn lemma_line_starts(b: Seq<u8>, n: int)
    requires
        n <= b.len(),
        b.len() <= u64::MAX,
    ensures
        forall|i: int| 0 <= i < line_starts_below(b, n).len() ==> {
            let q = #[trigger] line_starts_below(b, n)[i];
            1 <= q < n && b[q - 1] == 10
        },
        forall|i: int, j: int|
            0 <= i < j < line_starts_below(b, n).len() ==> line_starts_below(b, n)[i] < line_starts_below(b, n)[j],
        forall|q: int|
            0 <= q < n - 1 && #[trigger] b[q] == 10 ==> exists|i: int|
                0 <= i < line_starts_below(b, n).len() && line_starts_below(b, n)[i] == q + 1,
    decreases n,
{
    if n > 1 {
        lemma_line_starts(b, n - 1);
        let s = line_starts_below(b, n - 1);
        if b[n - 2] == 10 {
            let s2 = s.push((n - 1) as u64);
            assert(line_starts_below(b, n) == s2);
            assert forall|q: int| 0 <= q < n - 1 && #[trigger] b[q] == 10 implies exists|i: int|
                0 <= i < s2.len() && s2[i] == q + 1 by {
                if q == n - 2 {
                    assert(s2[s.len() as int] == q + 1);
                } else {
                    let i = choose|i: int| 0 <= i < s.len() && s[i] == q + 1;
                    assert(s2[i] == q + 1);
                }
            }
        } else {
            assert(line_starts_below(b, n) == s);
            assert forall|q: int| 0 <= q < n - 1 && #[trigger] b[q] == 10 implies exists|i: int|
                0 <= i < s.len() && s[i] == q + 1 by {
                assert(q < n - 2);
            }
        }
    }
}

/// The record lookup table of a CSV text lists, in increasing order, exactly
/// the positions `p` (other than 0 and the end of the text) whose preceding
/// byte is a line feed: every record after the header starts right after a
/// `\n`, and no other byte ends a line.
pub proof fn law_lut_is_line_feed_positions(bytes: Seq<u8>, lut: Seq<u64>)
    requires
        bytes.len() <= u64::MAX,
        lut == line_starts_below(bytes, bytes.len() as int),
    ensures
        forall|i: int| 0 <= i < lut.len() ==> 1 <= #[trigger] lut[i] < bytes.len() && bytes[lut[i] - 1] == 10u8,
        forall|i: int, j: int| 0 <= i < j < lut.len() ==> lut[i] < lut[j],
        forall|q: int|
            0 <= q < bytes.len() - 1 && #[trigger] bytes[q] == 10u8 ==> exists|i: int| 0 <= i < lut.len() && lut[i] == q + 1,
{
    lemma_line_starts(bytes, bytes.len() as int);
}

} // verus!
