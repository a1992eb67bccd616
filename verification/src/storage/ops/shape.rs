use crate::dtype::{Dtype, Numeric};
use crate::storage::layout::{
    dims_positive, dot, is_canonical, lemma_dot_le_max, lemma_dot_update, lemma_dot_update_stride,
    lemma_insert_unit_dim, lemma_max_offset_is_dot, lemma_max_offset_swap, lemma_numel_swap,
    lemma_numel_update, lemma_dot_swap, max_index, max_offset, numel_of, strided_offset, swap_seq,
    valid_index, affine_index, unravel, lemma_unravel_valid, lemma_unravel_take_step,
    lemma_dot_skip_step, lemma_dot_split, lemma_numel_mono, ravel, lemma_ravel_valid, lemma_numel_positive,
};
use crate::storage::{compute_numel_from_shape, shape_vec, TensorStorage};
use std::rc::Rc;
use vstd::prelude::*;

verus! {

/// `shape` with a size-1 axis re-inserted at each of `dims`, in order.
pub open spec fn unsqueeze_dims(shape: Seq<usize>, dims: Seq<usize>) -> Seq<usize>
    decreases dims.len(),
{
    if dims.len() == 0 {
        shape
    } else {
        unsqueeze_dims(shape, dims.drop_last()).insert(dims.last() as int, 1usize)
    }
}

/// `s` with the value `v` inserted at each of `dims`, in order.
pub open spec fn insert_at_dims(s: Seq<usize>, dims: Seq<usize>, v: usize) -> Seq<usize>
    decreases dims.len(),
{
    if dims.len() == 0 {
        s
    } else {
        insert_at_dims(s, dims.drop_last(), v).insert(dims.last() as int, v)
    }
}

/// `s` with the entries at each of `dims` removed, the last of `dims` first.
pub open spec fn remove_at_dims(s: Seq<usize>, dims: Seq<usize>) -> Seq<usize>
    decreases dims.len(),
{
    if dims.len() == 0 {
        s
    } else {
        remove_at_dims(s.remove(dims.last() as int), dims.drop_last())
    }
}

/// `dims` is strictly increasing.
pub open spec fn strictly_increasing(dims: Seq<usize>) -> bool {
    forall|i: int, j: int| 0 <= i < j < dims.len() ==> dims[i] < dims[j]
}

/// Value of output element `f` of a strided window over `a`: the output
/// coordinate is unravelled innermost-first and mapped through each range.
fn window_element<T: Dtype>(a: &TensorStorage<T>, ranges: &[(usize, usize, usize)], f: usize) -> (r: T)
    requires
        a.wf(),
        windows_fit(a.shape@, ranges@),
        f < numel_of(range_lens(ranges@)),
    ensures
        r == a.value_at(window_source(ranges@, unravel(range_lens(ranges@), f as nat))),
{
    let ghost lens = range_lens(ranges@);
    let ghost c = unravel(lens, f as nat);
    let ghost m = window_source(ranges@, c);
    proof {
        assert(dims_positive(lens));
        lemma_unravel_valid(lens, f as nat);
        lemma_window_source_valid(a.shape@, ranges@, c);
        a.lemma_at_in_bounds(m);
        assert(lens.take(lens.len() as int) =~= lens);
        assert(c.take(c.len() as int) =~= c);
        assert(a.strides@.skip(a.strides@.len() as int) =~= Seq::<usize>::empty());
        assert(m.skip(m.len() as int) =~= Seq::<usize>::empty());
    }
    let ndim = a.shape.len();
    let mut remaining = f;
    let mut input_offset = a.offset;
    let mut i = ndim;
    while i > 0
        invariant
            a.wf(),
            windows_fit(a.shape@, ranges@),
            ndim == a.shape@.len(),
            lens == range_lens(ranges@),
            dims_positive(lens),
            valid_index(lens, c),
            m == window_source(ranges@, c),
            valid_index(a.shape@, m),
            a.offset + dot(a.strides@, m) < a.buffer@.len(),
            i <= ndim,
            unravel(lens.take(i as int), remaining as nat) == c.take(i as int),
            input_offset == a.offset + dot(a.strides@.skip(i as int), m.skip(i as int)),
        decreases i,
    {
        i -= 1;
        let (start, length, step) = ranges[i];
        proof {
            lemma_unravel_take_step(lens, i as int, remaining as nat);
            assert(c.take(i + 1).drop_last() =~= c.take(i as int));
            assert(c.take(i + 1).last() == c[i as int]);
            assert(length > 0);
            lemma_dot_skip_step(a.strides@, m, i as int);
            lemma_dot_split(a.strides@, m, i as int);
            assert(m[i as int] < a.shape@[i as int]);
        }
        let coord = remaining % length;
        remaining = remaining / length;
        proof {
            assert(coord == c[i as int]);
            vstd::arithmetic::mul::lemma_mul_inequality(coord as int, (length - 1) as int, step as int);
            let mi = (start + coord * step) as int;
            assert(mi == m[i as int]);
            let si = a.strides@[i as int] as int;
            assert(mi * si == si * mi) by (nonlinear_arith);
        }
        input_offset = input_offset + (start + coord * step) * a.strides[i];
    }
    proof {
        assert(a.strides@.skip(0) =~= a.strides@);
        assert(m.skip(0) =~= m);
    }
    a.buffer[input_offset]
}

impl<T: Dtype> TensorStorage<T> {
    /// Deep copy: duplicate the underlying flat data so the result shares no
    /// buffer with `a`.
    pub fn copy_d(a: &TensorStorage<T>) -> (r: TensorStorage<T>)
        requires
            a.wf(),
        ensures
            r.wf(),
            r.buffer@ == a.buffer@,
            r.shape@ == a.shape@,
            r.strides@ == a.strides@,
            r.contiguous == a.contiguous,
            r.numel == a.numel,
            r.offset == a.offset,
            r.elems() == a.elems(),
    {
        let n = a.buffer.len();
        let mut data: Vec<T> = Vec::with_capacity(n);
        let mut i: usize = 0;
        while i < n
            invariant
                n == a.buffer@.len(),
                i <= n,
                data@ == a.buffer@.take(i as int),
            decreases n - i,
        {
            data.push(a.buffer[i]);
            i += 1;
            assert(data@ =~= a.buffer@.take(i as int));
        }
        assert(data@ =~= a.buffer@);
        TensorStorage {
            buffer: Rc::new(data),
            shape: a.shape.clone(),
            strides: a.strides.clone(),
            contiguous: a.contiguous,
            numel: a.numel,
            offset: a.offset,
        }
    }

    /// Shallow copy: a view that shares the underlying flat data with `a`.
    pub fn copy_s(a: &TensorStorage<T>) -> (r: TensorStorage<T>)
        requires
            a.wf(),
        ensures
            r.wf(),
            r.shares_buffer(a),
            r.shape@ == a.shape@,
            r.strides@ == a.strides@,
            r.contiguous == a.contiguous,
            r.numel == a.numel,
            r.elems() == a.elems(),
    {
        TensorStorage {
            buffer: Rc::clone(&a.buffer),
            shape: a.shape.clone(),
            strides: a.strides.clone(),
            contiguous: a.contiguous,
            numel: a.numel,
            offset: a.offset,
        }
    }

    /// Insert a size-1 axis at `dim`; the logical elements are unchanged.
    pub fn unsqueeze(a: &TensorStorage<T>, dim: usize) -> (r: TensorStorage<T>)
        requires
            a.wf(),
            dim <= a.shape@.len(),
        ensures
            r.wf(),
            r.shares_buffer(a),
            r.shape@ == a.shape@.insert(dim as int, 1usize),
            r.strides@ == a.strides@.insert(dim as int, 0usize),
            r.contiguous == a.contiguous,
            r.numel == a.numel,
            r.elems() == a.elems(),
            forall|c: Seq<usize>|
                valid_index(r.shape@, c) ==> #[trigger] r.value_at(c) == a.value_at(c.remove(dim as int)),
    {
        let mut out_strides = a.strides.clone();
        out_strides.insert(dim, 0);
        let r = TensorStorage {
            buffer: Rc::clone(&a.buffer),
            shape: unsqueeze_shape(&a.shape, dim),
            strides: out_strides,
            contiguous: a.contiguous,
            numel: a.numel,
            offset: a.offset,
        };
        proof {
            lemma_insert_unit_dim(a.shape@, a.strides@, dim as int, 0usize);
            assert(r.elems() =~= a.elems());
            assert forall|c: Seq<usize>| valid_index(r.shape@, c) implies #[trigger] r.value_at(c) == a.value_at(
                c.remove(dim as int),
            ) by {
                crate::storage::layout::lemma_dot_insert_zero(a.strides@, c, dim as int);
            }
        }
        r
    }

    /// Remove the size-1 axis at `dim`; the logical elements are unchanged.
    pub fn squeeze(a: &TensorStorage<T>, dim: usize) -> (r: TensorStorage<T>)
        requires
            a.wf(),
            dim < a.shape@.len(),
            a.shape@[dim as int] == 1,
        ensures
            r.wf(),
            r.shares_buffer(a),
            r.shape@ == a.shape@.remove(dim as int),
            r.strides@ == a.strides@.remove(dim as int),
            r.contiguous == a.contiguous,
            r.numel == a.numel,
            r.elems() == a.elems(),
            forall|c: Seq<usize>|
                valid_index(r.shape@, c) ==> #[trigger] r.value_at(c) == a.value_at(c.insert(dim as int, 0usize)),
    {
        let mut out_strides = a.strides.clone();
        out_strides.remove(dim);
        let r = TensorStorage {
            buffer: Rc::clone(&a.buffer),
            shape: squeeze_shape(&a.shape, dim),
            strides: out_strides,
            contiguous: a.contiguous,
            numel: a.numel,
            offset: a.offset,
        };
        proof {
            let sh = a.shape@.remove(dim as int);
            let st = a.strides@.remove(dim as int);
            assert(sh.insert(dim as int, 1usize) =~= a.shape@);
            assert(st.insert(dim as int, a.strides@[dim as int]) =~= a.strides@);
            assert(dims_positive(sh)) by {
                assert forall|k: int| 0 <= k < sh.len() implies #[trigger] sh[k] > 0 by {
                    if k < dim {
                        assert(sh[k] == a.shape@[k]);
                    } else {
                        assert(sh[k] == a.shape@[k + 1]);
                    }
                }
            }
            lemma_insert_unit_dim(sh, st, dim as int, a.strides@[dim as int]);
            assert forall|i: nat| #[trigger] strided_offset(sh, st, i) == strided_offset(
                a.shape@,
                a.strides@,
                i,
            ) by {
                assert(strided_offset(sh.insert(dim as int, 1usize), st.insert(dim as int, a.strides@[dim as int]), i) == strided_offset(sh, st, i));
            }
            assert(r.elems() =~= a.elems());
            assert forall|c: Seq<usize>| valid_index(r.shape@, c) implies #[trigger] r.value_at(c) == a.value_at(
                c.insert(dim as int, 0usize),
            ) by {
                crate::storage::layout::lemma_dot_zero_coord(a.strides@, c, dim as int);
            }
        }
        r
    }

    /// Re-insert a size-1 axis for every dimension in `dims` (strictly
    /// increasing), turning a squeezed reduction result back into a keepdim
    /// view. Purely metadata: no data is copied.
    pub fn unsqueeze_at(a: &TensorStorage<T>, dims: &[usize]) -> (r: TensorStorage<T>)
        requires
            a.wf(),
            strictly_increasing(dims@),
            forall|k: int| 0 <= k < dims@.len() ==> #[trigger] dims@[k] <= a.shape@.len() + k,
        ensures
            r.wf(),
            r.shares_buffer(a),
            r.shape@ == unsqueeze_dims(a.shape@, dims@),
            r.strides@ == insert_at_dims(a.strides@, dims@, 0usize),
            r.contiguous == a.contiguous,
            r.numel == a.numel,
            r.elems() == a.elems(),
    {
        let mut out = Self::copy_s(a);
        let mut k: usize = 0;
        assert(dims@.take(0) =~= Seq::<usize>::empty());
        while k < dims.len()
            invariant
                a.wf(),
                out.wf(),
                k <= dims@.len(),
                strictly_increasing(dims@),
                forall|k: int| 0 <= k < dims@.len() ==> #[trigger] dims@[k] <= a.shape@.len() + k,
                out.shares_buffer(a),
                out.shape@ == unsqueeze_dims(a.shape@, dims@.take(k as int)),
                out.strides@ == insert_at_dims(a.strides@, dims@.take(k as int), 0usize),
                out.shape@.len() == a.shape@.len() + k,
                out.contiguous == a.contiguous,
                out.numel == a.numel,
                out.elems() == a.elems(),
            decreases dims@.len() - k,
        {
            assert(dims@.take(k + 1).drop_last() =~= dims@.take(k as int));
            assert(dims@[k as int] <= a.shape@.len() + k);
            out = Self::unsqueeze(&out, dims[k]);
            k += 1;
        }
        assert(dims@.take(dims@.len() as int) =~= dims@);
        out
    }

    /// Remove the size-1 axis for every dimension in `dims` (strictly
    /// increasing), the inverse of [`Self::unsqueeze_at`]. The highest dims are
    /// removed first so the remaining indices stay valid.
    pub fn squeeze_at(a: &TensorStorage<T>, dims: &[usize]) -> (r: TensorStorage<T>)
        requires
            a.wf(),
            strictly_increasing(dims@),
            forall|k: int| 0 <= k < dims@.len() ==> #[trigger] dims@[k] < a.shape@.len(),
            forall|k: int| 0 <= k < dims@.len() ==> a.shape@[#[trigger] dims@[k] as int] == 1,
        ensures
            r.wf(),
            r.shares_buffer(a),
            unsqueeze_dims(r.shape@, dims@) == a.shape@,
            r.shape@ == remove_at_dims(a.shape@, dims@),
            r.strides@ == remove_at_dims(a.strides@, dims@),
            r.shape@.len() + dims@.len() == a.shape@.len(),
            r.contiguous == a.contiguous,
            r.numel == a.numel,
            r.elems() == a.elems(),
    {
        let mut out = Self::copy_s(a);
        let mut k: usize = dims.len();
        assert(dims@.take(k as int) =~= dims@);
        while k > 0
            invariant
                a.wf(),
                out.wf(),
                k <= dims@.len(),
                strictly_increasing(dims@),
                forall|k: int| 0 <= k < dims@.len() ==> #[trigger] dims@[k] < a.shape@.len(),
                forall|k: int| 0 <= k < dims@.len() ==> a.shape@[#[trigger] dims@[k] as int] == 1,
                out.shares_buffer(a),
                out.shape@.len() + (dims@.len() - k) == a.shape@.len(),
                forall|j: int| 0 <= j < dims@.len() && j < k ==> #[trigger] out.shape@[dims@[j] as int] == 1,
                forall|j: int| 0 <= j < k ==> #[trigger] dims@[j] < out.shape@.len(),
                unsqueeze_dims_from(out.shape@, dims@, k as int) == a.shape@,
                remove_at_dims(out.shape@, dims@.take(k as int)) == remove_at_dims(a.shape@, dims@),
                remove_at_dims(out.strides@, dims@.take(k as int)) == remove_at_dims(a.strides@, dims@),
                out.contiguous == a.contiguous,
                out.numel == a.numel,
                out.elems() == a.elems(),
            decreases k,
        {
            k -= 1;
            let d = dims[k];
            proof {
                assert(out.shape@[d as int] == 1);
            }
            let next = Self::squeeze(&out, d);
            proof {
                assert(dims@.take(k + 1).drop_last() =~= dims@.take(k as int));
                assert(dims@.take(k + 1).last() == d);
                assert(next.shape@.insert(d as int, 1usize) =~= out.shape@);
                assert forall|j: int| 0 <= j < dims@.len() && j < k implies #[trigger] next.shape@[dims@[j] as int] == 1 by {
                    assert(dims@[j] < d);
                    assert(out.shape@[dims@[j] as int] == 1);
                }
                assert forall|j: int| 0 <= j < k implies #[trigger] dims@[j] < next.shape@.len() by {
                    assert(dims@[j] < d);
                }
            }
            out = next;
        }
        proof {
            lemma_unsqueeze_dims_from_zero(out.shape@, dims@);
            assert(dims@.take(0) =~= Seq::<usize>::empty());
        }
        out
    }

    /// Swap two axes. The result is a strided view of the same buffer.
    pub fn transpose(a: &TensorStorage<T>, dim_a: usize, dim_b: usize) -> (r: TensorStorage<T>)
        requires
            a.wf(),
            dim_a < a.shape@.len(),
            dim_b < a.shape@.len(),
        ensures
            r.wf(),
            r.shares_buffer(a),
            r.shape@ == swap_seq(a.shape@, dim_a as int, dim_b as int),
            r.strides@ == swap_seq(a.strides@, dim_a as int, dim_b as int),
            r.numel == a.numel,
            dim_a != dim_b ==> !r.contiguous,
            dim_a == dim_b ==> r.contiguous == a.contiguous && r.elems() == a.elems(),
            forall|idx: Seq<usize>|
                valid_index(r.shape@, idx) ==> #[trigger] r.value_at(idx) == a.value_at(
                    swap_seq(idx, dim_a as int, dim_b as int),
                ),
    {
        if dim_a == dim_b {
            let r = Self::copy_s(a);
            proof {
                assert(swap_seq(a.shape@, dim_a as int, dim_b as int) =~= a.shape@);
                assert(swap_seq(a.strides@, dim_a as int, dim_b as int) =~= a.strides@);
                assert forall|idx: Seq<usize>| valid_index(r.shape@, idx) implies #[trigger] r.value_at(
                    idx,
                ) == a.value_at(swap_seq(idx, dim_a as int, dim_b as int)) by {
                    assert(swap_seq(idx, dim_a as int, dim_b as int) =~= idx);
                }
            }
            return r;
        }
        let mut out_shape = a.shape.clone();
        let sa = out_shape[dim_a];
        let sb = out_shape[dim_b];
        out_shape.set(dim_a, sb);
        out_shape.set(dim_b, sa);
        let mut out_strides = a.strides.clone();
        let ta = out_strides[dim_a];
        let tb = out_strides[dim_b];
        out_strides.set(dim_a, tb);
        out_strides.set(dim_b, ta);
        let r = TensorStorage {
            buffer: Rc::clone(&a.buffer),
            shape: out_shape,
            strides: out_strides,
            contiguous: false,
            numel: a.numel,
            offset: a.offset,
        };
        proof {
            assert(r.shape@ =~= swap_seq(a.shape@, dim_a as int, dim_b as int));
            assert(r.strides@ =~= swap_seq(a.strides@, dim_a as int, dim_b as int));
            lemma_numel_swap(a.shape@, dim_a as int, dim_b as int);
            lemma_max_offset_swap(a.shape@, a.strides@, dim_a as int, dim_b as int);
            assert forall|idx: Seq<usize>| valid_index(r.shape@, idx) implies #[trigger] r.value_at(
                idx,
            ) == a.value_at(swap_seq(idx, dim_a as int, dim_b as int)) by {
                lemma_dot_swap(a.strides@, idx, dim_a as int, dim_b as int);
            }
        }
        r
    }

    /// Expand the singleton axis `dim` to `times` entries with a stride-0 view
    /// (every expanded entry reads the same element).
    pub fn expand(a: &TensorStorage<T>, dim: usize, times: usize) -> (r: TensorStorage<T>)
        requires
            a.wf(),
            dim < a.shape@.len(),
            a.shape@[dim as int] == 1,
            times > 0,
            a.numel * times <= usize::MAX,
        ensures
            r.wf(),
            r.shares_buffer(a),
            r.shape@ == a.shape@.update(dim as int, times),
            r.strides@ == (if times != 1 { a.strides@.update(dim as int, 0usize) } else { a.strides@ }),
            r.numel == a.numel * times,
            r.contiguous == (times == 1 && a.contiguous),
            forall|idx: Seq<usize>|
                valid_index(r.shape@, idx) ==> #[trigger] r.value_at(idx) == a.value_at(
                    idx.update(dim as int, 0usize),
                ),
    {
        let mut out_shape = a.shape.clone();
        let mut out_strides = a.strides.clone();
        let mut out_contiguous = true;
        if times != 1 {
            out_shape.set(dim, times);
            out_strides.set(dim, 0);
            out_contiguous = false;
        }
        let r = TensorStorage {
            buffer: Rc::clone(&a.buffer),
            shape: out_shape,
            strides: out_strides,
            contiguous: out_contiguous && a.contiguous,
            numel: a.numel * times,
            offset: a.offset,
        };
        proof {
            assert(a.shape@.update(dim as int, 1usize) =~= a.shape@);
            assert(r.shape@ =~= a.shape@.update(dim as int, times));
            lemma_numel_update(a.shape@, dim as int, times);
            assert(dims_positive(r.shape@)) by {
                assert forall|k: int| 0 <= k < r.shape@.len() implies #[trigger] r.shape@[k] > 0 by {
                    if k != dim {
                        assert(r.shape@[k] == a.shape@[k]);
                    }
                }
            }
            if times != 1 {
                let m = max_index(a.shape@);
                let m2 = max_index(r.shape@);
                lemma_max_offset_is_dot(a.shape@, a.strides@);
                lemma_max_offset_is_dot(r.shape@, r.strides@);
                assert(m2 =~= m.update(dim as int, (times - 1) as usize));
                lemma_dot_update_stride(a.strides@, m2, dim as int, 0usize);
                lemma_dot_update(a.strides@, m, dim as int, (times - 1) as usize);
            }
            assert forall|idx: Seq<usize>| valid_index(r.shape@, idx) implies #[trigger] r.value_at(
                idx,
            ) == a.value_at(idx.update(dim as int, 0usize)) by {
                lemma_dot_update(a.strides@, idx, dim as int, 0usize);
                let sd = a.strides@[dim as int] as nat;
                let xd = idx[dim as int] as nat;
                assert(sd * 0 == 0 && 0 * xd == 0) by (nonlinear_arith);
                if times != 1 {
                    lemma_dot_update_stride(a.strides@, idx, dim as int, 0usize);
                    assert(r.strides@ == a.strides@.update(dim as int, 0usize));
                } else {
                    assert(idx[dim as int] == 0);
                    assert(idx.update(dim as int, 0usize) =~= idx);
                }
            }
        }
        r
    }
}

/// Window lengths of `(start, length, step)` ranges.
pub open spec fn range_lens(ranges: Seq<(usize, usize, usize)>) -> Seq<usize> {
    Seq::new(ranges.len(), |d: int| ranges[d].1)
}

/// Window starts of `(start, length, step)` ranges.
pub open spec fn range_starts(ranges: Seq<(usize, usize, usize)>) -> Seq<usize> {
    Seq::new(ranges.len(), |d: int| ranges[d].0)
}

/// Window steps of `(start, length, step)` ranges.
pub open spec fn range_steps(ranges: Seq<(usize, usize, usize)>) -> Seq<usize> {
    Seq::new(ranges.len(), |d: int| ranges[d].2)
}

/// Every range is a nonempty, nonzero-step window that stays inside `shape`.
pub open spec fn windows_fit(shape: Seq<usize>, ranges: Seq<(usize, usize, usize)>) -> bool {
    &&& ranges.len() == shape.len()
    &&& forall|d: int|
        0 <= d < ranges.len() ==> {
            &&& #[trigger] ranges[d].1 > 0
            &&& ranges[d].2 > 0
            &&& ranges[d].0 + (ranges[d].1 - 1) * ranges[d].2 < shape[d]
        }
}

/// The source coordinate read by output coordinate `idx` of a strided window.
pub open spec fn window_source(ranges: Seq<(usize, usize, usize)>, idx: Seq<usize>) -> Seq<usize> {
    affine_index(idx, range_starts(ranges), range_steps(ranges))
}

pub proof fn lemma_window_source_valid(shape: Seq<usize>, ranges: Seq<(usize, usize, usize)>, idx: Seq<usize>)
    requires
        windows_fit(shape, ranges),
        valid_index(range_lens(ranges), idx),
    ensures
        valid_index(shape, window_source(ranges, idx)),
{
    let m = window_source(ranges, idx);
    assert forall|d: int| 0 <= d < shape.len() implies #[trigger] m[d] < shape[d] by {
        let r = ranges[d];
        assert(idx[d] < r.1);
        assert(idx[d] <= r.1 - 1);
        vstd::arithmetic::mul::lemma_mul_inequality(idx[d] as int, (r.1 - 1) as int, r.2 as int);
        assert(idx[d] * r.2 <= (r.1 - 1) * r.2);
    }
}

/// `shape` with the axes `dims[k..]` re-inserted (in order).
pub open spec fn unsqueeze_dims_from(shape: Seq<usize>, dims: Seq<usize>, k: int) -> Seq<usize>
    decreases dims.len() - k,
{
    if k >= dims.len() {
        shape
    } else {
        unsqueeze_dims_from(shape.insert(dims[k] as int, 1usize), dims, k + 1)
    }
}

proof fn lemma_unsqueeze_dims_from_zero(shape: Seq<usize>, dims: Seq<usize>)
    ensures
        unsqueeze_dims_from(shape, dims, 0) == unsqueeze_dims(shape, dims),
{
    lemma_unsqueeze_dims_split(shape, dims, 0);
    assert(dims.take(0) =~= Seq::<usize>::empty());
}

proof fn lemma_unsqueeze_dims_split(shape: Seq<usize>, dims: Seq<usize>, k: int)
    requires
        0 <= k <= dims.len(),
    ensures
        unsqueeze_dims_from(unsqueeze_dims(shape, dims.take(k)), dims, k) == unsqueeze_dims(shape, dims),
    decreases dims.len() - k,
{
    if k == dims.len() {
        assert(dims.take(k) =~= dims);
    } else {
        lemma_unsqueeze_dims_split(shape, dims, k + 1);
        assert(dims.take(k + 1).drop_last() =~= dims.take(k));
        assert(dims.take(k + 1).last() == dims[k]);
    }
}

/// `shape` with a size-1 axis inserted at `dim`.
pub fn unsqueeze_shape(shape: &[usize], dim: usize) -> (r: Vec<usize>)
    requires
        dim <= shape@.len(),
    ensures
        r@ == shape@.insert(dim as int, 1usize),
{
    let mut out_shape = shape_vec(shape);
    out_shape.insert(dim, 1);
    out_shape
}

/// `shape` with axis `dim` removed.
pub fn squeeze_shape(shape: &[usize], dim: usize) -> (r: Vec<usize>)
    requires
        dim < shape@.len(),
    ensures
        r@ == shape@.remove(dim as int),
{
    let mut out_shape = shape_vec(shape);
    out_shape.remove(dim);
    out_shape
}


/// Pairs `(start, len)` as unit-step windows `(start, len, 1)`.
pub open spec fn unit_step_ranges(ranges: Seq<(usize, usize)>) -> Seq<(usize, usize, usize)> {
    Seq::new(ranges.len(), |d: int| (ranges[d].0, ranges[d].1, 1usize))
}

/// Every `(start, len)` window is nonempty and stays inside `shape`.
pub open spec fn slices_fit(shape: Seq<usize>, ranges: Seq<(usize, usize)>) -> bool {
    &&& ranges.len() == shape.len()
    &&& forall|d: int|
        0 <= d < ranges.len() ==> #[trigger] ranges[d].1 > 0 && ranges[d].0 + ranges[d].1
            <= shape[d]
}

/// Coordinate shifted by per-dimension offsets.
pub open spec fn shifted_index(idx: Seq<usize>, starts: Seq<usize>) -> Seq<usize> {
    Seq::new(idx.len(), |d: int| (idx[d] + starts[d]) as usize)
}

/// The logical elements of `a`, row-major, in a fresh vector.
fn gather_logical<T: Dtype>(a: &TensorStorage<T>) -> (r: Vec<T>)
    requires
        a.wf(),
    ensures
        r@ == a.elems(),
{
    let mut out: Vec<T> = Vec::with_capacity(a.numel);
    if a.contiguous {
        let mut i: usize = 0;
        while i < a.numel
            invariant
                a.wf(),
                a.contiguous,
                i <= a.numel,
                out@ == a.elems().take(i as int),
            decreases a.numel - i,
        {
            proof {
                a.lemma_elem_at(i as nat);
                assert(strided_offset(a.shape@, a.strides@, i as nat) == i);
            }
            out.push(a.buffer[a.offset + i]);
            i += 1;
            assert(out@ =~= a.elems().take(i as int));
        }
    } else {
        let mut it = a.strided_indices();
        let mut i: usize = 0;
        while i < a.numel
            invariant
                a.wf(),
                it.inv(),
                it.shape_view() == a.shape@,
                it.strides_view() == a.strides@,
                it.base_offset() == a.offset,
                it.len_view() == a.numel,
                it.pos() == i,
                i <= a.numel,
                out@ == a.elems().take(i as int),
            decreases a.numel - i,
        {
            let f = it.next();
            proof {
                a.lemma_elem_at(i as nat);
            }
            match f {
                Some(f) => {
                    out.push(a.buffer[f]);
                },
                None => {
                    assert(false);
                },
            }
            i += 1;
            assert(out@ =~= a.elems().take(i as int));
        }
    }
    assert(out@ =~= a.elems());
    out
}

impl<T: Dtype> TensorStorage<T> {
    /// Reinterpret the logical elements under a new shape, materializing into a
    /// fresh contiguous buffer (any strided view is fixed into canonical
    /// row-major order).
    pub fn reshape(a: &TensorStorage<T>, new_shape: &[usize]) -> (r: TensorStorage<T>)
        requires
            a.wf(),
            dims_positive(new_shape@),
            numel_of(new_shape@) == a.numel,
        ensures
            r.is_fresh(new_shape@, a.elems()),
    {
        let out_buf = gather_logical(a);
        TensorStorage::from_buffer(shape_vec(new_shape), out_buf)
    }

    /// Extract a strided window `(start, length, step)` from every dimension,
    /// materializing the result into a fresh contiguous buffer. The input may
    /// itself be a strided view.
    pub fn slice_strided(a: &TensorStorage<T>, ranges: &[(usize, usize, usize)]) -> (r:
        TensorStorage<T>)
        requires
            a.wf(),
            windows_fit(a.shape@, ranges@),
        ensures
            r.wf(),
            r.shape@ == range_lens(ranges@),
            r.contiguous,
            r.offset == 0,
            is_canonical(r.shape@, r.strides@),
            forall|idx: Seq<usize>|
                valid_index(r.shape@, idx) ==> #[trigger] r.value_at(idx) == a.value_at(
                    window_source(ranges@, idx),
                ),
    {
        let ghost lens = range_lens(ranges@);
        let ndim = ranges.len();
        let mut out_shape: Vec<usize> = Vec::with_capacity(ndim);
        let mut d: usize = 0;
        while d < ndim
            invariant
                ndim == ranges@.len(),
                d <= ndim,
                out_shape@ == lens.take(d as int),
                lens == range_lens(ranges@),
            decreases ndim - d,
        {
            out_shape.push(ranges[d].1);
            d += 1;
            assert(out_shape@ =~= lens.take(d as int));
        }
        proof {
            assert(out_shape@ =~= lens);
            assert(dims_positive(lens));
            assert forall|k: int| 0 <= k < lens.len() implies #[trigger] lens[k] <= a.shape@[k] by {
                let r = ranges@[k];
                vstd::arithmetic::mul::lemma_mul_inequality((r.1 - 1) as int, (r.1 - 1) as int, 1);
                vstd::arithmetic::mul::lemma_mul_inequality(1, r.2 as int, (r.1 - 1) as int);
                assert((r.1 - 1) <= (r.1 - 1) * r.2) by (nonlinear_arith)
                    requires
                        r.2 >= 1,
                        r.1 >= 1,
                ;
            }
            lemma_numel_mono(lens, a.shape@);
        }
        let out_numel = compute_numel_from_shape(&out_shape);
        let mut out_buf: Vec<T> = Vec::with_capacity(out_numel);
        let mut f: usize = 0;
        while f < out_numel
            invariant
                a.wf(),
                windows_fit(a.shape@, ranges@),
                lens == range_lens(ranges@),
                out_numel == numel_of(lens),
                f <= out_numel,
                out_buf@.len() == f,
                forall|j: int| 0 <= j < f ==> #[trigger] out_buf@[j] == a.value_at(
                    window_source(ranges@, unravel(lens, j as nat)),
                ),
            decreases out_numel - f,
        {
            let v = window_element(a, ranges, f);
            out_buf.push(v);
            f += 1;
        }
        let r = TensorStorage::from_buffer(out_shape, out_buf);
        proof {
            assert forall|idx: Seq<usize>| valid_index(r.shape@, idx) implies #[trigger] r.value_at(
                idx,
            ) == a.value_at(window_source(ranges@, idx)) by {
                r.lemma_value_at_ravel(idx);
                lemma_ravel_valid(lens, idx);
            }
        }
        r
    }

    /// Extract the window `[start, start + len)` along every dimension,
    /// materializing it into a fresh contiguous buffer.
    pub fn slice(a: &TensorStorage<T>, ranges: &[(usize, usize)]) -> (r: TensorStorage<T>)
        requires
            a.wf(),
            slices_fit(a.shape@, ranges@),
        ensures
            r.wf(),
            r.shape@ == Seq::new(ranges@.len(), |d: int| ranges@[d].1),
            r.contiguous,
            r.offset == 0,
            is_canonical(r.shape@, r.strides@),
            forall|idx: Seq<usize>|
                valid_index(r.shape@, idx) ==> #[trigger] r.value_at(idx) == a.value_at(
                    shifted_index(idx, Seq::new(ranges@.len(), |d: int| ranges@[d].0)),
                ),
    {
        let ndim = ranges.len();
        let mut triples: Vec<(usize, usize, usize)> = Vec::with_capacity(ndim);
        let mut d: usize = 0;
        while d < ndim
            invariant
                ndim == ranges@.len(),
                d <= ndim,
                triples@ == unit_step_ranges(ranges@).take(d as int),
            decreases ndim - d,
        {
            let (start, len) = ranges[d];
            triples.push((start, len, 1));
            d += 1;
            assert(triples@ =~= unit_step_ranges(ranges@).take(d as int));
        }
        assert(triples@ =~= unit_step_ranges(ranges@));
        proof {
            assert forall|d: int| 0 <= d < triples@.len() implies {
                &&& #[trigger] triples@[d].1 > 0
                &&& triples@[d].2 > 0
                &&& triples@[d].0 + (triples@[d].1 - 1) * triples@[d].2 < a.shape@[d]
            } by {
                let x = (triples@[d].1 - 1) as int;
                assert(x * 1 == x);
            }
        }
        let r = Self::slice_strided(a, triples.as_slice());
        proof {
            let starts = Seq::new(ranges@.len(), |d: int| ranges@[d].0);
            assert(range_lens(triples@) =~= Seq::new(ranges@.len(), |d: int| ranges@[d].1));
            assert forall|idx: Seq<usize>| valid_index(r.shape@, idx) implies #[trigger] r.value_at(
                idx,
            ) == a.value_at(shifted_index(idx, starts)) by {
                assert forall|d: int| 0 <= d < idx.len() implies #[trigger] window_source(triples@, idx)[d] == shifted_index(idx, starts)[d] by {
                    let x = idx[d] as int;
                    assert(x * 1 == x);
                }
                assert(window_source(triples@, idx) =~= shifted_index(idx, starts));
            }
        }
        r
    }
}


/// Shape after zero-padding each dimension by `(before, after)`.
pub open spec fn padded_shape(shape: Seq<usize>, pads: Seq<(usize, usize)>) -> Seq<usize> {
    Seq::new(shape.len(), |d: int| (shape[d] + pads[d].0 + pads[d].1) as usize)
}

/// Output coordinate `idx` of a padding lies over the unpadded input.
pub open spec fn pad_inside(shape: Seq<usize>, pads: Seq<(usize, usize)>, idx: Seq<usize>) -> bool {
    forall|d: int| 0 <= d < shape.len() ==> pads[d].0 <= #[trigger] idx[d] < pads[d].0 + shape[d]
}

/// The source coordinate under output coordinate `idx` of a padding.
pub open spec fn pad_source(pads: Seq<(usize, usize)>, idx: Seq<usize>) -> Seq<usize> {
    Seq::new(idx.len(), |d: int| (idx[d] - pads[d].0) as usize)
}

/// Per-dimension source coordinate, or 0 where the coordinate lies in the pad.
spec fn pad_clamped(shape: Seq<usize>, pads: Seq<(usize, usize)>, idx: Seq<usize>) -> Seq<usize> {
    Seq::new(
        idx.len(),
        |d: int|
            if pads[d].0 <= idx[d] < pads[d].0 + shape[d] {
                (idx[d] - pads[d].0) as usize
            } else {
                0usize
            },
    )
}

/// Padding fits: one pair per dimension and every size stays representable.
pub open spec fn pads_fit(shape: Seq<usize>, pads: Seq<(usize, usize)>) -> bool {
    &&& pads.len() == shape.len()
    &&& forall|d: int| 0 <= d < shape.len() ==> #[trigger] shape[d] + pads[d].0 + pads[d].1 <= usize::MAX
    &&& numel_of(padded_shape(shape, pads)) <= usize::MAX
}

/// Value of output element `f` of the padded tensor: `T::zero()` in the pad
/// region, the source element (through its strides) otherwise.
fn pad_element<T: Numeric>(
    a: &TensorStorage<T>,
    pads: &[(usize, usize)],
    out_shape: &[usize],
    f: usize,
) -> (r: T)
    requires
        a.wf(),
        pads_fit(a.shape@, pads@),
        out_shape@ == padded_shape(a.shape@, pads@),
        f < numel_of(out_shape@),
    ensures
        r == (if pad_inside(a.shape@, pads@, unravel(out_shape@, f as nat)) {
            a.value_at(pad_source(pads@, unravel(out_shape@, f as nat)))
        } else {
            T::spec_zero()
        }),
{
    let ghost c = unravel(out_shape@, f as nat);
    let ghost mc = pad_clamped(a.shape@, pads@, c);
    proof {
        assert(dims_positive(out_shape@));
        lemma_unravel_valid(out_shape@, f as nat);
        assert(valid_index(a.shape@, mc));
        a.lemma_at_in_bounds(mc);
        assert(out_shape@.take(out_shape@.len() as int) =~= out_shape@);
        assert(c.take(c.len() as int) =~= c);
        assert(a.strides@.skip(a.strides@.len() as int) =~= Seq::<usize>::empty());
        assert(mc.skip(mc.len() as int) =~= Seq::<usize>::empty());
    }
    let ndim = a.shape.len();
    let mut flat = f;
    let mut in_flat = a.offset;
    let mut i = ndim;
    while i > 0
        invariant
            a.wf(),
            pads_fit(a.shape@, pads@),
            out_shape@ == padded_shape(a.shape@, pads@),
            ndim == a.shape@.len(),
            dims_positive(out_shape@),
            valid_index(out_shape@, c),
            c == unravel(out_shape@, f as nat),
            mc == pad_clamped(a.shape@, pads@, c),
            valid_index(a.shape@, mc),
            a.offset + dot(a.strides@, mc) < a.buffer@.len(),
            i <= ndim,
            unravel(out_shape@.take(i as int), flat as nat) == c.take(i as int),
            forall|d: int| i <= d < ndim ==> pads@[d].0 <= #[trigger] c[d] < pads@[d].0 + a.shape@[d],
            in_flat == a.offset + dot(a.strides@.skip(i as int), mc.skip(i as int)),
        decreases i,
    {
        i -= 1;
        let (before, _after) = pads[i];
        let dim_size = out_shape[i];
        proof {
            lemma_unravel_take_step(out_shape@, i as int, flat as nat);
            assert(c.take(i + 1).drop_last() =~= c.take(i as int));
            assert(c.take(i + 1).last() == c[i as int]);
            lemma_dot_skip_step(a.strides@, mc, i as int);
            lemma_dot_split(a.strides@, mc, i as int);
        }
        let coord = flat % dim_size;
        flat = flat / dim_size;
        assert(coord == c[i as int]);
        if coord < before || coord - before >= a.shape[i] {
            proof {
                assert(!(pads@[i as int].0 <= c[i as int] < pads@[i as int].0 + a.shape@[i as int]));
                assert(!pad_inside(a.shape@, pads@, c));
            }
            return T::zero();
        }
        proof {
            let mi = (coord - before) as int;
            assert(mi == mc[i as int]);
            let si = a.strides@[i as int] as int;
            assert(mi * si == si * mi) by (nonlinear_arith);
        }
        in_flat = in_flat + (coord - before) * a.strides[i];
    }
    proof {
        assert(a.strides@.skip(0) =~= a.strides@);
        assert(mc.skip(0) =~= mc);
        assert(pad_inside(a.shape@, pads@, c));
        assert(mc =~= pad_source(pads@, c));
    }
    a.buffer[in_flat]
}

impl<T: Numeric> TensorStorage<T> {
    /// Zero-pad every dimension by `pads[d] = (before, after)` elements into a
    /// fresh contiguous storage; padded regions read as `T::zero()`.
    pub fn pad(a: &TensorStorage<T>, pads: &[(usize, usize)]) -> (r: TensorStorage<T>)
        requires
            a.wf(),
            pads_fit(a.shape@, pads@),
        ensures
            r.wf(),
            r.shape@ == padded_shape(a.shape@, pads@),
            r.contiguous,
            r.offset == 0,
            is_canonical(r.shape@, r.strides@),
            forall|idx: Seq<usize>|
                valid_index(r.shape@, idx) ==> #[trigger] r.value_at(idx) == (if pad_inside(
                    a.shape@,
                    pads@,
                    idx,
                ) {
                    a.value_at(pad_source(pads@, idx))
                } else {
                    T::spec_zero()
                }),
    {
        let ghost ps = padded_shape(a.shape@, pads@);
        let ndim = a.shape.len();
        let mut out_shape: Vec<usize> = Vec::with_capacity(ndim);
        let mut d: usize = 0;
        while d < ndim
            invariant
                a.wf(),
                pads_fit(a.shape@, pads@),
                ndim == a.shape@.len(),
                ps == padded_shape(a.shape@, pads@),
                d <= ndim,
                out_shape@ == ps.take(d as int),
            decreases ndim - d,
        {
            let (before, after) = pads[d];
            out_shape.push(a.shape[d] + before + after);
            d += 1;
            assert(out_shape@ =~= ps.take(d as int));
        }
        assert(out_shape@ =~= ps);
        assert(dims_positive(ps));
        let out_numel = compute_numel_from_shape(&out_shape);
        let mut out_buf: Vec<T> = Vec::with_capacity(out_numel);
        let mut f: usize = 0;
        while f < out_numel
            invariant
                a.wf(),
                pads_fit(a.shape@, pads@),
                out_shape@ == ps,
                ps == padded_shape(a.shape@, pads@),
                out_numel == numel_of(ps),
                f <= out_numel,
                out_buf@.len() == f,
                forall|j: int| 0 <= j < f ==> #[trigger] out_buf@[j] == (if pad_inside(
                    a.shape@,
                    pads@,
                    unravel(ps, j as nat),
                ) {
                    a.value_at(pad_source(pads@, unravel(ps, j as nat)))
                } else {
                    T::spec_zero()
                }),
            decreases out_numel - f,
        {
            let v = pad_element(a, pads, out_shape.as_slice(), f);
            out_buf.push(v);
            f += 1;
        }
        let r = TensorStorage::from_buffer(out_shape, out_buf);
        proof {
            assert forall|idx: Seq<usize>| valid_index(r.shape@, idx) implies #[trigger] r.value_at(
                idx,
            ) == (if pad_inside(a.shape@, pads@, idx) {
                a.value_at(pad_source(pads@, idx))
            } else {
                T::spec_zero()
            }) by {
                r.lemma_value_at_ravel(idx);
                lemma_ravel_valid(ps, idx);
            }
        }
        r
    }
}

impl<T: Dtype> TensorStorage<T> {
    /// Stack equally shaped storages along a new leading axis into a fresh
    /// contiguous storage: element `i` of the result is element `i % m` of
    /// part `i / m`, where `m` is the element count of one part.
    pub fn stack(storages: &[&TensorStorage<T>]) -> (r: TensorStorage<T>)
        requires
            storages@.len() > 0,
            forall|k: int| 0 <= k < storages@.len() ==> (#[trigger] storages@[k]).wf(),
            forall|k: int|
                0 <= k < storages@.len() ==> (#[trigger] storages@[k]).shape@ == storages@[0].shape@,
            storages@.len() * storages@[0].numel <= usize::MAX,
        ensures
            r.wf(),
            r.shape@ == seq![storages@.len() as usize] + storages@[0].shape@,
            is_canonical(r.shape@, r.strides@),
            r.contiguous,
            r.offset == 0,
            r.numel == storages@.len() * storages@[0].numel,
            r.elems() == r.buffer@,
            forall|i: int|
                0 <= i < r.numel ==> #[trigger] r.elems()[i] == storages@[i / (storages@[0].numel
                    as int)].elems()[i % (storages@[0].numel as int)],
    {
        let n = storages.len();
        let first = storages[0];
        let m = first.numel;
        let ghost es = first.shape@;
        proof {
            lemma_numel_positive(es);
        }
        let mut out_shape: Vec<usize> = Vec::new();
        out_shape.push(n);
        let mut d: usize = 0;
        while d < first.shape.len()
            invariant
                es == first.shape@,
                d <= es.len(),
                out_shape@ == seq![n] + es.take(d as int),
            decreases es.len() - d,
        {
            out_shape.push(first.shape[d]);
            d += 1;
            assert(out_shape@ =~= seq![n] + es.take(d as int));
        }
        assert(es.take(es.len() as int) =~= es);
        let mut out_buf: Vec<T> = Vec::with_capacity(n * m);
        let mut k: usize = 0;
        while k < n
            invariant
                n == storages@.len(),
                m == storages@[0].numel,
                m >= 1,
                n * m <= usize::MAX,
                forall|q: int| 0 <= q < storages@.len() ==> (#[trigger] storages@[q]).wf(),
                forall|q: int|
                    0 <= q < storages@.len() ==> (#[trigger] storages@[q]).shape@ == storages@[0].shape@,
                k <= n,
                out_buf@.len() == k * m,
                forall|i: int|
                    0 <= i < k * m ==> #[trigger] out_buf@[i] == storages@[i / (m as int)].elems()[i
                        % (m as int)],
            decreases n - k,
        {
            let part = storages[k];
            assert(part.numel == m);
            let v = gather_logical(part);
            proof {
                assert(k * m + m <= n * m) by (nonlinear_arith)
                    requires
                        k < n,
                ;
            }
            let mut j: usize = 0;
            while j < m
                invariant
                    n == storages@.len(),
                    m == storages@[0].numel,
                    m >= 1,
                    k < n,
                    k * m + m <= n * m,
                    n * m <= usize::MAX,
                    part == storages@[k as int],
                    v@ == part.elems(),
                    v@.len() == m,
                    j <= m,
                    out_buf@.len() == k * m + j,
                    forall|i: int|
                        0 <= i < k * m + j ==> #[trigger] out_buf@[i] == storages@[i / (m as int)].elems()[i
                            % (m as int)],
                decreases m - j,
            {
                proof {
                    let i = (k * m + j) as int;
                    vstd::arithmetic::div_mod::lemma_fundamental_div_mod_converse(
                        i,
                        m as int,
                        k as int,
                        j as int,
                    );
                }
                out_buf.push(v[j]);
                j += 1;
            }
            proof {
                assert((k + 1) * m == k * m + m) by (nonlinear_arith);
            }
            k += 1;
        }
        proof {
            let sh = out_shape@;
            crate::storage::layout::lemma_numel_split(sh, 1);
            assert(sh.subrange(0, 1) =~= seq![n]);
            assert(sh.subrange(1, sh.len() as int) =~= es);
            crate::storage::layout::lemma_numel_single(n);
            assert(dims_positive(sh)) by {
                assert forall|q: int| 0 <= q < sh.len() implies #[trigger] sh[q] > 0 by {
                    if q > 0 {
                        assert(sh[q] == es[q - 1]);
                    }
                }
            }
        }
        TensorStorage::from_buffer(out_shape, out_buf)
    }
}

/// Coordinate `idx` of the sliced input lies on the strided window.
pub open spec fn window_hit(ranges: Seq<(usize, usize, usize)>, idx: Seq<usize>) -> bool {
    forall|d: int|
        0 <= d < idx.len() ==> {
            &&& ranges[d].0 <= #[trigger] idx[d]
            &&& (idx[d] - ranges[d].0) % (ranges[d].2 as int) == 0
            &&& (idx[d] - ranges[d].0) / (ranges[d].2 as int) < ranges[d].1
        }
}

/// The window coordinate that reads input coordinate `idx`.
pub open spec fn window_coord(ranges: Seq<(usize, usize, usize)>, idx: Seq<usize>) -> Seq<usize> {
    Seq::new(idx.len(), |d: int| ((idx[d] - ranges[d].0) / (ranges[d].2 as int)) as usize)
}

/// Value of element `p` of the slice gradient once the first `f` window
/// elements have been scattered.
spec fn scattered<T: Numeric>(
    in_shape: Seq<usize>,
    ranges: Seq<(usize, usize, usize)>,
    dy: Seq<T>,
    p: nat,
    f: nat,
) -> T {
    let idx = unravel(in_shape, p);
    let w = ravel(range_lens(ranges), window_coord(ranges, idx));
    if window_hit(ranges, idx) && w < f {
        T::spec_add(T::spec_zero(), dy[w as int])
    } else {
        T::spec_zero()
    }
}

pub proof fn lemma_window_roundtrip(shape: Seq<usize>, ranges: Seq<(usize, usize, usize)>, c: Seq<usize>)
    requires
        windows_fit(shape, ranges),
        valid_index(range_lens(ranges), c),
    ensures
        window_hit(ranges, window_source(ranges, c)),
        window_coord(ranges, window_source(ranges, c)) == c,
{
    let m = window_source(ranges, c);
    assert forall|d: int| 0 <= d < m.len() implies {
        &&& ranges[d].0 <= #[trigger] m[d]
        &&& (m[d] - ranges[d].0) % (ranges[d].2 as int) == 0
        &&& (m[d] - ranges[d].0) / (ranges[d].2 as int) < ranges[d].1
    } by {
        let r = ranges[d];
        assert(c[d] <= r.1 - 1);
        vstd::arithmetic::mul::lemma_mul_inequality(c[d] as int, (r.1 - 1) as int, r.2 as int);
        assert(m[d] == r.0 + c[d] * r.2);
        vstd::arithmetic::div_mod::lemma_fundamental_div_mod_converse(
            (c[d] * r.2) as int,
            r.2 as int,
            c[d] as int,
            0,
        );
    }
    assert(window_coord(ranges, m) =~= c) by {
        assert forall|d: int| 0 <= d < c.len() implies #[trigger] window_coord(ranges, m)[d] == c[d] by {
            let r = ranges[d];
            assert(c[d] <= r.1 - 1);
            vstd::arithmetic::mul::lemma_mul_inequality(c[d] as int, (r.1 - 1) as int, r.2 as int);
            assert(m[d] == r.0 + c[d] * r.2);
            vstd::arithmetic::div_mod::lemma_fundamental_div_mod_converse(
                (c[d] * r.2) as int,
                r.2 as int,
                c[d] as int,
                0,
            );
        }
    }
}

proof fn lemma_window_hit_source(shape: Seq<usize>, ranges: Seq<(usize, usize, usize)>, idx: Seq<usize>)
    requires
        windows_fit(shape, ranges),
        valid_index(shape, idx),
        window_hit(ranges, idx),
    ensures
        valid_index(range_lens(ranges), window_coord(ranges, idx)),
        window_source(ranges, window_coord(ranges, idx)) == idx,
{
    let c = window_coord(ranges, idx);
    assert forall|d: int| 0 <= d < idx.len() implies #[trigger] window_source(ranges, c)[d] == idx[d] by {
        let r = ranges[d];
        let x = idx[d] - r.0;
        assert(r.0 <= idx[d]);
        assert(x % (r.2 as int) == 0);
        vstd::arithmetic::div_mod::lemma_fundamental_div_mod(x as int, r.2 as int);
        let q = x / (r.2 as int);
        assert(q * r.2 == r.2 * q) by (nonlinear_arith);
        assert(c[d] == q);
    }
    assert(window_source(ranges, c) =~= idx);
}

impl<T: Numeric> TensorStorage<T> {
    /// Gradient of `slice_strided`: scatter the upstream gradient `dy` back
    /// onto a zero tensor of the input shape. Input positions on the window
    /// receive `0 + dy` at their window coordinate; all others stay zero.
    pub fn slice_strided_backward(
        dy: &TensorStorage<T>,
        input_shape: &[usize],
        ranges: &[(usize, usize, usize)],
    ) -> (r: TensorStorage<T>)
        requires
            dy.wf(),
            dims_positive(input_shape@),
            numel_of(input_shape@) <= usize::MAX,
            windows_fit(input_shape@, ranges@),
            dy.shape@ == range_lens(ranges@),
        ensures
            r.wf(),
            r.shape@ == input_shape@,
            is_canonical(r.shape@, r.strides@),
            r.contiguous,
            r.offset == 0,
            forall|idx: Seq<usize>|
                valid_index(input_shape@, idx) ==> #[trigger] r.value_at(idx) == (if window_hit(
                    ranges@,
                    idx,
                ) {
                    T::spec_add(T::spec_zero(), dy.value_at(window_coord(ranges@, idx)))
                } else {
                    T::spec_zero()
                }),
    {
        let ghost lens = range_lens(ranges@);
        let ghost ins = input_shape@;
        let n_in = compute_numel_from_shape(input_shape);
        let dyv = gather_logical(dy);
        let mut out_buf: Vec<T> = Vec::with_capacity(n_in);
        let mut p: usize = 0;
        while p < n_in
            invariant
                p <= n_in,
                out_buf@.len() == p,
                forall|q: int| 0 <= q < p ==> #[trigger] out_buf@[q] == T::spec_zero(),
            decreases n_in - p,
        {
            out_buf.push(T::zero());
            p += 1;
        }
        proof {
            assert forall|q: int| 0 <= q < n_in implies #[trigger] out_buf@[q] == scattered(
                ins,
                ranges@,
                dyv@,
                q as nat,
                0,
            ) by {}
        }
        let mut f: usize = 0;
        while f < dy.numel
            invariant
                dy.wf(),
                dims_positive(ins),
                ins == input_shape@,
                numel_of(ins) <= usize::MAX,
                windows_fit(ins, ranges@),
                lens == range_lens(ranges@),
                dy.shape@ == lens,
                n_in == numel_of(ins),
                dyv@ == dy.elems(),
                f <= dy.numel,
                out_buf@.len() == n_in,
                forall|q: int|
                    0 <= q < n_in ==> #[trigger] out_buf@[q] == scattered(ins, ranges@, dyv@, q as nat, f as nat),
            decreases dy.numel - f,
        {
            let c = crate::storage::indexing::unravel_index(dy.shape.as_slice(), f);
            proof {
                lemma_unravel_valid(lens, f as nat);
                lemma_window_source_valid(ins, ranges@, c@);
            }
            let ndim = input_shape.len();
            let mut src: Vec<usize> = Vec::with_capacity(ndim);
            let mut d: usize = 0;
            while d < ndim
                invariant
                    ndim == ins.len(),
                    windows_fit(ins, ranges@),
                    valid_index(lens, c@),
                    lens == range_lens(ranges@),
                    d <= ndim,
                    src@ == window_source(ranges@, c@).take(d as int),
                decreases ndim - d,
            {
                let (start, _length, step) = ranges[d];
                proof {
                    vstd::arithmetic::mul::lemma_mul_inequality(
                        c@[d as int] as int,
                        (ranges@[d as int].1 - 1) as int,
                        step as int,
                    );
                }
                src.push(start + c[d] * step);
                d += 1;
                assert(src@ =~= window_source(ranges@, c@).take(d as int));
            }
            assert(src@ =~= window_source(ranges@, c@));
            let pf = crate::storage::indexing::ravel_index(input_shape, src.as_slice());
            let ghost old_buf = out_buf@;
            let cur = out_buf[pf];
            proof {
                lemma_ravel_valid(ins, src@);
                lemma_window_roundtrip(ins, ranges@, c@);
                assert(ravel(lens, c@) == f);
                assert(cur == T::spec_zero());
            }
            out_buf.set(pf, cur.plus(dyv[f]));
            proof {
                assert forall|q: int| 0 <= q < n_in implies #[trigger] out_buf@[q] == scattered(
                    ins,
                    ranges@,
                    dyv@,
                    q as nat,
                    (f + 1) as nat,
                ) by {
                    let idx = unravel(ins, q as nat);
                    lemma_unravel_valid(ins, q as nat);
                    if q != pf {
                        if window_hit(ranges@, idx) && ravel(lens, window_coord(ranges@, idx)) == f {
                            lemma_window_hit_source(ins, ranges@, idx);
                            lemma_ravel_valid(lens, window_coord(ranges@, idx));
                            assert(window_coord(ranges@, idx) == c@);
                            assert(false);
                        }
                    }
                }
            }
            f += 1;
        }
        let r = TensorStorage::from_buffer(shape_vec(input_shape), out_buf);
        proof {
            assert forall|idx: Seq<usize>| valid_index(input_shape@, idx) implies #[trigger] r.value_at(
                idx,
            ) == (if window_hit(ranges@, idx) {
                T::spec_add(T::spec_zero(), dy.value_at(window_coord(ranges@, idx)))
            } else {
                T::spec_zero()
            }) by {
                r.lemma_value_at_ravel(idx);
                lemma_ravel_valid(ins, idx);
                let q = ravel(ins, idx);
                assert(r.value_at(idx) == out_buf@[q as int]);
                if window_hit(ranges@, idx) {
                    lemma_window_hit_source(ins, ranges@, idx);
                    dy.lemma_value_at_ravel(window_coord(ranges@, idx));
                }
            }
        }
        r
    }
}

} // verus!
