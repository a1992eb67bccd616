//! Reductions over dimensions (sum, maximum, argmax) and one-hot encoding.
use crate::dtype::{Dtype, Numeric, OneHotLabel};
use crate::storage::indexing::unravel_index;
use crate::storage::layout::{
    dims_positive, is_canonical, lemma_numel_positive, lemma_ravel_valid, lemma_unravel_valid,
    numel_of, ravel, strided_offset, unravel, valid_index,
};
use crate::storage::ops::dims::{
    all_dims, dims_in_range, kept_shape, lemma_count_below_full, lemma_full_dims, lemma_part_len,
    lemma_part_numel, lemma_reduce_all, merge_index, merged, no_duplicates, part_shape_vec,
    reduced_shape, resolve_dims, resolved_dims,
};
use crate::storage::ops::math::fresh_layout;
use crate::storage::ops::shape::strictly_increasing;
use crate::storage::{compute_numel_from_shape, TensorStorage};
use vstd::prelude::*;

verus! {

/// The elements of `a` that reduce into kept coordinate `oc`, in row-major
/// order over the reduced dimensions.
pub open spec fn slice_values<T: Dtype>(a: TensorStorage<T>, dims: Seq<usize>, oc: Seq<usize>) -> Seq<T> {
    let red = reduced_shape(a.shape@, dims);
    Seq::new(
        numel_of(red),
        |t: int| a.value_at(merged(dims, a.shape@.len(), oc, unravel(red, t as nat))),
    )
}

/// Left-to-right sum seeded with the first element.
pub open spec fn fold_sum<T: Numeric>(s: Seq<T>) -> T
    decreases s.len(),
{
    if s.len() <= 1 {
        s[0]
    } else {
        T::spec_add(fold_sum(s.drop_last()), s.last())
    }
}

/// Left-to-right maximum seeded with the first element; a later element
/// replaces the running maximum only when strictly greater.
pub open spec fn fold_max<T: Numeric>(s: Seq<T>) -> T
    decreases s.len(),
{
    if s.len() <= 1 {
        s[0]
    } else {
        let m = fold_max(s.drop_last());
        if T::spec_gt(s.last(), m) {
            s.last()
        } else {
            m
        }
    }
}

/// Position of the first maximal element.
pub open spec fn first_argmax<T: Numeric>(s: Seq<T>) -> nat
    decreases s.len(),
{
    if s.len() <= 1 {
        0
    } else {
        let i = first_argmax(s.drop_last());
        if T::spec_gt(s.last(), s[i as int]) {
            (s.len() - 1) as nat
        } else {
            i
        }
    }
}

/// The shapes of a reduction of `a` over `dims` are positive and fit.
proof fn lemma_reduction_shapes<T: Dtype>(a: TensorStorage<T>, dims: Seq<usize>)
    requires
        a.wf(),
        a.numel <= usize::MAX,
        a.shape@.len() <= usize::MAX,
        strictly_increasing(dims),
        dims_in_range(dims, a.shape@.len()),
    ensures
        dims_positive(kept_shape(a.shape@, dims)),
        dims_positive(reduced_shape(a.shape@, dims)),
        numel_of(kept_shape(a.shape@, dims)) <= usize::MAX,
        numel_of(reduced_shape(a.shape@, dims)) <= usize::MAX,
        kept_shape(a.shape@, dims).len() == a.shape@.len() - dims.len(),
        reduced_shape(a.shape@, dims).len() == dims.len(),
{
    let n = a.shape@.len();
    lemma_part_numel(a.shape@, dims, n, true);
    lemma_part_numel(a.shape@, dims, n, false);
    assert(a.shape@.take(n as int) =~= a.shape@);
    lemma_part_len(a.shape@, dims, n, true);
    lemma_part_len(a.shape@, dims, n, false);
    lemma_count_below_full(dims, n);
}

/// Element `t` of the slice of `a` reducing into `oc`.
fn slice_value<T: Dtype>(
    a: &TensorStorage<T>,
    dims: &[usize],
    red: &[usize],
    oc: &[usize],
    t: usize,
) -> (v: T)
    requires
        a.wf(),
        strictly_increasing(dims@),
        dims_in_range(dims@, a.shape@.len()),
        red@ == reduced_shape(a.shape@, dims@),
        dims_positive(red@),
        red@.len() == dims@.len(),
        oc@.len() == a.shape@.len() - dims@.len(),
        valid_index(kept_shape(a.shape@, dims@), oc@),
        t < numel_of(red@),
    ensures
        v == slice_values(*a, dims@, oc@)[t as int],
{
    let rc = unravel_index(red, t);
    proof {
        lemma_unravel_valid(red@, t as nat);
    }
    let idx = merge_index(dims, a.shape.len(), oc, rc.as_slice());
    proof {
        crate::storage::ops::dims::lemma_merged_valid(a.shape@, dims@, oc@, rc@);
    }
    a.at(idx.as_slice())
}

impl<T: Numeric> TensorStorage<T> {
    /// Reduce every slice over the (sorted) `dims` with a left fold seeded by
    /// the slice's first element: a sum when `sum`, a maximum otherwise.
    fn reduce_fold(a: &TensorStorage<T>, dims: &[usize], sum: bool) -> (r: TensorStorage<T>)
        requires
            a.wf(),
            strictly_increasing(dims@),
            dims_in_range(dims@, a.shape@.len()),
        ensures
            fresh_layout(r, kept_shape(a.shape@, dims@)),
            forall|oc: Seq<usize>|
                valid_index(kept_shape(a.shape@, dims@), oc) ==> #[trigger] r.value_at(oc) == (if sum {
                    fold_sum(slice_values(*a, dims@, oc))
                } else {
                    fold_max(slice_values(*a, dims@, oc))
                }),
    {
        let n = a.shape.len();
        let out_shape = part_shape_vec(a.shape.as_slice(), dims, true);
        let red = part_shape_vec(a.shape.as_slice(), dims, false);
        proof {
            lemma_reduction_shapes(*a, dims@);
        }
        let out_numel = compute_numel_from_shape(out_shape.as_slice());
        let rn = compute_numel_from_shape(red.as_slice());
        proof {
            lemma_numel_positive(red@);
        }
        let mut out: Vec<T> = Vec::with_capacity(out_numel);
        let mut o: usize = 0;
        while o < out_numel
            invariant
                a.wf(),
                n == a.shape@.len(),
                strictly_increasing(dims@),
                dims_in_range(dims@, a.shape@.len()),
                out_shape@ == kept_shape(a.shape@, dims@),
                red@ == reduced_shape(a.shape@, dims@),
                dims_positive(out_shape@),
                dims_positive(red@),
                out_shape@.len() == a.shape@.len() - dims@.len(),
                red@.len() == dims@.len(),
                out_numel == numel_of(out_shape@),
                rn == numel_of(red@),
                rn >= 1,
                o <= out_numel,
                out@.len() == o,
                forall|q: int|
                    0 <= q < o ==> #[trigger] out@[q] == (if sum {
                        fold_sum(slice_values(*a, dims@, unravel(out_shape@, q as nat)))
                    } else {
                        fold_max(slice_values(*a, dims@, unravel(out_shape@, q as nat)))
                    }),
            decreases out_numel - o,
        {
            let oc = unravel_index(out_shape.as_slice(), o);
            proof {
                lemma_unravel_valid(out_shape@, o as nat);
            }
            let ghost vals = slice_values(*a, dims@, oc@);
            let mut acc = slice_value(a, dims, red.as_slice(), oc.as_slice(), 0);
            proof {
                assert(vals.take(1).len() == 1);
            }
            let mut t: usize = 1;
            while t < rn
                invariant
                    a.wf(),
                    strictly_increasing(dims@),
                    dims_in_range(dims@, a.shape@.len()),
                    red@ == reduced_shape(a.shape@, dims@),
                    dims_positive(red@),
                    red@.len() == dims@.len(),
                    oc@.len() == a.shape@.len() - dims@.len(),
                    valid_index(kept_shape(a.shape@, dims@), oc@),
                    vals == slice_values(*a, dims@, oc@),
                    rn == numel_of(red@),
                    1 <= t <= rn,
                    acc == (if sum {
                        fold_sum(vals.take(t as int))
                    } else {
                        fold_max(vals.take(t as int))
                    }),
                decreases rn - t,
            {
                let v = slice_value(a, dims, red.as_slice(), oc.as_slice(), t);
                proof {
                    assert(vals.take(t + 1).drop_last() =~= vals.take(t as int));
                    assert(vals.take(t + 1).last() == vals[t as int]);
                }
                if sum {
                    acc = acc.plus(v);
                } else if v.greater(acc) {
                    acc = v;
                }
                t += 1;
            }
            proof {
                assert(vals.take(rn as int) =~= vals);
            }
            out.push(acc);
            o += 1;
        }
        let r = TensorStorage::from_buffer(out_shape, out);
        proof {
            assert forall|oc: Seq<usize>| valid_index(kept_shape(a.shape@, dims@), oc) implies #[trigger] r.value_at(
                oc,
            ) == (if sum {
                fold_sum(slice_values(*a, dims@, oc))
            } else {
                fold_max(slice_values(*a, dims@, oc))
            }) by {
                r.lemma_value_at_ravel(oc);
                lemma_ravel_valid(r.shape@, oc);
            }
        }
        r
    }

    /// Sum over every element, in row-major order, into a scalar `[]`.
    pub fn sum_all(a: &TensorStorage<T>) -> (r: TensorStorage<T>)
        requires
            a.wf(),
        ensures
            fresh_layout(r, Seq::<usize>::empty()),
            r.value_at(Seq::<usize>::empty()) == fold_sum(a.elems()),
    {
        proof {
            lemma_numel_positive(a.shape@);
        }
        if a.contiguous {
            let mut acc = T::zero();
            let mut i: usize = 0;
            while i < a.numel
                invariant
                    a.wf(),
                    a.contiguous,
                    i <= a.numel,
                    i == 0 ==> acc == T::spec_zero(),
                    i > 0 ==> acc == fold_sum(a.elems().take(i as int)),
                decreases a.numel - i,
            {
                proof {
                    a.lemma_elem_at(i as nat);
                    assert(strided_offset(a.shape@, a.strides@, i as nat) == i);
                    assert(a.elems().take(i + 1).drop_last() =~= a.elems().take(i as int));
                    if i == 0 {
                        T::lemma_add_zero(a.elems()[0]);
                    }
                }
                acc = acc.plus(a.buffer[a.offset + i]);
                i += 1;
            }
            proof {
                assert(a.elems().take(a.numel as int) =~= a.elems());
            }
            let r = TensorStorage::from_buffer(Vec::new(), vec![acc]);
            proof {
                lemma_scalar_value(r);
            }
            r
        } else {
            let dims = all_dims_vec(a.shape.len());
            let r = Self::reduce_fold(a, dims.as_slice(), true);
            proof {
                lemma_all_slice(*a);
            }
            r
        }
    }

    /// Maximum over every element, in row-major order, into a scalar `[]`.
    pub fn max_all(a: &TensorStorage<T>) -> (r: TensorStorage<T>)
        requires
            a.wf(),
        ensures
            fresh_layout(r, Seq::<usize>::empty()),
            r.value_at(Seq::<usize>::empty()) == fold_max(a.elems()),
    {
        proof {
            lemma_numel_positive(a.shape@);
        }
        if a.contiguous {
            proof {
                a.lemma_elem_at(0);
                assert(strided_offset(a.shape@, a.strides@, 0) == 0);
            }
            let mut acc = a.buffer[a.offset];
            let mut i: usize = 1;
            while i < a.numel
                invariant
                    a.wf(),
                    a.contiguous,
                    1 <= i <= a.numel,
                    acc == fold_max(a.elems().take(i as int)),
                decreases a.numel - i,
            {
                proof {
                    a.lemma_elem_at(i as nat);
                    assert(strided_offset(a.shape@, a.strides@, i as nat) == i);
                    assert(a.elems().take(i + 1).drop_last() =~= a.elems().take(i as int));
                }
                let v = a.buffer[a.offset + i];
                if v.greater(acc) {
                    acc = v;
                }
                i += 1;
            }
            proof {
                assert(a.elems().take(a.numel as int) =~= a.elems());
            }
            let r = TensorStorage::from_buffer(Vec::new(), vec![acc]);
            proof {
                lemma_scalar_value(r);
            }
            r
        } else {
            let dims = all_dims_vec(a.shape.len());
            let r = Self::reduce_fold(a, dims.as_slice(), false);
            proof {
                lemma_all_slice(*a);
            }
            r
        }
    }

    /// Sum over `dims` (every dimension when empty), removing them; each
    /// slice is summed left to right in row-major order of the reduced
    /// dimensions, seeded with its first element.
    pub fn sum(a: &TensorStorage<T>, dims: &[usize]) -> (r: TensorStorage<T>)
        requires
            a.wf(),
            dims_in_range(dims@, a.shape@.len()),
            no_duplicates(dims@),
        ensures
            fresh_layout(r, kept_shape(a.shape@, resolved_dims(dims@, a.shape@.len()))),
            forall|oc: Seq<usize>|
                valid_index(r.shape@, oc) ==> #[trigger] r.value_at(oc) == fold_sum(
                    slice_values(*a, resolved_dims(dims@, a.shape@.len()), oc),
                ),
    {
        let d = resolve_dims(dims, a.shape.as_slice());
        if d.len() == a.shape.len() {
            let r = Self::sum_all(a);
            proof {
                lemma_full_dims(d@, a.shape@.len());
                lemma_all_slice(*a);
                lemma_reduce_all(a.shape@, a.shape@);
                assert forall|oc: Seq<usize>| valid_index(r.shape@, oc) implies #[trigger] r.value_at(oc)
                    == fold_sum(slice_values(*a, resolved_dims(dims@, a.shape@.len()), oc)) by {
                    assert(oc =~= Seq::<usize>::empty());
                }
            }
            r
        } else {
            Self::reduce_fold(a, d.as_slice(), true)
        }
    }

    /// Maximum over `dims` (every dimension when empty), removing them; ties
    /// keep the earliest value.
    pub fn max(a: &TensorStorage<T>, dims: &[usize]) -> (r: TensorStorage<T>)
        requires
            a.wf(),
            dims_in_range(dims@, a.shape@.len()),
            no_duplicates(dims@),
        ensures
            fresh_layout(r, kept_shape(a.shape@, resolved_dims(dims@, a.shape@.len()))),
            forall|oc: Seq<usize>|
                valid_index(r.shape@, oc) ==> #[trigger] r.value_at(oc) == fold_max(
                    slice_values(*a, resolved_dims(dims@, a.shape@.len()), oc),
                ),
    {
        let d = resolve_dims(dims, a.shape.as_slice());
        if d.len() == a.shape.len() {
            let r = Self::max_all(a);
            proof {
                lemma_full_dims(d@, a.shape@.len());
                lemma_all_slice(*a);
                lemma_reduce_all(a.shape@, a.shape@);
                assert forall|oc: Seq<usize>| valid_index(r.shape@, oc) implies #[trigger] r.value_at(oc)
                    == fold_max(slice_values(*a, resolved_dims(dims@, a.shape@.len()), oc)) by {
                    assert(oc =~= Seq::<usize>::empty());
                }
            }
            r
        } else {
            Self::reduce_fold(a, d.as_slice(), false)
        }
    }

    /// Index of the first maximal element of every slice along `dim`, with
    /// `dim` removed.
    pub fn argmax(a: &TensorStorage<T>, dim: usize) -> (r: TensorStorage<u64>)
        requires
            a.wf(),
            dim < a.shape@.len(),
        ensures
            fresh_layout(r, kept_shape(a.shape@, seq![dim])),
            forall|oc: Seq<usize>|
                valid_index(r.shape@, oc) ==> #[trigger] r.value_at(oc) == first_argmax(
                    slice_values(*a, seq![dim], oc),
                ),
    {
        let n = a.shape.len();
        let dims = vec![dim];
        let ghost ds = seq![dim];
        proof {
            assert(dims@ =~= ds);
            lemma_reduction_shapes(*a, ds);
        }
        let out_shape = part_shape_vec(a.shape.as_slice(), dims.as_slice(), true);
        let red = part_shape_vec(a.shape.as_slice(), dims.as_slice(), false);
        let out_numel = compute_numel_from_shape(out_shape.as_slice());
        let rn = compute_numel_from_shape(red.as_slice());
        proof {
            lemma_numel_positive(red@);
        }
        let mut out: Vec<u64> = Vec::with_capacity(out_numel);
        let mut o: usize = 0;
        while o < out_numel
            invariant
                a.wf(),
                dims@ == ds,
                ds == seq![dim],
                dim < a.shape@.len(),
                strictly_increasing(ds),
                dims_in_range(ds, a.shape@.len()),
                out_shape@ == kept_shape(a.shape@, ds),
                red@ == reduced_shape(a.shape@, ds),
                dims_positive(out_shape@),
                dims_positive(red@),
                out_shape@.len() == a.shape@.len() - 1,
                red@.len() == 1,
                out_numel == numel_of(out_shape@),
                rn == numel_of(red@),
                rn >= 1,
                rn <= usize::MAX,
                o <= out_numel,
                out@.len() == o,
                forall|q: int|
                    0 <= q < o ==> #[trigger] out@[q] == first_argmax(
                        slice_values(*a, ds, unravel(out_shape@, q as nat)),
                    ),
            decreases out_numel - o,
        {
            let oc = unravel_index(out_shape.as_slice(), o);
            proof {
                lemma_unravel_valid(out_shape@, o as nat);
            }
            let ghost vals = slice_values(*a, ds, oc@);
            let mut best = slice_value(a, dims.as_slice(), red.as_slice(), oc.as_slice(), 0);
            let mut best_i: usize = 0;
            let mut t: usize = 1;
            while t < rn
                invariant
                    a.wf(),
                    dims@ == ds,
                    ds == seq![dim],
                    strictly_increasing(ds),
                    dims_in_range(ds, a.shape@.len()),
                    red@ == reduced_shape(a.shape@, ds),
                    dims_positive(red@),
                    red@.len() == 1,
                    oc@.len() == a.shape@.len() - 1,
                    valid_index(kept_shape(a.shape@, ds), oc@),
                    vals == slice_values(*a, ds, oc@),
                    rn == numel_of(red@),
                    1 <= t <= rn,
                    best_i == first_argmax(vals.take(t as int)),
                    best_i < t,
                    best == vals[best_i as int],
                decreases rn - t,
            {
                let v = slice_value(a, dims.as_slice(), red.as_slice(), oc.as_slice(), t);
                proof {
                    let s = vals.take(t + 1);
                    assert(s.drop_last() =~= vals.take(t as int));
                    assert(s.last() == vals[t as int]);
                    assert(s[best_i as int] == vals[best_i as int]);
                }
                if v.greater(best) {
                    best = v;
                    best_i = t;
                }
                t += 1;
            }
            proof {
                assert(vals.take(rn as int) =~= vals);
            }
            out.push(best_i as u64);
            o += 1;
        }
        let r = TensorStorage::from_buffer(out_shape, out);
        proof {
            assert forall|oc: Seq<usize>| valid_index(r.shape@, oc) implies #[trigger] r.value_at(oc)
                == first_argmax(slice_values(*a, seq![dim], oc)) by {
                r.lemma_value_at_ravel(oc);
                lemma_ravel_valid(r.shape@, oc);
            }
        }
        r
    }
}

impl<T: OneHotLabel> TensorStorage<T> {
    /// One-hot encode the labels of `source` into a fresh storage of shape
    /// `source.shape ++ [num_classes]`: element `i * num_classes + c` is one
    /// exactly when logical element `i` denotes class `c`.
    pub fn one_hot<U: Numeric>(source: &TensorStorage<T>, num_classes: usize) -> (r: TensorStorage<U>)
        requires
            source.wf(),
            forall|i: int|
                0 <= i < source.numel ==> T::is_label(#[trigger] source.elems()[i]) && T::spec_class(
                    source.elems()[i],
                ) < num_classes,
            source.numel * num_classes <= usize::MAX,
        ensures
            fresh_layout(r, source.shape@.push(num_classes)),
            forall|i: int, c: int|
                0 <= i < source.numel && 0 <= c < num_classes ==> #[trigger] r.elems()[i * num_classes + c]
                    == (if T::spec_class(source.elems()[i]) == c {
                    U::spec_one()
                } else {
                    U::spec_zero()
                }),
    {
        proof {
            lemma_numel_positive(source.shape@);
            source.lemma_elem_at(0);
        }
        let n = source.numel;
        let mut labels: Vec<usize> = Vec::with_capacity(n);
        let mut it = source.strided_indices();
        let mut i: usize = 0;
        while i < n
            invariant
                source.wf(),
                n == source.numel,
                forall|i: int|
                    0 <= i < source.numel ==> T::is_label(#[trigger] source.elems()[i]) && T::spec_class(
                        source.elems()[i],
                    ) < num_classes,
                it.inv(),
                it.shape_view() == source.shape@,
                it.strides_view() == source.strides@,
                it.base_offset() == source.offset,
                it.len_view() == source.numel,
                it.pos() == i,
                i <= n,
                labels@.len() == i,
                forall|j: int| 0 <= j < i ==> #[trigger] labels@[j] == T::spec_class(source.elems()[j]),
            decreases n - i,
        {
            proof {
                source.lemma_elem_at(i as nat);
            }
            let f = it.next();
            match f {
                Some(f) => {
                    let cls = source.buffer[f].as_class();
                    labels.push(cls);
                },
                None => {
                    assert(false);
                },
            }
            i += 1;
        }
        assert(num_classes > 0);
        let total = n * num_classes;
        let mut out: Vec<U> = Vec::with_capacity(total);
        let mut f: usize = 0;
        while f < total
            invariant
                n == source.numel,
                num_classes > 0,
                total == n * num_classes,
                labels@.len() == n,
                forall|j: int| 0 <= j < n ==> #[trigger] labels@[j] == T::spec_class(source.elems()[j]),
                f <= total,
                out@.len() == f,
                forall|q: int|
                    0 <= q < f ==> #[trigger] out@[q] == (if labels@[q / (num_classes as int)] == q
                        % (num_classes as int) {
                        U::spec_one()
                    } else {
                        U::spec_zero()
                    }),
            decreases total - f,
        {
            proof {
                vstd::arithmetic::div_mod::lemma_fundamental_div_mod(f as int, num_classes as int);
                assert(f / num_classes < n) by (nonlinear_arith)
                    requires
                        f < n * num_classes,
                        num_classes > 0,
                        f == num_classes * (f / num_classes) + f % num_classes,
                        f % num_classes >= 0,
                ;
            }
            let v = if labels[f / num_classes] == f % num_classes {
                U::one()
            } else {
                U::zero()
            };
            out.push(v);
            f += 1;
        }
        let mut out_shape = source.shape.clone();
        out_shape.push(num_classes);
        proof {
            assert(out_shape@.drop_last() =~= source.shape@);
            assert(dims_positive(out_shape@)) by {
                assert forall|k: int| 0 <= k < out_shape@.len() implies #[trigger] out_shape@[k] > 0 by {
                    if k < source.shape@.len() {
                        assert(out_shape@[k] == source.shape@[k]);
                    }
                }
            }
        }
        let r = TensorStorage::from_buffer(out_shape, out);
        proof {
            assert forall|i: int, c: int|
                0 <= i < source.numel && 0 <= c < num_classes implies #[trigger] r.elems()[i * num_classes + c]
                == (if T::spec_class(source.elems()[i]) == c {
                U::spec_one()
            } else {
                U::spec_zero()
            }) by {
                let q = i * num_classes + c;
                assert(q < total) by (nonlinear_arith)
                    requires
                        i < n,
                        c < num_classes,
                        q == i * num_classes + c,
                        total == n * num_classes,
                ;
                vstd::arithmetic::div_mod::lemma_fundamental_div_mod_converse(
                    q,
                    num_classes as int,
                    i,
                    c,
                );
            }
        }
        r
    }
}

/// Every dimension index `0..n`, in order.
fn all_dims_vec(n: usize) -> (r: Vec<usize>)
    ensures
        r@ == all_dims(n as nat),
{
    let mut v: Vec<usize> = Vec::with_capacity(n);
    let mut i: usize = 0;
    while i < n
        invariant
            i <= n,
            v@ == all_dims(i as nat),
        decreases n - i,
    {
        v.push(i);
        i += 1;
        assert(v@ =~= all_dims(i as nat));
    }
    v
}

/// A fresh scalar holds its single buffer value.
proof fn lemma_scalar_value<U: Dtype>(r: TensorStorage<U>)
    requires
        r.wf(),
        r.shape@ == Seq::<usize>::empty(),
        r.offset == 0,
    ensures
        r.value_at(Seq::<usize>::empty()) == r.buffer@[0],
{
}

/// Reducing over every dimension keeps the empty coordinate, and its slice
/// is the whole tensor in row-major order.
pub proof fn lemma_all_slice<T: Dtype>(a: TensorStorage<T>)
    requires
        a.wf(),
        a.shape@.len() <= usize::MAX,
    ensures
        kept_shape(a.shape@, all_dims(a.shape@.len())) == Seq::<usize>::empty(),
        slice_values(a, all_dims(a.shape@.len()), Seq::<usize>::empty()) == a.elems(),
        strictly_increasing(all_dims(a.shape@.len())),
        dims_in_range(all_dims(a.shape@.len()), a.shape@.len()),
{
    let n = a.shape@.len();
    lemma_reduce_all(a.shape@, a.shape@);
    let sv = slice_values(a, all_dims(n), Seq::<usize>::empty());
    assert forall|t: int| 0 <= t < a.numel implies #[trigger] sv[t] == a.elems()[t] by {
        a.lemma_elem_at(t as nat);
        lemma_unravel_valid(a.shape@, t as nat);
        lemma_reduce_all(a.shape@, unravel(a.shape@, t as nat));
    }
    assert(sv =~= a.elems());
}

} // verus!
