//! Element-wise arithmetic, comparison and logic, and matrix multiplication.
use crate::dtype::{Dtype, Numeric, Signed};
use crate::storage::layout::{dims_positive, is_canonical, numel_of, valid_index};
use crate::storage::TensorStorage;
use vstd::prelude::*;

verus! {

/// `sum_{k < n} x[k] * y[k]`, accumulated left to right from zero.
pub open spec fn sum_products<T: Numeric>(x: Seq<T>, y: Seq<T>, n: nat) -> T
    decreases n,
{
    if n == 0 {
        T::spec_zero()
    } else {
        T::spec_add(sum_products(x, y, (n - 1) as nat), T::spec_mul(x[n - 1], y[n - 1]))
    }
}

/// A freshly allocated row-major storage of `shape` (its elements are the
/// buffer itself).
pub open spec fn fresh_layout<U: Dtype>(r: TensorStorage<U>, shape: Seq<usize>) -> bool {
    &&& r.wf()
    &&& r.shape@ == shape
    &&& is_canonical(shape, r.strides@)
    &&& r.contiguous
    &&& r.offset == 0
    &&& r.numel == numel_of(shape)
    &&& r.elems() == r.buffer@
}

impl<T: Dtype> TensorStorage<T> {
    /// Apply `op` to every logical element, into a fresh contiguous storage.
    /// Contiguous inputs are read at `offset + i`; strided ones through an
    /// odometer walk.
    pub fn apply_unary<U: Dtype, F: Fn(T) -> U>(a: &TensorStorage<T>, op: F) -> (r: TensorStorage<U>)
        requires
            a.wf(),
            forall|i: int| 0 <= i < a.numel ==> #[trigger] op.requires((a.elems()[i],)),
        ensures
            fresh_layout(r, a.shape@),
            forall|i: int| 0 <= i < a.numel ==> op.ensures((a.elems()[i],), #[trigger] r.elems()[i]),
    {
        let n = a.numel;
        let mut out: Vec<U> = Vec::with_capacity(n);
        let mut it = a.strided_indices();
        let mut i: usize = 0;
        while i < n
            invariant
                a.wf(),
                n == a.numel,
                forall|i: int| 0 <= i < a.numel ==> #[trigger] op.requires((a.elems()[i],)),
                i <= n,
                out@.len() == i,
                forall|j: int| 0 <= j < i ==> #[trigger] op.ensures((a.elems()[j],), out@[j]),
                it.inv(),
                it.shape_view() == a.shape@,
                it.strides_view() == a.strides@,
                it.base_offset() == a.offset,
                it.len_view() == a.numel,
                !a.contiguous ==> it.pos() == i,
            decreases n - i,
        {
            proof {
                a.lemma_elem_at(i as nat);
            }
            let x = if a.contiguous {
                assert(crate::storage::layout::strided_offset(a.shape@, a.strides@, i as nat) == i);
                a.buffer[a.offset + i]
            } else {
                match it.next() {
                    Some(f) => a.buffer[f],
                    None => {
                        assert(false);
                        a.buffer[a.offset]
                    },
                }
            };
            out.push(op(x));
            i += 1;
        }
        let r = TensorStorage::from_buffer(a.shape.clone(), out);
        r
    }

    /// Apply `op` pairwise to the logical elements of two equally shaped
    /// storages, into a fresh contiguous storage.
    pub fn apply_binary<U: Dtype, F: Fn(T, T) -> U>(
        a: &TensorStorage<T>,
        b: &TensorStorage<T>,
        op: F,
    ) -> (r: TensorStorage<U>)
        requires
            a.wf(),
            b.wf(),
            a.shape@ == b.shape@,
            forall|i: int| 0 <= i < a.numel ==> #[trigger] op.requires((a.elems()[i], b.elems()[i])),
        ensures
            fresh_layout(r, a.shape@),
            forall|i: int|
                0 <= i < a.numel ==> op.ensures((a.elems()[i], b.elems()[i]), #[trigger] r.elems()[i]),
    {
        let n = a.numel;
        let mut out: Vec<U> = Vec::with_capacity(n);
        let mut ia = a.strided_indices();
        let mut ib = b.strided_indices();
        let mut i: usize = 0;
        while i < n
            invariant
                a.wf(),
                b.wf(),
                a.shape@ == b.shape@,
                n == a.numel,
                n == b.numel,
                forall|i: int| 0 <= i < a.numel ==> #[trigger] op.requires((a.elems()[i], b.elems()[i])),
                i <= n,
                out@.len() == i,
                forall|j: int|
                    0 <= j < i ==> #[trigger] op.ensures((a.elems()[j], b.elems()[j]), out@[j]),
                ia.inv(),
                ia.shape_view() == a.shape@,
                ia.strides_view() == a.strides@,
                ia.base_offset() == a.offset,
                ia.len_view() == a.numel,
                !a.contiguous ==> ia.pos() == i,
                ib.inv(),
                ib.shape_view() == b.shape@,
                ib.strides_view() == b.strides@,
                ib.base_offset() == b.offset,
                ib.len_view() == b.numel,
                !b.contiguous ==> ib.pos() == i,
            decreases n - i,
        {
            proof {
                a.lemma_elem_at(i as nat);
                b.lemma_elem_at(i as nat);
            }
            let x = if a.contiguous {
                assert(crate::storage::layout::strided_offset(a.shape@, a.strides@, i as nat) == i);
                a.buffer[a.offset + i]
            } else {
                match ia.next() {
                    Some(f) => a.buffer[f],
                    None => {
                        assert(false);
                        a.buffer[a.offset]
                    },
                }
            };
            let y = if b.contiguous {
                assert(crate::storage::layout::strided_offset(b.shape@, b.strides@, i as nat) == i);
                b.buffer[b.offset + i]
            } else {
                match ib.next() {
                    Some(f) => b.buffer[f],
                    None => {
                        assert(false);
                        b.buffer[b.offset]
                    },
                }
            };
            out.push(op(x, y));
            i += 1;
        }
        TensorStorage::from_buffer(a.shape.clone(), out)
    }
}

fn add_elem<T: Numeric>(x: T, y: T) -> (z: T)
    ensures
        z == T::spec_add(x, y),
{
    x.plus(y)
}

fn sub_elem<T: Numeric>(x: T, y: T) -> (z: T)
    ensures
        z == T::spec_sub(x, y),
{
    x.minus(y)
}

fn mul_elem<T: Numeric>(x: T, y: T) -> (z: T)
    ensures
        z == T::spec_mul(x, y),
{
    x.times(y)
}

fn div_elem<T: Numeric>(x: T, y: T) -> (z: T)
    requires
        T::div_defined(x, y),
    ensures
        z == T::spec_div(x, y),
{
    x.divide(y)
}

fn rem_elem<T: Numeric>(x: T, y: T) -> (z: T)
    requires
        T::div_defined(x, y),
    ensures
        z == T::spec_rem(x, y),
{
    x.remainder(y)
}

fn max_elem<T: Numeric>(x: T, y: T) -> (z: T)
    ensures
        z == (if T::spec_gt(x, y) {
        x
    } else {
        y
    }),
{
    if x.greater(y) {
        x
    } else {
        y
    }
}

fn gt_elem<T: Numeric>(x: T, y: T) -> (z: bool)
    ensures
        z == T::spec_gt(x, y),
{
    x.greater(y)
}

fn ge_elem<T: Numeric>(x: T, y: T) -> (z: bool)
    ensures
        z == T::spec_ge(x, y),
{
    x.greater_eq(y)
}

fn lt_elem<T: Numeric>(x: T, y: T) -> (z: bool)
    ensures
        z == T::spec_gt(y, x),
{
    y.greater(x)
}

fn le_elem<T: Numeric>(x: T, y: T) -> (z: bool)
    ensures
        z == T::spec_ge(y, x),
{
    y.greater_eq(x)
}

fn neg_elem<T: Signed>(x: T) -> (z: T)
    ensures
        z == T::spec_neg(x),
{
    x.negate()
}

fn abs_elem<T: Signed>(x: T) -> (z: T)
    ensures
        z == T::spec_abs(x),
{
    x.absolute()
}

fn and_elem(x: bool, y: bool) -> (z: bool)
    ensures
        z == (x && y),
{
    x && y
}

fn or_elem(x: bool, y: bool) -> (z: bool)
    ensures
        z == (x || y),
{
    x || y
}

fn not_elem(x: bool) -> (z: bool)
    ensures
        z == !x,
{
    !x
}

impl<T: Numeric> TensorStorage<T> {
    /// Element-wise `a + b` (wrapping for integers).
    pub fn add(operands: &[&TensorStorage<T>; 2]) -> (r: TensorStorage<T>)
        requires
            operands[0].wf(),
            operands[1].wf(),
            operands[0].shape@ == operands[1].shape@,
        ensures
            fresh_layout(r, operands[0].shape@),
            forall|i: int|
                0 <= i < r.numel ==> #[trigger] r.elems()[i] == T::spec_add(operands[0].elems()[i], operands[1].elems()[i]),
    {
        TensorStorage::apply_binary(operands[0], operands[1], add_elem::<T>)
    }

    /// Element-wise `a - b` (wrapping for integers).
    pub fn sub(operands: &[&TensorStorage<T>; 2]) -> (r: TensorStorage<T>)
        requires
            operands[0].wf(),
            operands[1].wf(),
            operands[0].shape@ == operands[1].shape@,
        ensures
            fresh_layout(r, operands[0].shape@),
            forall|i: int|
                0 <= i < r.numel ==> #[trigger] r.elems()[i] == T::spec_sub(operands[0].elems()[i], operands[1].elems()[i]),
    {
        TensorStorage::apply_binary(operands[0], operands[1], sub_elem::<T>)
    }

    /// Element-wise `a * b` (wrapping for integers).
    pub fn mul(operands: &[&TensorStorage<T>; 2]) -> (r: TensorStorage<T>)
        requires
            operands[0].wf(),
            operands[1].wf(),
            operands[0].shape@ == operands[1].shape@,
        ensures
            fresh_layout(r, operands[0].shape@),
            forall|i: int|
                0 <= i < r.numel ==> #[trigger] r.elems()[i] == T::spec_mul(operands[0].elems()[i], operands[1].elems()[i]),
    {
        TensorStorage::apply_binary(operands[0], operands[1], mul_elem::<T>)
    }

    /// Element-wise `a / b`; every divisor must be nonzero and every quotient
    /// representable.
    pub fn div(operands: &[&TensorStorage<T>; 2]) -> (r: TensorStorage<T>)
        requires
            operands[0].wf(),
            operands[1].wf(),
            operands[0].shape@ == operands[1].shape@,
            forall|i: int|
                0 <= i < operands[0].numel ==> #[trigger] T::div_defined(
                    operands[0].elems()[i],
                    operands[1].elems()[i],
                ),
        ensures
            fresh_layout(r, operands[0].shape@),
            forall|i: int|
                0 <= i < r.numel ==> #[trigger] r.elems()[i] == T::spec_div(operands[0].elems()[i], operands[1].elems()[i]),
    {
        TensorStorage::apply_binary(operands[0], operands[1], div_elem::<T>)
    }

    /// Element-wise `a % b`; every divisor must be nonzero and every quotient
    /// representable.
    pub fn modul(operands: &[&TensorStorage<T>; 2]) -> (r: TensorStorage<T>)
        requires
            operands[0].wf(),
            operands[1].wf(),
            operands[0].shape@ == operands[1].shape@,
            forall|i: int|
                0 <= i < operands[0].numel ==> #[trigger] T::div_defined(
                    operands[0].elems()[i],
                    operands[1].elems()[i],
                ),
        ensures
            fresh_layout(r, operands[0].shape@),
            forall|i: int|
                0 <= i < r.numel ==> #[trigger] r.elems()[i] == T::spec_rem(operands[0].elems()[i], operands[1].elems()[i]),
    {
        TensorStorage::apply_binary(operands[0], operands[1], rem_elem::<T>)
    }

    /// Element-wise maximum: `a` where `a > b`, otherwise `b`.
    pub fn maximum(operands: &[&TensorStorage<T>; 2]) -> (r: TensorStorage<T>)
        requires
            operands[0].wf(),
            operands[1].wf(),
            operands[0].shape@ == operands[1].shape@,
        ensures
            fresh_layout(r, operands[0].shape@),
            forall|i: int|
                0 <= i < r.numel ==> #[trigger] r.elems()[i] == (if T::spec_gt(operands[0].elems()[i], operands[1].elems()[i]) {
                    operands[0].elems()[i]
                } else {
                    operands[1].elems()[i]
                }),
    {
        TensorStorage::apply_binary(operands[0], operands[1], max_elem::<T>)
    }

    /// Element-wise `a > b`.
    pub fn gt(operands: &[&TensorStorage<T>; 2]) -> (r: TensorStorage<bool>)
        requires
            operands[0].wf(),
            operands[1].wf(),
            operands[0].shape@ == operands[1].shape@,
        ensures
            fresh_layout(r, operands[0].shape@),
            forall|i: int|
                0 <= i < r.numel ==> #[trigger] r.elems()[i] == T::spec_gt(operands[0].elems()[i], operands[1].elems()[i]),
    {
        TensorStorage::apply_binary(operands[0], operands[1], gt_elem::<T>)
    }

    /// Element-wise `a >= b`.
    pub fn gte(operands: &[&TensorStorage<T>; 2]) -> (r: TensorStorage<bool>)
        requires
            operands[0].wf(),
            operands[1].wf(),
            operands[0].shape@ == operands[1].shape@,
        ensures
            fresh_layout(r, operands[0].shape@),
            forall|i: int|
                0 <= i < r.numel ==> #[trigger] r.elems()[i] == T::spec_ge(operands[0].elems()[i], operands[1].elems()[i]),
    {
        TensorStorage::apply_binary(operands[0], operands[1], ge_elem::<T>)
    }

    /// Element-wise `a < b`.
    pub fn lt(operands: &[&TensorStorage<T>; 2]) -> (r: TensorStorage<bool>)
        requires
            operands[0].wf(),
            operands[1].wf(),
            operands[0].shape@ == operands[1].shape@,
        ensures
            fresh_layout(r, operands[0].shape@),
            forall|i: int|
                0 <= i < r.numel ==> #[trigger] r.elems()[i] == T::spec_gt(operands[1].elems()[i], operands[0].elems()[i]),
    {
        TensorStorage::apply_binary(operands[0], operands[1], lt_elem::<T>)
    }

    /// Element-wise `a <= b`.
    pub fn lte(operands: &[&TensorStorage<T>; 2]) -> (r: TensorStorage<bool>)
        requires
            operands[0].wf(),
            operands[1].wf(),
            operands[0].shape@ == operands[1].shape@,
        ensures
            fresh_layout(r, operands[0].shape@),
            forall|i: int|
                0 <= i < r.numel ==> #[trigger] r.elems()[i] == T::spec_ge(operands[1].elems()[i], operands[0].elems()[i]),
    {
        TensorStorage::apply_binary(operands[0], operands[1], le_elem::<T>)
    }

    /// Fused `a - scale * b`, element-wise.
    pub fn sub_scaled(a: &TensorStorage<T>, b: &TensorStorage<T>, scale: T) -> (r: TensorStorage<T>)
        requires
            a.wf(),
            b.wf(),
            a.shape@ == b.shape@,
        ensures
            fresh_layout(r, a.shape@),
            forall|i: int|
                0 <= i < r.numel ==> #[trigger] r.elems()[i] == T::spec_sub(
                    a.elems()[i],
                    T::spec_mul(scale, b.elems()[i]),
                ),
    {
        let op = |x: T, y: T| -> (z: T)
            ensures
                z == T::spec_sub(x, T::spec_mul(scale, y)),
            { x.minus(scale.times(y)) };
        TensorStorage::apply_binary(a, b, op)
    }
}

impl<T: Signed> TensorStorage<T> {
    /// Element-wise negation (wrapping at the minimum value).
    pub fn neg(operands: &[&TensorStorage<T>; 1]) -> (r: TensorStorage<T>)
        requires
            operands[0].wf(),
        ensures
            fresh_layout(r, operands[0].shape@),
            forall|i: int| 0 <= i < r.numel ==> #[trigger] r.elems()[i] == T::spec_neg(operands[0].elems()[i]),
    {
        TensorStorage::apply_unary(operands[0], neg_elem::<T>)
    }

    /// Element-wise absolute value (wrapping at the minimum value).
    pub fn abs(operands: &[&TensorStorage<T>; 1]) -> (r: TensorStorage<T>)
        requires
            operands[0].wf(),
        ensures
            fresh_layout(r, operands[0].shape@),
            forall|i: int| 0 <= i < r.numel ==> #[trigger] r.elems()[i] == T::spec_abs(operands[0].elems()[i]),
    {
        TensorStorage::apply_unary(operands[0], abs_elem::<T>)
    }
}

impl TensorStorage<bool> {
    /// Element-wise logical and.
    pub fn land(operands: &[&TensorStorage<bool>; 2]) -> (r: TensorStorage<bool>)
        requires
            operands[0].wf(),
            operands[1].wf(),
            operands[0].shape@ == operands[1].shape@,
        ensures
            fresh_layout(r, operands[0].shape@),
            forall|i: int|
                0 <= i < r.numel ==> #[trigger] r.elems()[i] == (operands[0].elems()[i] && operands[1].elems()[i]),
    {
        TensorStorage::apply_binary(operands[0], operands[1], and_elem)
    }

    /// Element-wise logical or.
    pub fn lor(operands: &[&TensorStorage<bool>; 2]) -> (r: TensorStorage<bool>)
        requires
            operands[0].wf(),
            operands[1].wf(),
            operands[0].shape@ == operands[1].shape@,
        ensures
            fresh_layout(r, operands[0].shape@),
            forall|i: int|
                0 <= i < r.numel ==> #[trigger] r.elems()[i] == (operands[0].elems()[i] || operands[1].elems()[i]),
    {
        TensorStorage::apply_binary(operands[0], operands[1], or_elem)
    }

    /// Element-wise logical not.
    pub fn lnot(operands: &[&TensorStorage<bool>; 1]) -> (r: TensorStorage<bool>)
        requires
            operands[0].wf(),
        ensures
            fresh_layout(r, operands[0].shape@),
            forall|i: int| 0 <= i < r.numel ==> #[trigger] r.elems()[i] == !operands[0].elems()[i],
    {
        TensorStorage::apply_unary(operands[0], not_elem)
    }
}

/// Entry `(i, j)` of a matrix.
pub open spec fn mat_at<T: Dtype>(a: TensorStorage<T>, i: usize, j: usize) -> T {
    a.value_at(seq![i, j])
}

/// Row `i` of matrix `a`.
pub open spec fn mat_row<T: Dtype>(a: TensorStorage<T>, i: usize) -> Seq<T> {
    Seq::new(a.shape@[1] as nat, |t: int| a.value_at(seq![i, t as usize]))
}

/// Column `j` of matrix `b`.
pub open spec fn mat_col<T: Dtype>(b: TensorStorage<T>, j: usize) -> Seq<T> {
    Seq::new(b.shape@[0] as nat, |t: int| b.value_at(seq![t as usize, j]))
}

/// Entry `(i, j)` of the product `a b`: the inner products accumulated in
/// increasing inner index from zero.
pub open spec fn matmul_entry<T: Numeric>(a: TensorStorage<T>, b: TensorStorage<T>, i: usize, j: usize) -> T {
    sum_products(mat_row(a, i), mat_col(b, j), a.shape@[1] as nat)
}

/// In a fresh row-major matrix, entry `(i, j)` sits at flat position
/// `i * n + j`.
pub proof fn lemma_fresh_at2<U: Dtype>(r: TensorStorage<U>, i: usize, j: usize)
    requires
        r.wf(),
        r.shape@.len() == 2,
        is_canonical(r.shape@, r.strides@),
        r.offset == 0,
        i < r.shape@[0],
        j < r.shape@[1],
    ensures
        r.value_at(seq![i, j]) == r.buffer@[i * r.shape@[1] + j],
        i * r.shape@[1] + j < r.numel,
{
    let sh = r.shape@;
    crate::storage::indexing::lemma_dot2(r.strides@, seq![i, j]);
    assert(sh.subrange(1, 2) =~= seq![sh[1]]);
    assert(sh.subrange(2, 2) =~= Seq::<usize>::empty());
    crate::storage::layout::lemma_numel_single(sh[1]);
    assert(r.strides@[0] == sh[1]);
    assert(r.strides@[1] == 1);
    r.lemma_value_at_ravel(seq![i, j]);
    assert(sh.drop_last() =~= seq![sh[0]]);
    crate::storage::layout::lemma_numel_single(sh[0]);
    assert(i * sh[1] + j < sh[0] * sh[1]) by (nonlinear_arith)
        requires
            i < sh[0],
            j < sh[1],
    ;
    assert(sh[1] * i == i * sh[1]) by (nonlinear_arith);
}

impl<T: Numeric> TensorStorage<T> {
    /// Matrix product of an `[m, k]` and a `[k, n]` storage into a fresh
    /// `[m, n]` storage. Each entry accumulates its inner products in
    /// increasing `k` from zero, whatever the operands' strides.
    pub fn matmul(a: &TensorStorage<T>, b: &TensorStorage<T>) -> (r: TensorStorage<T>)
        requires
            a.wf(),
            b.wf(),
            a.shape@.len() == 2,
            b.shape@.len() == 2,
            a.shape@[1] == b.shape@[0],
            a.shape@[0] * b.shape@[1] <= usize::MAX,
        ensures
            fresh_layout(r, seq![a.shape@[0], b.shape@[1]]),
            forall|i: usize, j: usize|
                i < a.shape@[0] && j < b.shape@[1] ==> #[trigger] mat_at(r, i, j) == matmul_entry(
                    *a,
                    *b,
                    i,
                    j,
                ),
    {
        let m = a.shape[0];
        let kd = a.shape[1];
        let n = b.shape[1];
        let mut out: Vec<T> = Vec::with_capacity(m * n);
        let mut i: usize = 0;
        while i < m
            invariant
                a.wf(),
                b.wf(),
                a.shape@.len() == 2,
                b.shape@.len() == 2,
                m == a.shape@[0],
                kd == a.shape@[1],
                kd == b.shape@[0],
                n == b.shape@[1],
                m * n <= usize::MAX,
                i <= m,
                out@.len() == i * n,
                forall|p: usize, q: usize|
                    p < i && q < n ==> #[trigger] out@[p * n + q] == matmul_entry(*a, *b, p, q),
            decreases m - i,
        {
            let mut j: usize = 0;
            while j < n
                invariant
                    a.wf(),
                    b.wf(),
                    a.shape@.len() == 2,
                    b.shape@.len() == 2,
                    m == a.shape@[0],
                    kd == a.shape@[1],
                    kd == b.shape@[0],
                    n == b.shape@[1],
                    m * n <= usize::MAX,
                    i < m,
                    j <= n,
                    out@.len() == i * n + j,
                    forall|p: usize, q: usize|
                        (p < i && q < n) || (p == i && q < j) ==> #[trigger] out@[p * n + q]
                            == matmul_entry(*a, *b, p, q),
                decreases n - j,
            {
                let mut sum = T::zero();
                let mut kk: usize = 0;
                while kk < kd
                    invariant
                        a.wf(),
                        b.wf(),
                        a.shape@.len() == 2,
                        b.shape@.len() == 2,
                        m == a.shape@[0],
                        kd == a.shape@[1],
                        kd == b.shape@[0],
                        n == b.shape@[1],
                        i < m,
                        j < n,
                        kk <= kd,
                        sum == sum_products(mat_row(*a, i), mat_col(*b, j), kk as nat),
                    decreases kd - kk,
                {
                    let x = a.at2(i, kk);
                    let y = b.at2(kk, j);
                    sum = sum.plus(x.times(y));
                    kk += 1;
                }
                proof {
                    assert((i * n + j) + 1 <= m * n) by (nonlinear_arith)
                        requires
                            i < m,
                            j < n,
                    ;
                }
                out.push(sum);
                proof {
                    assert forall|p: usize, q: usize|
                        (p < i && q < n) || (p == i && q < j + 1) implies #[trigger] out@[p * n + q]
                            == matmul_entry(*a, *b, p, q) by {
                        if p < i {
                            assert(p * n + q < i * n) by (nonlinear_arith)
                                requires
                                    p < i,
                                    q < n,
                            ;
                        }
                    }
                }
                j += 1;
            }
            proof {
                assert((i + 1) * n == i * n + n) by (nonlinear_arith);
            }
            i += 1;
        }
        let out_shape = vec![m, n];
        proof {
            assert(out_shape@ =~= seq![m, n]);
            assert(out_shape@.drop_last() =~= seq![m]);
            crate::storage::layout::lemma_numel_single(m);
            assert(numel_of(out_shape@) == m * n);
        }
        let r = TensorStorage::from_buffer(out_shape, out);
        proof {
            assert forall|i: usize, j: usize|
                i < a.shape@[0] && j < b.shape@[1] implies #[trigger] mat_at(r, i, j) == matmul_entry(
                    *a,
                    *b,
                    i,
                    j,
                ) by {
                lemma_fresh_at2(r, i, j);
            }
        }
        r
    }
}

} // verus!
