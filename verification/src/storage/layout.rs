//! Mathematical model of a strided tensor layout: shapes, row-major logical
//! indices, multi-dimensional coordinates and the flat buffer offsets that a
//! stride vector assigns to them.
use vstd::arithmetic::div_mod::{lemma_fundamental_div_mod, lemma_fundamental_div_mod_converse};
use vstd::arithmetic::mul::{
    lemma_mul_inequality, lemma_mul_is_distributive_add, lemma_mul_nonnegative,
    lemma_mul_strictly_positive,
};
use vstd::prelude::*;

verus! {

/// Number of elements of a tensor of the given shape (1 for the empty shape).
pub open spec fn numel_of(shape: Seq<usize>) -> nat
    decreases shape.len(),
{
    if shape.len() == 0 {
        1
    } else {
        numel_of(shape.drop_last()) * (shape.last() as nat)
    }
}

/// Every dimension of `shape` is nonzero.
pub open spec fn dims_positive(shape: Seq<usize>) -> bool {
    forall|d: int| 0 <= d < shape.len() ==> #[trigger] shape[d] > 0
}

/// `idx` is an in-bounds multi-dimensional coordinate of `shape`.
pub open spec fn valid_index(shape: Seq<usize>, idx: Seq<usize>) -> bool {
    &&& idx.len() == shape.len()
    &&& forall|d: int| 0 <= d < shape.len() ==> #[trigger] idx[d] < shape[d]
}

/// Row-major logical index of coordinate `idx`.
pub open spec fn ravel(shape: Seq<usize>, idx: Seq<usize>) -> nat
    decreases shape.len(),
{
    if shape.len() == 0 || idx.len() == 0 {
        0
    } else {
        ravel(shape.drop_last(), idx.drop_last()) * (shape.last() as nat) + (idx.last() as nat)
    }
}

/// Coordinate of row-major logical index `i` (the innermost dimension varies
/// fastest).
pub open spec fn unravel(shape: Seq<usize>, i: nat) -> Seq<usize>
    decreases shape.len(),
{
    if shape.len() == 0 {
        Seq::empty()
    } else {
        let s = shape.last() as nat;
        unravel(shape.drop_last(), i / s).push((i % s) as usize)
    }
}

/// Weighted sum `sum_d strides[d] * idx[d]`.
pub open spec fn dot(strides: Seq<usize>, idx: Seq<usize>) -> nat
    decreases idx.len(),
{
    if idx.len() == 0 || strides.len() == 0 {
        0
    } else {
        dot(strides.drop_last(), idx.drop_last()) + (strides.last() as nat) * (idx.last() as nat)
    }
}

/// Flat offset (relative to the storage offset) of row-major logical index `i`
/// under `strides`: the innermost coordinate is `i % shape[last]`, the rest are
/// recovered from `i / shape[last]`.
pub open spec fn strided_offset(shape: Seq<usize>, strides: Seq<usize>, i: nat) -> nat
    decreases shape.len(),
{
    if shape.len() == 0 || strides.len() == 0 {
        0
    } else {
        let s = shape.last() as nat;
        (i % s) * (strides.last() as nat) + strided_offset(
            shape.drop_last(),
            strides.drop_last(),
            i / s,
        )
    }
}

/// Largest offset reachable by an in-bounds coordinate:
/// `sum_d strides[d] * (shape[d] - 1)`.
pub open spec fn max_offset(shape: Seq<usize>, strides: Seq<usize>) -> nat
    decreases shape.len(),
{
    if shape.len() == 0 || strides.len() == 0 {
        0
    } else {
        max_offset(shape.drop_last(), strides.drop_last()) + (strides.last() as nat) * ((
        shape.last() - 1) as nat)
    }
}

/// Canonical (row-major, contiguous) stride of dimension `d`: the product of
/// the dimensions after it.
pub open spec fn canonical_stride(shape: Seq<usize>, d: int) -> nat {
    numel_of(shape.subrange(d + 1, shape.len() as int))
}

/// `strides` are the canonical row-major strides of `shape`.
pub open spec fn is_canonical(shape: Seq<usize>, strides: Seq<usize>) -> bool {
    &&& strides.len() == shape.len()
    &&& forall|d: int| 0 <= d < shape.len() ==> #[trigger] strides[d] == canonical_stride(shape, d)
}

/// Coordinate advanced by one step of a row-major odometer: bump the innermost
/// coordinate, carrying into the outer ones on overflow.
pub open spec fn odometer_next(shape: Seq<usize>, c: Seq<usize>) -> Seq<usize>
    decreases shape.len(),
{
    if shape.len() == 0 || c.len() == 0 {
        c
    } else if c.last() + 1 < shape.last() {
        c.drop_last().push((c.last() + 1) as usize)
    } else {
        odometer_next(shape.drop_last(), c.drop_last()).push(0usize)
    }
}

pub proof fn lemma_numel_single(x: usize)
    ensures
        numel_of(seq![x]) == x,
{
    let s = seq![x];
    assert(s.drop_last() =~= Seq::<usize>::empty());
    assert(s.last() == x);
    assert(s.drop_last().len() == 0);
    assert(numel_of(s.drop_last()) == 1);
    assert(numel_of(s) == numel_of(s.drop_last()) * (x as nat));
}

pub proof fn lemma_numel_positive(shape: Seq<usize>)
    requires
        dims_positive(shape),
    ensures
        numel_of(shape) >= 1,
    decreases shape.len(),
{
    if shape.len() > 0 {
        lemma_numel_positive(shape.drop_last());
        assert(shape.last() > 0);
        lemma_mul_strictly_positive(numel_of(shape.drop_last()) as int, shape.last() as int);
    }
}

/// Splitting a shape at any point splits its element count multiplicatively.
#[verifier::spinoff_prover]
pub proof fn lemma_numel_split(shape: Seq<usize>, k: int)
    requires
        0 <= k <= shape.len(),
    ensures
        numel_of(shape) == numel_of(shape.subrange(0, k)) * numel_of(
            shape.subrange(k, shape.len() as int),
        ),
    decreases shape.len(),
{
    if k == shape.len() {
        assert(shape.subrange(0, k) =~= shape);
        assert(shape.subrange(k, shape.len() as int) =~= Seq::<usize>::empty());
        assert(numel_of(shape.subrange(k, shape.len() as int)) == 1);
        assert(numel_of(shape.subrange(0, k)) == numel_of(shape));
    } else {
        let n = shape.len() as int;
        lemma_numel_split(shape.drop_last(), k);
        assert(shape.drop_last().subrange(0, k) =~= shape.subrange(0, k));
        let tail = shape.subrange(k, n);
        assert(tail.drop_last() =~= shape.drop_last().subrange(k, n - 1));
        assert(tail.last() == shape.last());
        let a = numel_of(shape.subrange(0, k)) as int;
        let b = numel_of(shape.drop_last().subrange(k, n - 1)) as int;
        let c = shape.last() as int;
        assert(numel_of(tail) == b * c);
        assert(numel_of(shape.drop_last()) == a * b);
        assert(numel_of(shape) == (a * b) * c);
        assert(a * b * c == a * (b * c)) by (nonlinear_arith);
        assert(numel_of(shape.subrange(0, k)) * numel_of(tail) == a * (b * c));
    }
}

/// A trailing part of the shape has no more elements than the whole.
pub proof fn lemma_numel_suffix_le(shape: Seq<usize>, k: int)
    requires
        0 <= k <= shape.len(),
        dims_positive(shape),
    ensures
        numel_of(shape.subrange(k, shape.len() as int)) <= numel_of(shape),
        numel_of(shape.subrange(0, k)) <= numel_of(shape),
{
    lemma_numel_split(shape, k);
    let p = shape.subrange(0, k);
    let s = shape.subrange(k, shape.len() as int);
    assert(dims_positive(p));
    assert(dims_positive(s));
    lemma_numel_positive(p);
    lemma_numel_positive(s);
    lemma_mul_inequality(1, numel_of(p) as int, numel_of(s) as int);
    lemma_mul_inequality(1, numel_of(s) as int, numel_of(p) as int);
}

pub proof fn lemma_unravel_valid(shape: Seq<usize>, i: nat)
    requires
        dims_positive(shape),
        i < numel_of(shape),
    ensures
        valid_index(shape, unravel(shape, i)),
        ravel(shape, unravel(shape, i)) == i,
    decreases shape.len(),
{
    if shape.len() > 0 {
        let s = shape.last() as nat;
        let pre = shape.drop_last();
        assert(dims_positive(pre));
        assert(s > 0);
        lemma_fundamental_div_mod(i as int, s as int);
        let q = i / s;
        let r = i % s;
        assert(q < numel_of(pre)) by {
            if q >= numel_of(pre) {
                lemma_mul_inequality(numel_of(pre) as int, q as int, s as int);
                assert(q * s >= numel_of(pre) * s);
                assert(i == s * q + r);
                assert(s * q == q * s) by (nonlinear_arith);
            }
        }
        lemma_unravel_valid(pre, q);
        let u = unravel(shape, i);
        assert(u.drop_last() =~= unravel(pre, q));
        assert(q * s + r == i) by (nonlinear_arith)
            requires
                i == s * q + r,
        ;
    }
}

pub proof fn lemma_ravel_valid(shape: Seq<usize>, idx: Seq<usize>)
    requires
        valid_index(shape, idx),
    ensures
        ravel(shape, idx) < numel_of(shape),
        unravel(shape, ravel(shape, idx)) == idx,
    decreases shape.len(),
{
    if shape.len() > 0 {
        let pre = shape.drop_last();
        let s = shape.last() as nat;
        assert(valid_index(pre, idx.drop_last()));
        lemma_ravel_valid(pre, idx.drop_last());
        let q = ravel(pre, idx.drop_last());
        let r = idx.last() as nat;
        assert(r < s);
        lemma_fundamental_div_mod_converse((q * s + r) as int, s as int, q as int, r as int);
        assert((q + 1) * s <= numel_of(pre) * s) by {
            lemma_mul_inequality((q + 1) as int, numel_of(pre) as int, s as int);
        }
        assert((q + 1) * s == q * s + s) by (nonlinear_arith);
        assert(unravel(shape, ravel(shape, idx)) =~= idx);
    } else {
        assert(idx =~= Seq::<usize>::empty());
    }
}

/// Two in-bounds coordinates with the same logical index are equal.
pub proof fn lemma_ravel_injective(shape: Seq<usize>, a: Seq<usize>, b: Seq<usize>)
    requires
        valid_index(shape, a),
        valid_index(shape, b),
        ravel(shape, a) == ravel(shape, b),
    ensures
        a == b,
{
    lemma_ravel_valid(shape, a);
    lemma_ravel_valid(shape, b);
}

pub proof fn lemma_strided_offset_is_dot(shape: Seq<usize>, strides: Seq<usize>, i: nat)
    requires
        shape.len() == strides.len(),
        dims_positive(shape),
    ensures
        strided_offset(shape, strides, i) == dot(strides, unravel(shape, i)),
    decreases shape.len(),
{
    if shape.len() > 0 {
        let s = shape.last() as nat;
        assert(s > 0);
        assert(dims_positive(shape.drop_last()));
        lemma_strided_offset_is_dot(shape.drop_last(), strides.drop_last(), i / s);
        let u = unravel(shape, i);
        assert(u.drop_last() =~= unravel(shape.drop_last(), i / s));
        assert(u.len() > 0);
        assert((i % s) < s) by {
            lemma_fundamental_div_mod(i as int, s as int);
        }
        assert(u.last() as nat == ((i % s) as usize) as nat);
        assert(((i % s) as usize) as nat == i % s);
        assert((i % s) * (strides.last() as nat) == (strides.last() as nat) * (i % s)) by (
        nonlinear_arith);
    }
}

pub proof fn lemma_dot_le_max(shape: Seq<usize>, strides: Seq<usize>, idx: Seq<usize>)
    requires
        shape.len() == strides.len(),
        valid_index(shape, idx),
    ensures
        dot(strides, idx) <= max_offset(shape, strides),
    decreases shape.len(),
{
    if shape.len() > 0 {
        assert(valid_index(shape.drop_last(), idx.drop_last()));
        lemma_dot_le_max(shape.drop_last(), strides.drop_last(), idx.drop_last());
        assert(idx.last() <= shape.last() - 1);
        lemma_mul_inequality(
            idx.last() as int,
            (shape.last() - 1) as int,
            strides.last() as int,
        );
        assert((strides.last() as nat) * (idx.last() as nat) == (idx.last() as int) * (
        strides.last() as int)) by (nonlinear_arith);
        let m: int = shape.last() - 1;
        assert(m >= 0);
        let st: int = strides.last() as int;
        assert(st * m == m * st) by (nonlinear_arith);
    }
}

/// Every logical element of an in-bounds layout lands at most `max_offset`
/// past the storage offset.
pub proof fn lemma_strided_offset_le_max(shape: Seq<usize>, strides: Seq<usize>, i: nat)
    requires
        shape.len() == strides.len(),
        dims_positive(shape),
        i < numel_of(shape),
    ensures
        strided_offset(shape, strides, i) <= max_offset(shape, strides),
{
    lemma_unravel_valid(shape, i);
    lemma_strided_offset_is_dot(shape, strides, i);
    lemma_dot_le_max(shape, strides, unravel(shape, i));
}


/// The sequence of `n` zero coordinates.
pub open spec fn zeros(n: nat) -> Seq<usize> {
    Seq::new(n, |j: int| 0usize)
}

pub proof fn lemma_odometer_unravel(shape: Seq<usize>, i: nat)
    requires
        dims_positive(shape),
        i + 1 < numel_of(shape),
    ensures
        unravel(shape, i + 1) == odometer_next(shape, unravel(shape, i)),
    decreases shape.len(),
{
    if shape.len() > 0 {
        let s = shape.last() as nat;
        let pre = shape.drop_last();
        assert(dims_positive(pre));
        assert(s > 0);
        lemma_fundamental_div_mod(i as int, s as int);
        let q = i / s;
        let r = i % s;
        let u = unravel(shape, i);
        assert(u.drop_last() =~= unravel(pre, q));
        assert(u.last() == r as usize);
        if r + 1 < s {
            lemma_fundamental_div_mod_converse((i + 1) as int, s as int, q as int, (r + 1) as int);
            assert(unravel(shape, i + 1) =~= odometer_next(shape, u));
        } else {
            assert(r + 1 == s);
            assert(i + 1 == (q + 1) * s + 0) by (nonlinear_arith)
                requires
                    i == s * q + r,
                    r + 1 == s,
            ;
            lemma_fundamental_div_mod_converse((i + 1) as int, s as int, (q + 1) as int, 0);
            assert(q + 1 < numel_of(pre)) by {
                if q + 1 >= numel_of(pre) {
                    lemma_mul_inequality(numel_of(pre) as int, (q + 1) as int, s as int);
                }
            }
            lemma_odometer_unravel(pre, q);
            assert(unravel(shape, i + 1) =~= odometer_next(shape, u));
        }
    }
}

/// When every coordinate after position `k` is at its maximum, the odometer
/// step only touches the prefix `..=k` and zeroes the rest.
pub proof fn lemma_odometer_prefix(shape: Seq<usize>, c: Seq<usize>, k: int)
    requires
        shape.len() == c.len(),
        0 <= k < shape.len(),
        forall|j: int| k < j < shape.len() ==> #[trigger] c[j] + 1 == shape[j],
    ensures
        odometer_next(shape, c) == odometer_next(shape.take(k + 1), c.take(k + 1)) + zeros(
            (shape.len() - k - 1) as nat,
        ),
    decreases shape.len(),
{
    let n = shape.len() as int;
    if k == n - 1 {
        assert(shape.take(k + 1) =~= shape);
        assert(c.take(k + 1) =~= c);
        assert(odometer_next(shape, c) + zeros(0) =~= odometer_next(shape, c));
    } else {
        assert(c.last() + 1 == shape.last());
        lemma_odometer_prefix(shape.drop_last(), c.drop_last(), k);
        assert(shape.drop_last().take(k + 1) =~= shape.take(k + 1));
        assert(c.drop_last().take(k + 1) =~= c.take(k + 1));
        let a = odometer_next(shape.take(k + 1), c.take(k + 1));
        assert((a + zeros((n - 1 - k - 1) as nat)).push(0usize) =~= a + zeros((n - k - 1) as nat));
    }
}

/// A coordinate whose entries are all at their maximum is the last index.
pub proof fn lemma_ravel_all_max(shape: Seq<usize>, c: Seq<usize>)
    requires
        valid_index(shape, c),
        forall|j: int| 0 <= j < shape.len() ==> #[trigger] c[j] + 1 == shape[j],
    ensures
        ravel(shape, c) + 1 == numel_of(shape),
    decreases shape.len(),
{
    if shape.len() > 0 {
        let pre = shape.drop_last();
        assert(valid_index(pre, c.drop_last()));
        lemma_ravel_all_max(pre, c.drop_last());
        let q = ravel(pre, c.drop_last()) as int;
        let s = shape.last() as int;
        assert((q * s + (s - 1)) + 1 == (q + 1) * s) by (nonlinear_arith);
    }
}

/// Changing one coordinate changes the weighted sum by the stride times the
/// difference.
pub proof fn lemma_dot_update(strides: Seq<usize>, c: Seq<usize>, k: int, v: usize)
    requires
        strides.len() == c.len(),
        0 <= k < c.len(),
    ensures
        dot(strides, c.update(k, v)) + (strides[k] as nat) * (c[k] as nat) == dot(strides, c) + (
        strides[k] as nat) * (v as nat),
    decreases c.len(),
{
    let n = c.len() as int;
    if k == n - 1 {
        assert(c.update(k, v).drop_last() =~= c.drop_last());
    } else {
        lemma_dot_update(strides.drop_last(), c.drop_last(), k, v);
        assert(c.update(k, v).drop_last() =~= c.drop_last().update(k, v));
    }
}

/// Changing one stride changes the weighted sum by the coordinate times the
/// difference.
pub proof fn lemma_dot_update_stride(strides: Seq<usize>, c: Seq<usize>, k: int, v: usize)
    requires
        strides.len() == c.len(),
        0 <= k < c.len(),
    ensures
        dot(strides.update(k, v), c) + (strides[k] as nat) * (c[k] as nat) == dot(strides, c) + (
        v as nat) * (c[k] as nat),
    decreases c.len(),
{
    let n = c.len() as int;
    if k == n - 1 {
        assert(strides.update(k, v).drop_last() =~= strides.drop_last());
    } else {
        lemma_dot_update_stride(strides.drop_last(), c.drop_last(), k, v);
        assert(strides.update(k, v).drop_last() =~= strides.drop_last().update(k, v));
    }
}


/// Scaling every stride scales every offset.
pub proof fn lemma_strided_offset_scale(
    shape: Seq<usize>,
    strides: Seq<usize>,
    scaled: Seq<usize>,
    c: nat,
    i: nat,
)
    requires
        shape.len() == strides.len(),
        dims_positive(shape),
        scaled.len() == strides.len(),
        forall|d: int| 0 <= d < strides.len() ==> #[trigger] scaled[d] == c * strides[d],
    ensures
        strided_offset(shape, scaled, i) == c * strided_offset(shape, strides, i),
    decreases shape.len(),
{
    if shape.len() > 0 {
        let s = shape.last() as nat;
        assert(s > 0);
        assert(dims_positive(shape.drop_last()));
        lemma_strided_offset_scale(shape.drop_last(), strides.drop_last(), scaled.drop_last(), c, i / s);
        let a = (i % s) as int;
        let b = strides.last() as int;
        let r = strided_offset(shape.drop_last(), strides.drop_last(), i / s) as int;
        let r2 = strided_offset(shape.drop_last(), scaled.drop_last(), i / s) as int;
        assert(strided_offset(shape, strides, i) == (i % s) * (strides.last() as nat) + strided_offset(shape.drop_last(), strides.drop_last(), i / s));
        assert(r2 == c * r);
        assert(scaled.last() == c * strides.last());
        assert(strided_offset(shape, scaled, i) == a * (scaled.last() as int) + r2);
        assert(strided_offset(shape, strides, i) == a * b + r);
        assert(a * (c * b) + c * r == c * (a * b + r)) by (nonlinear_arith);
        assert(strided_offset(shape, scaled, i) == c * strided_offset(shape, strides, i));
    } else {
        assert(c * 0 == 0);
    }
}

/// Canonical strides place logical element `i` at flat offset `i`.
pub proof fn lemma_canonical_offset(shape: Seq<usize>, strides: Seq<usize>, i: nat)
    requires
        dims_positive(shape),
        is_canonical(shape, strides),
        i < numel_of(shape),
    ensures
        strided_offset(shape, strides, i) == i,
    decreases shape.len(),
{
    if shape.len() > 0 {
        let n = shape.len() as int;
        let pre = shape.drop_last();
        let s = shape.last() as nat;
        assert(dims_positive(pre));
        assert(s > 0);
        // the last canonical stride is 1
        assert(shape.subrange(n, n) =~= Seq::<usize>::empty());
        assert(strides.last() == 1);
        // the remaining strides are the canonical strides of the prefix, scaled by s
        let pc = Seq::new((n - 1) as nat, |d: int| canonical_stride(pre, d) as usize);
        assert forall|d: int| 0 <= d < n - 1 implies #[trigger] strides.drop_last()[d] == s * pc[d]
            && pc[d] == canonical_stride(pre, d) by {
            let sub = shape.subrange(d + 1, n);
            let x = numel_of(pre.subrange(d + 1, n - 1));
            assert(sub.drop_last() =~= pre.subrange(d + 1, n - 1));
            assert(sub.last() == shape.last());
            assert(numel_of(sub) == x * s);
            assert(strides[d] == numel_of(sub));
            assert(x <= x * s) by (nonlinear_arith)
                requires
                    s >= 1,
            ;
            assert((x as usize) as nat == x);
            assert(x * s == s * x) by (nonlinear_arith);
        }
        assert forall|d: int| 0 <= d < pre.len() implies #[trigger] pc[d] == canonical_stride(pre, d) by {
            assert(strides.drop_last()[d] == s * pc[d]);
        }
        assert(is_canonical(pre, pc));
        lemma_fundamental_div_mod(i as int, s as int);
        let q = i / s;
        assert(q < numel_of(pre)) by {
            if q >= numel_of(pre) {
                lemma_mul_inequality(numel_of(pre) as int, q as int, s as int);
                assert(s * q == q * s) by (nonlinear_arith);
            }
        }
        lemma_canonical_offset(pre, pc, q);
        lemma_strided_offset_scale(pre, pc, strides.drop_last(), s, q);
    }
}


/// Weighted sums over a prefix of the coordinates never exceed the full sum.
pub proof fn lemma_dot_prefix_le(strides: Seq<usize>, c: Seq<usize>, i: int)
    requires
        strides.len() == c.len(),
        0 <= i <= c.len(),
    ensures
        dot(strides.take(i), c.take(i)) <= dot(strides, c),
    decreases c.len(),
{
    if i == c.len() {
        assert(strides.take(i) =~= strides);
        assert(c.take(i) =~= c);
    } else {
        lemma_dot_prefix_le(strides.drop_last(), c.drop_last(), i);
        assert(strides.drop_last().take(i) =~= strides.take(i));
        assert(c.drop_last().take(i) =~= c.take(i));
    }
}

/// Extending a prefix by one coordinate adds that coordinate's term.
pub proof fn lemma_dot_take_step(strides: Seq<usize>, c: Seq<usize>, i: int)
    requires
        strides.len() == c.len(),
        0 <= i < c.len(),
    ensures
        dot(strides.take(i + 1), c.take(i + 1)) == dot(strides.take(i), c.take(i)) + (
        strides[i] as nat) * (c[i] as nat),
{
    assert(strides.take(i + 1).drop_last() =~= strides.take(i));
    assert(c.take(i + 1).drop_last() =~= c.take(i));
}

/// Peeling the innermost dimension of a prefix layout.
pub proof fn lemma_strided_offset_take_step(
    shape: Seq<usize>,
    strides: Seq<usize>,
    i: int,
    x: nat,
)
    requires
        shape.len() == strides.len(),
        dims_positive(shape),
        0 <= i < shape.len(),
    ensures
        strided_offset(shape.take(i + 1), strides.take(i + 1), x) == (x % (shape[i] as nat)) * (
        strides[i] as nat) + strided_offset(shape.take(i), strides.take(i), x / (shape[i] as nat)),
{
    assert(shape.take(i + 1).drop_last() =~= shape.take(i));
    assert(strides.take(i + 1).drop_last() =~= strides.take(i));
    assert(shape.take(i + 1).last() == shape[i]);
    assert(strides.take(i + 1).last() == strides[i]);
    assert(shape.take(i + 1).len() > 0);
    assert(shape[i] > 0);
}


/// Inserting a size-1 dimension (with any stride) changes neither the element
/// count, nor the reachable range, nor where any logical element lives.
pub proof fn lemma_insert_unit_dim(shape: Seq<usize>, strides: Seq<usize>, d: int, st: usize)
    requires
        shape.len() == strides.len(),
        dims_positive(shape),
        0 <= d <= shape.len(),
    ensures
        numel_of(shape.insert(d, 1usize)) == numel_of(shape),
        max_offset(shape.insert(d, 1usize), strides.insert(d, st)) == max_offset(shape, strides),
        forall|i: nat|
            #[trigger] strided_offset(shape.insert(d, 1usize), strides.insert(d, st), i)
                == strided_offset(shape, strides, i),
        dims_positive(shape.insert(d, 1usize)),
    decreases shape.len(),
{
    let sh2 = shape.insert(d, 1usize);
    let st2 = strides.insert(d, st);
    if d == shape.len() {
        assert(sh2.drop_last() =~= shape);
        assert(st2.drop_last() =~= strides);
        assert(sh2.last() == 1);
        assert(((sh2.last() - 1) as nat) == 0);
        let stl = st2.last() as nat;
        assert(stl * 0 == 0) by (nonlinear_arith);
        assert((st2.last() as nat) * ((sh2.last() - 1) as nat) == 0);
        assert(max_offset(sh2, st2) == max_offset(sh2.drop_last(), st2.drop_last()) + (st2.last() as nat) * ((sh2.last() - 1) as nat));
        assert forall|i: nat|
            #[trigger] strided_offset(sh2, st2, i) == strided_offset(shape, strides, i) by {
            assert(i % 1 == 0);
            assert(i / 1 == i);
        }
    } else {
        assert(dims_positive(shape.drop_last()));
        assert(shape.last() > 0);
        lemma_insert_unit_dim(shape.drop_last(), strides.drop_last(), d, st);
        assert(sh2.drop_last() =~= shape.drop_last().insert(d, 1usize));
        assert(st2.drop_last() =~= strides.drop_last().insert(d, st));
        assert(sh2.last() == shape.last());
        assert(st2.last() == strides.last());
        assert forall|i: nat|
            #[trigger] strided_offset(sh2, st2, i) == strided_offset(shape, strides, i) by {
            let s = shape.last() as nat;
            assert(strided_offset(sh2.drop_last(), st2.drop_last(), i / s) == strided_offset(
                shape.drop_last(),
                strides.drop_last(),
                i / s,
            ));
        }
    }
    assert forall|k: int| 0 <= k < sh2.len() implies #[trigger] sh2[k] > 0 by {
        if k < d {
            assert(sh2[k] == shape[k]);
        } else if k > d {
            assert(sh2[k] == shape[k - 1]);
        }
    }
}

/// Coordinates at their maxima: `shape[d] - 1` in every dimension.
pub open spec fn max_index(shape: Seq<usize>) -> Seq<usize> {
    Seq::new(shape.len(), |d: int| (shape[d] - 1) as usize)
}

pub proof fn lemma_max_offset_is_dot(shape: Seq<usize>, strides: Seq<usize>)
    requires
        shape.len() == strides.len(),
        dims_positive(shape),
    ensures
        max_offset(shape, strides) == dot(strides, max_index(shape)),
    decreases shape.len(),
{
    if shape.len() > 0 {
        assert(dims_positive(shape.drop_last()));
        lemma_max_offset_is_dot(shape.drop_last(), strides.drop_last());
        assert(max_index(shape).drop_last() =~= max_index(shape.drop_last()));
        assert(shape.last() > 0);
    }
}

/// The sequence with positions `a` and `b` exchanged.
pub open spec fn swap_seq(s: Seq<usize>, a: int, b: int) -> Seq<usize> {
    s.update(a, s[b]).update(b, s[a])
}

/// Exchanging two strides is the same as exchanging the two coordinates.
pub proof fn lemma_dot_swap(strides: Seq<usize>, c: Seq<usize>, a: int, b: int)
    requires
        strides.len() == c.len(),
        0 <= a < c.len(),
        0 <= b < c.len(),
    ensures
        dot(swap_seq(strides, a, b), c) == dot(strides, swap_seq(c, a, b)),
{
    if a != b {
        let s1 = strides.update(a, strides[b]);
        lemma_dot_update_stride(strides, c, a, strides[b]);
        lemma_dot_update_stride(s1, c, b, strides[a]);
        let c1 = c.update(a, c[b]);
        lemma_dot_update(strides, c, a, c[b]);
        lemma_dot_update(strides, c1, b, c[a]);
        let sa = strides[a] as int;
        let sb = strides[b] as int;
        let ca = c[a] as int;
        let cb = c[b] as int;
        assert(sa * ca + sb * cb == ca * sa + cb * sb) by (nonlinear_arith);
        assert(sb * ca == ca * sb) by (nonlinear_arith);
        assert(sa * cb == cb * sa) by (nonlinear_arith);
    } else {
        assert(swap_seq(strides, a, b) =~= strides);
        assert(swap_seq(c, a, b) =~= c);
    }
}

/// Replacing dimension `k` by `v` rescales the element count.
pub proof fn lemma_numel_update(shape: Seq<usize>, k: int, v: usize)
    requires
        0 <= k < shape.len(),
    ensures
        numel_of(shape.update(k, v)) * (shape[k] as nat) == numel_of(shape) * (v as nat),
{
    let n = shape.len() as int;
    let sh2 = shape.update(k, v);
    lemma_numel_split(shape, k);
    lemma_numel_split(sh2, k);
    let tail = shape.subrange(k, n);
    let tail2 = sh2.subrange(k, n);
    lemma_numel_split(tail, 1);
    lemma_numel_split(tail2, 1);
    assert(tail.subrange(0, 1) =~= seq![shape[k]]);
    assert(tail2.subrange(0, 1) =~= seq![v]);
    assert(tail.subrange(1, n - k) =~= tail2.subrange(1, n - k));
    assert(sh2.subrange(0, k) =~= shape.subrange(0, k));
    lemma_numel_single(shape[k]);
    lemma_numel_single(v);
    let p = numel_of(shape.subrange(0, k)) as int;
    let q = numel_of(tail.subrange(1, n - k)) as int;
    let x = shape[k] as int;
    let y = v as int;
    assert((p * (y * q)) * x == (p * (x * q)) * y) by (nonlinear_arith);
}

/// Exchanging two dimensions keeps the element count.
pub proof fn lemma_numel_swap(shape: Seq<usize>, a: int, b: int)
    requires
        0 <= a < shape.len(),
        0 <= b < shape.len(),
        dims_positive(shape),
    ensures
        numel_of(swap_seq(shape, a, b)) == numel_of(shape),
        dims_positive(swap_seq(shape, a, b)),
{
    if a != b {
        let s1 = shape.update(a, shape[b]);
        lemma_numel_update(shape, a, shape[b]);
        lemma_numel_update(s1, b, shape[a]);
        let n0 = numel_of(shape) as int;
        let n1 = numel_of(s1) as int;
        let n2 = numel_of(swap_seq(shape, a, b)) as int;
        let x = shape[a] as int;
        let y = shape[b] as int;
        assert(y > 0);
        assert(n2 == n0) by (nonlinear_arith)
            requires
                n1 * x == n0 * y,
                n2 * y == n1 * x,
                y > 0,
        ;
    } else {
        assert(swap_seq(shape, a, b) =~= shape);
    }
    assert forall|d: int| 0 <= d < shape.len() implies #[trigger] swap_seq(shape, a, b)[d] > 0 by {
        if d != a && d != b {
            assert(swap_seq(shape, a, b)[d] == shape[d]);
        }
    }
}

/// Exchanging a pair of dimensions together with their strides keeps the
/// reachable range.
pub proof fn lemma_max_offset_swap(shape: Seq<usize>, strides: Seq<usize>, a: int, b: int)
    requires
        shape.len() == strides.len(),
        0 <= a < shape.len(),
        0 <= b < shape.len(),
        dims_positive(shape),
    ensures
        max_offset(swap_seq(shape, a, b), swap_seq(strides, a, b)) == max_offset(shape, strides),
{
    lemma_numel_swap(shape, a, b);
    lemma_max_offset_is_dot(shape, strides);
    lemma_max_offset_is_dot(swap_seq(shape, a, b), swap_seq(strides, a, b));
    let m = max_index(shape);
    assert(max_index(swap_seq(shape, a, b)) =~= swap_seq(m, a, b));
    lemma_dot_swap(strides, swap_seq(m, a, b), a, b);
    assert(swap_seq(swap_seq(m, a, b), a, b) =~= m);
}


/// Peeling the innermost dimension of a prefix shape off an unravelled index.
pub proof fn lemma_unravel_take_step(shape: Seq<usize>, i: int, x: nat)
    requires
        0 <= i < shape.len(),
        dims_positive(shape),
    ensures
        unravel(shape.take(i + 1), x) == unravel(shape.take(i), x / (shape[i] as nat)).push(
            (x % (shape[i] as nat)) as usize,
        ),
{
    assert(shape.take(i + 1).drop_last() =~= shape.take(i));
    assert(shape.take(i + 1).last() == shape[i]);
    assert(shape[i] > 0);
    assert(shape.take(i + 1).len() > 0);
}

/// A weighted sum splits into a prefix part and a suffix part.
pub proof fn lemma_dot_split(strides: Seq<usize>, c: Seq<usize>, i: int)
    requires
        strides.len() == c.len(),
        0 <= i <= c.len(),
    ensures
        dot(strides, c) == dot(strides.take(i), c.take(i)) + dot(strides.skip(i), c.skip(i)),
    decreases c.len(),
{
    if i == c.len() {
        assert(strides.take(i) =~= strides);
        assert(c.take(i) =~= c);
        assert(c.skip(i).len() == 0);
    } else {
        lemma_dot_split(strides.drop_last(), c.drop_last(), i);
        assert(strides.drop_last().take(i) =~= strides.take(i));
        assert(c.drop_last().take(i) =~= c.take(i));
        assert(strides.skip(i).drop_last() =~= strides.drop_last().skip(i));
        assert(c.skip(i).drop_last() =~= c.drop_last().skip(i));
        assert(strides.skip(i).last() == strides.last());
        assert(c.skip(i).last() == c.last());
    }
}

/// The suffix weighted sum starting at `i` peels its first term.
pub proof fn lemma_dot_skip_step(strides: Seq<usize>, c: Seq<usize>, i: int)
    requires
        strides.len() == c.len(),
        0 <= i < c.len(),
    ensures
        dot(strides.skip(i), c.skip(i)) == (strides[i] as nat) * (c[i] as nat) + dot(
            strides.skip(i + 1),
            c.skip(i + 1),
        ),
{
    let st = strides.skip(i);
    let cc = c.skip(i);
    lemma_dot_split(st, cc, 1);
    assert(st.skip(1) =~= strides.skip(i + 1));
    assert(cc.skip(1) =~= c.skip(i + 1));
    assert(st.take(1).drop_last() =~= Seq::<usize>::empty());
    assert(cc.take(1).drop_last() =~= Seq::<usize>::empty());
    assert(st.take(1).last() == strides[i]);
    assert(cc.take(1).last() == c[i]);
    assert(dot(st.take(1).drop_last(), cc.take(1).drop_last()) == 0);
    assert(dot(st.take(1), cc.take(1)) == (strides[i] as nat) * (c[i] as nat));
}

/// Coordinates mapped through `starts[d] + c[d] * steps[d]`.
pub open spec fn affine_index(c: Seq<usize>, starts: Seq<usize>, steps: Seq<usize>) -> Seq<usize> {
    Seq::new(c.len(), |d: int| (starts[d] + c[d] * steps[d]) as usize)
}


/// The element count grows with every dimension.
pub proof fn lemma_numel_mono(a: Seq<usize>, b: Seq<usize>)
    requires
        a.len() == b.len(),
        forall|d: int| 0 <= d < a.len() ==> #[trigger] a[d] <= b[d],
    ensures
        numel_of(a) <= numel_of(b),
    decreases a.len(),
{
    if a.len() > 0 {
        lemma_numel_mono(a.drop_last(), b.drop_last());
        let na = numel_of(a.drop_last()) as int;
        let nb = numel_of(b.drop_last()) as int;
        let x = a.last() as int;
        let y = b.last() as int;
        assert(na * x <= nb * y) by (nonlinear_arith)
            requires
                0 <= na <= nb,
                0 <= x <= y,
        ;
    }
}

/// An unravelled index has one coordinate per dimension.
pub proof fn lemma_unravel_len(shape: Seq<usize>, i: nat)
    requires
        dims_positive(shape),
    ensures
        unravel(shape, i).len() == shape.len(),
    decreases shape.len(),
{
    if shape.len() > 0 {
        let s = shape.last() as nat;
        assert(s > 0);
        lemma_unravel_len(shape.drop_last(), i / s);
    }
}

/// A stride-0 axis inserted at `d` ignores the coordinate there.
pub proof fn lemma_dot_insert_zero(strides: Seq<usize>, idx: Seq<usize>, d: int)
    requires
        idx.len() == strides.len() + 1,
        0 <= d <= strides.len(),
    ensures
        dot(strides.insert(d, 0usize), idx) == dot(strides, idx.remove(d)),
    decreases idx.len(),
{
    let s2 = strides.insert(d, 0usize);
    if d == strides.len() {
        assert(s2.drop_last() =~= strides);
        assert(idx.remove(d) =~= idx.drop_last());
        let x = idx.last() as nat;
        assert(0 * x == 0) by (nonlinear_arith);
    } else {
        lemma_dot_insert_zero(strides.drop_last(), idx.drop_last(), d);
        assert(s2.drop_last() =~= strides.drop_last().insert(d, 0usize));
        assert(idx.remove(d).drop_last() =~= idx.drop_last().remove(d));
        assert(s2.last() == strides.last());
        assert(idx.remove(d).last() == idx.last());
    }
}

/// A coordinate with a 0 inserted at `d` reads as the coordinate without it.
pub proof fn lemma_dot_zero_coord(strides: Seq<usize>, c: Seq<usize>, d: int)
    requires
        strides.len() == c.len() + 1,
        0 <= d <= c.len(),
    ensures
        dot(strides, c.insert(d, 0usize)) == dot(strides.remove(d), c),
    decreases strides.len(),
{
    let c2 = c.insert(d, 0usize);
    if d == c.len() {
        assert(c2.drop_last() =~= c);
        assert(strides.remove(d) =~= strides.drop_last());
        let s = strides.last() as nat;
        assert(s * 0 == 0) by (nonlinear_arith);
    } else {
        lemma_dot_zero_coord(strides.drop_last(), c.drop_last(), d);
        assert(c2.drop_last() =~= c.drop_last().insert(d, 0usize));
        assert(strides.remove(d).drop_last() =~= strides.drop_last().remove(d));
        assert(c2.last() == c.last());
        assert(strides.remove(d).last() == strides.last());
    }
}

} // verus!
