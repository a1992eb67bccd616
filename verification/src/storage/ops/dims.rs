//! Bookkeeping for reductions over a set of dimensions: normalizing the
//! dimension list, the shapes of the kept and reduced parts, and how a kept
//! coordinate and a reduced coordinate merge back into an input coordinate.
use crate::storage::layout::{dims_positive, numel_of};
use crate::storage::ops::shape::strictly_increasing;
use vstd::prelude::*;

verus! {

/// Every entry of `dims` names one of `n` dimensions.
pub open spec fn dims_in_range(dims: Seq<usize>, n: nat) -> bool {
    forall|j: int| 0 <= j < dims.len() ==> #[trigger] dims[j] < n
}

/// No dimension is listed twice.
pub open spec fn no_duplicates(dims: Seq<usize>) -> bool {
    forall|i: int, j: int| 0 <= i < j < dims.len() ==> dims[i] != dims[j]
}

/// `s` lists exactly the dimensions listed in `dims`.
pub open spec fn same_dims(s: Seq<usize>, dims: Seq<usize>) -> bool {
    forall|x: usize| #[trigger] s.contains(x) <==> dims.contains(x)
}

/// The dimensions of `dims`, sorted increasingly (each once).
pub open spec fn sorted_dims(dims: Seq<usize>) -> Seq<usize> {
    choose|s: Seq<usize>| strictly_increasing(s) && same_dims(s, dims)
}

/// All `n` dimensions in order.
pub open spec fn all_dims(n: nat) -> Seq<usize> {
    Seq::new(n, |i: int| i as usize)
}

/// The dimensions a reduction over `dims` acts on: all of them when `dims`
/// is empty, otherwise `dims` sorted.
pub open spec fn resolved_dims(dims: Seq<usize>, n: nat) -> Seq<usize> {
    if dims.len() == 0 {
        all_dims(n)
    } else {
        sorted_dims(dims)
    }
}

/// How many entries of `dims` are below `d`.
pub open spec fn count_below(dims: Seq<usize>, d: int) -> nat
    decreases dims.len(),
{
    if dims.len() == 0 {
        0
    } else {
        count_below(dims.drop_last(), d) + (if dims.last() < d {
            1nat
        } else {
            0nat
        })
    }
}

/// The sizes of the first `k` dimensions of `shape` that are kept (`keep`)
/// or reduced (`!keep`) by a reduction over `dims`, in order.
pub open spec fn part_shape(shape: Seq<usize>, dims: Seq<usize>, k: nat, keep: bool) -> Seq<usize>
    decreases k,
{
    if k == 0 {
        Seq::empty()
    } else {
        let p = part_shape(shape, dims, (k - 1) as nat, keep);
        if dims.contains((k - 1) as usize) != keep {
            p.push(shape[k - 1])
        } else {
            p
        }
    }
}

/// The shape left after reducing `dims` away.
pub open spec fn kept_shape(shape: Seq<usize>, dims: Seq<usize>) -> Seq<usize> {
    part_shape(shape, dims, shape.len(), true)
}

/// The shape of the reduced dimensions, in order.
pub open spec fn reduced_shape(shape: Seq<usize>, dims: Seq<usize>) -> Seq<usize> {
    part_shape(shape, dims, shape.len(), false)
}

/// The input coordinate (of rank `n`) where kept coordinate `oc` and reduced
/// coordinate `rc` meet.
pub open spec fn merged(dims: Seq<usize>, n: nat, oc: Seq<usize>, rc: Seq<usize>) -> Seq<usize> {
    Seq::new(
        n,
        |d: int|
            if dims.contains(d as usize) {
                rc[count_below(dims, d) as int]
            } else {
                oc[d - count_below(dims, d)]
            },
    )
}

pub proof fn lemma_count_below_le(dims: Seq<usize>, d: int)
    ensures
        count_below(dims, d) <= dims.len(),
    decreases dims.len(),
{
    if dims.len() > 0 {
        lemma_count_below_le(dims.drop_last(), d);
    }
}

proof fn lemma_count_below_all_less(dims: Seq<usize>, d: int)
    requires
        forall|j: int| 0 <= j < dims.len() ==> #[trigger] dims[j] < d,
    ensures
        count_below(dims, d) == dims.len(),
    decreases dims.len(),
{
    if dims.len() > 0 {
        lemma_count_below_all_less(dims.drop_last(), d);
    }
}

/// Stepping past `d` counts `d` exactly when it is listed.
pub proof fn lemma_count_below_step(dims: Seq<usize>, d: usize)
    requires
        strictly_increasing(dims),
    ensures
        count_below(dims, d + 1) == count_below(dims, d as int) + (if dims.contains(d) {
            1nat
        } else {
            0nat
        }),
    decreases dims.len(),
{
    if dims.len() > 0 {
        let dl = dims.drop_last();
        assert(strictly_increasing(dl));
        lemma_count_below_step(dl, d);
        if dims.last() == d {
            assert(!dl.contains(d)) by {
                if dl.contains(d) {
                    let j = choose|j: int| 0 <= j < dl.len() && dl[j] == d;
                    assert(dims[j] < dims[dims.len() - 1]);
                }
            }
            assert(dims.contains(d)) by {
                assert(dims[dims.len() - 1] == d);
            }
        } else {
            assert(dims.contains(d) == dl.contains(d)) by {
                if dims.contains(d) {
                    let j = choose|j: int| 0 <= j < dims.len() && dims[j] == d;
                    assert(j != dims.len() - 1);
                    assert(dl[j] == d);
                }
                if dl.contains(d) {
                    let j = choose|j: int| 0 <= j < dl.len() && dl[j] == d;
                    assert(dims[j] == d);
                }
            }
        }
    }
}

/// A listed dimension sits at the position counting the entries below it.
pub proof fn lemma_count_below_hit(dims: Seq<usize>, d: usize)
    requires
        strictly_increasing(dims),
        dims.contains(d),
    ensures
        count_below(dims, d as int) < dims.len(),
        dims[count_below(dims, d as int) as int] == d,
    decreases dims.len(),
{
    let dl = dims.drop_last();
    assert(strictly_increasing(dl));
    if dims.last() == d {
        assert forall|j: int| 0 <= j < dl.len() implies #[trigger] dl[j] < d by {
            assert(dims[j] < dims[dims.len() - 1]);
        }
        lemma_count_below_all_less(dl, d as int);
    } else {
        let j = choose|j: int| 0 <= j < dims.len() && dims[j] == d;
        assert(j != dims.len() - 1);
        assert(dl[j] == d);
        lemma_count_below_hit(dl, d);
        assert(dims[j] < dims[dims.len() - 1]);
    }
}

/// Length of a part shape: the dimensions below `k` on its side.
pub proof fn lemma_part_len(shape: Seq<usize>, dims: Seq<usize>, k: nat, keep: bool)
    requires
        strictly_increasing(dims),
        k <= usize::MAX + 1,
    ensures
        part_shape(shape, dims, k, keep).len() == (if keep {
            k - count_below(dims, k as int)
        } else {
            count_below(dims, k as int) as int
        }),
        count_below(dims, k as int) <= k,
    decreases k,
{
    if k == 0 {
        lemma_count_below_all_zero(dims);
    } else {
        lemma_part_len(shape, dims, (k - 1) as nat, keep);
        lemma_count_below_step(dims, (k - 1) as usize);
    }
}

proof fn lemma_count_below_all_zero(dims: Seq<usize>)
    ensures
        count_below(dims, 0) == 0,
    decreases dims.len(),
{
    if dims.len() > 0 {
        lemma_count_below_all_zero(dims.drop_last());
    }
}

/// Where dimension `d` lands in its part shape.
pub proof fn lemma_part_index(shape: Seq<usize>, dims: Seq<usize>, k: nat, keep: bool, d: usize)
    requires
        strictly_increasing(dims),
        d < k <= shape.len(),
        shape.len() <= usize::MAX,
        dims.contains(d) != keep,
    ensures
        (if keep {
            d - count_below(dims, d as int)
        } else {
            count_below(dims, d as int) as int
        }) < part_shape(shape, dims, k, keep).len(),
        part_shape(shape, dims, k, keep)[if keep {
            d - count_below(dims, d as int)
        } else {
            count_below(dims, d as int) as int
        }] == shape[d as int],
    decreases k,
{
    lemma_part_len(shape, dims, (k - 1) as nat, keep);
    lemma_part_len(shape, dims, d as nat, keep);
    lemma_count_below_step(dims, d);
    if d < k - 1 {
        lemma_part_index(shape, dims, (k - 1) as nat, keep, d);
    }
    lemma_part_len(shape, dims, (d + 1) as nat, keep);
    if d < k - 1 {
        lemma_part_mono_len(shape, dims, (d + 1) as nat, (k - 1) as nat, keep);
    }
}

proof fn lemma_part_mono_len(shape: Seq<usize>, dims: Seq<usize>, k1: nat, k2: nat, keep: bool)
    requires
        k1 <= k2,
    ensures
        part_shape(shape, dims, k1, keep).len() <= part_shape(shape, dims, k2, keep).len(),
    decreases k2,
{
    if k1 < k2 {
        lemma_part_mono_len(shape, dims, k1, (k2 - 1) as nat, keep);
    }
}

/// A part shape of a positive shape is positive and has no more elements
/// than the shape's prefix.
pub proof fn lemma_part_numel(shape: Seq<usize>, dims: Seq<usize>, k: nat, keep: bool)
    requires
        dims_positive(shape),
        k <= shape.len(),
    ensures
        dims_positive(part_shape(shape, dims, k, keep)),
        numel_of(part_shape(shape, dims, k, keep)) <= numel_of(shape.take(k as int)),
    decreases k,
{
    if k > 0 {
        lemma_part_numel(shape, dims, (k - 1) as nat, keep);
        let p = part_shape(shape, dims, (k - 1) as nat, keep);
        let t = shape.take(k as int);
        assert(t.drop_last() =~= shape.take(k - 1));
        crate::storage::layout::lemma_numel_positive(p);
        let x = shape[k - 1] as int;
        assert(x >= 1);
        if dims.contains((k - 1) as usize) != keep {
            assert(p.push(shape[k - 1]).drop_last() =~= p);
            assert(dims_positive(p.push(shape[k - 1]))) by {
                assert forall|j: int| 0 <= j < p.len() + 1 implies #[trigger] p.push(shape[k - 1])[j] > 0 by {
                    if j < p.len() {
                        assert(p[j] > 0);
                    }
                }
            }
            assert(numel_of(p) * x <= numel_of(shape.take(k - 1)) * x) by (nonlinear_arith)
                requires
                    numel_of(p) <= numel_of(shape.take(k - 1)),
                    x >= 1,
            ;
        } else {
            crate::storage::layout::lemma_numel_positive(shape.take(k - 1));
            assert(numel_of(shape.take(k - 1)) <= numel_of(shape.take(k - 1)) * x) by (nonlinear_arith)
                requires
                    x >= 1,
            ;
        }
    }
}

/// Merging an in-bounds kept coordinate with an in-bounds reduced coordinate
/// gives an in-bounds input coordinate.
pub proof fn lemma_merged_valid(shape: Seq<usize>, dims: Seq<usize>, oc: Seq<usize>, rc: Seq<usize>)
    requires
        shape.len() <= usize::MAX,
        strictly_increasing(dims),
        dims_in_range(dims, shape.len()),
        crate::storage::layout::valid_index(kept_shape(shape, dims), oc),
        crate::storage::layout::valid_index(reduced_shape(shape, dims), rc),
    ensures
        crate::storage::layout::valid_index(shape, merged(dims, shape.len(), oc, rc)),
{
    let m = merged(dims, shape.len(), oc, rc);
    assert forall|d: int| 0 <= d < shape.len() implies #[trigger] m[d] < shape[d] by {
        let du = d as usize;
        assert(du as int == d);
        let c = count_below(dims, d);
        if dims.contains(du) {
            lemma_part_index(shape, dims, shape.len(), false, du);
            let red = reduced_shape(shape, dims);
            assert(c < red.len());
            assert(red[c as int] == shape[d]);
            assert(rc[c as int] < red[c as int]);
            assert(m[d] == rc[c as int]);
        } else {
            lemma_part_index(shape, dims, shape.len(), true, du);
            lemma_part_len(shape, dims, d as nat, true);
            let kept = kept_shape(shape, dims);
            assert(d - c < kept.len());
            assert(kept[d - c] == shape[d]);
            assert(oc[d - c] < kept[d - c]);
            assert(m[d] == oc[d - c]);
        }
    }
}

/// Two increasing sequences listing the same dimensions are equal.
pub proof fn lemma_sorted_unique(s1: Seq<usize>, s2: Seq<usize>)
    requires
        strictly_increasing(s1),
        strictly_increasing(s2),
        forall|x: usize| #![trigger s1.contains(x)] #![trigger s2.contains(x)] s1.contains(x) <==> s2.contains(x),
    ensures
        s1 == s2,
    decreases s1.len() + s2.len(),
{
    if s1.len() == 0 {
        if s2.len() > 0 {
            assert(s2.contains(s2[0]));
            assert(!s1.contains(s2[0]));
        }
        assert(s1 =~= s2);
    } else if s2.len() == 0 {
        assert(s1.contains(s1[0]));
    } else {
        let a = s1.last();
        let b = s2.last();
        assert(s1.contains(a));
        assert(s2.contains(b));
        let ja = choose|j: int| 0 <= j < s2.len() && s2[j] == a;
        let jb = choose|j: int| 0 <= j < s1.len() && s1[j] == b;
        if ja < s2.len() - 1 {
            assert(s2[ja] < s2[s2.len() - 1]);
        }
        if jb < s1.len() - 1 {
            assert(s1[jb] < s1[s1.len() - 1]);
        }
        assert(a == b);
        let d1 = s1.drop_last();
        let d2 = s2.drop_last();
        assert(strictly_increasing(d1));
        assert(strictly_increasing(d2));
        assert forall|x: usize| #![trigger d1.contains(x)] #![trigger d2.contains(x)] d1.contains(x) <==> d2.contains(x) by {
            if d1.contains(x) {
                let j = choose|j: int| 0 <= j < d1.len() && d1[j] == x;
                assert(s1[j] < s1[s1.len() - 1]);
                assert(s1.contains(x));
                let k = choose|k: int| 0 <= k < s2.len() && s2[k] == x;
                assert(k != s2.len() - 1);
                assert(d2[k] == x);
            }
            if d2.contains(x) {
                let j = choose|j: int| 0 <= j < d2.len() && d2[j] == x;
                assert(s2[j] < s2[s2.len() - 1]);
                assert(s2.contains(x));
                let k = choose|k: int| 0 <= k < s1.len() && s1[k] == x;
                assert(k != s1.len() - 1);
                assert(d1[k] == x);
            }
        }
        lemma_sorted_unique(d1, d2);
        assert(s1 =~= d1.push(a));
        assert(s2 =~= d2.push(b));
    }
}

/// Normalize a dimension list: bounds-checked, without duplicates, sorted.
/// An empty list stays empty.
pub fn normalize_dims(dims: &[usize], shape: &[usize]) -> (r: Vec<usize>)
    requires
        dims_in_range(dims@, shape@.len()),
        no_duplicates(dims@),
    ensures
        strictly_increasing(r@),
        same_dims(r@, dims@),
        r@.len() == dims@.len(),
        dims@.len() > 0 ==> r@ == sorted_dims(dims@),
        dims_in_range(r@, shape@.len()),
{
    let mut out: Vec<usize> = Vec::with_capacity(dims.len());
    let mut i: usize = 0;
    while i < dims.len()
        invariant
            i <= dims@.len(),
            no_duplicates(dims@),
            strictly_increasing(out@),
            out@.len() == i,
            same_dims(out@, dims@.take(i as int)),
        decreases dims@.len() - i,
    {
        let d = dims[i];
        let mut p: usize = 0;
        while p < out.len() && out[p] < d
            invariant
                p <= out@.len(),
                strictly_increasing(out@),
                forall|q: int| 0 <= q < p ==> #[trigger] out@[q] < d,
            decreases out@.len() - p,
        {
            p += 1;
        }
        proof {
            assert(!out@.contains(d)) by {
                if out@.contains(d) {
                    assert(dims@.take(i as int).contains(d));
                    let j = choose|j: int| 0 <= j < i && dims@.take(i as int)[j] == d;
                    assert(dims@[j] == dims@[i as int]);
                }
            }
            if p < out@.len() {
                assert(out@[p as int] != d);
            }
        }
        let ghost before = out@;
        out.insert(p, d);
        proof {
            assert(out@ == before.insert(p as int, d));
            assert forall|a: int, b: int| 0 <= a < b < out@.len() implies out@[a] < out@[b] by {
                if b < p {
                } else if a < p && b == p {
                } else if a < p {
                    assert(out@[b] == before[b - 1]);
                    if p < before.len() {
                        assert(before[p as int] > d);
                    }
                } else if a == p {
                    assert(out@[b] == before[b - 1]);
                    assert(before[p as int] >= d);
                    assert(before[p as int] != d);
                    if b - 1 > p {
                        assert(before[p as int] < before[b - 1]);
                    }
                } else {
                    assert(out@[a] == before[a - 1]);
                    assert(out@[b] == before[b - 1]);
                }
            }
            assert forall|x: usize| #[trigger] out@.contains(x) <==> dims@.take(i + 1).contains(x) by {
                if out@.contains(x) {
                    let j = choose|j: int| 0 <= j < out@.len() && out@[j] == x;
                    if j < p {
                        assert(before[j] == x);
                        assert(before.contains(x));
                    } else if j > p {
                        assert(before[j - 1] == x);
                        assert(before.contains(x));
                    }
                    if x != d {
                        assert(dims@.take(i as int).contains(x));
                        let k = choose|k: int| 0 <= k < i && dims@.take(i as int)[k] == x;
                        assert(dims@.take(i + 1)[k] == x);
                    } else {
                        assert(dims@.take(i + 1)[i as int] == x);
                    }
                }
                if dims@.take(i + 1).contains(x) {
                    let k = choose|k: int| 0 <= k < i + 1 && #[trigger] dims@.take(i + 1)[k] == x;
                    if k < i {
                        assert(dims@.take(i as int)[k] == x);
                        assert(before.contains(x));
                        let j = choose|j: int| 0 <= j < before.len() && before[j] == x;
                        if j < p {
                            assert(out@[j] == x);
                        } else {
                            assert(out@[j + 1] == x);
                        }
                    } else {
                        assert(out@[p as int] == x);
                    }
                }
            }
        }
        i += 1;
    }
    proof {
        assert(dims@.take(dims@.len() as int) =~= dims@);
        if dims@.len() > 0 {
            assert(strictly_increasing(out@) && same_dims(out@, dims@));
            let s = sorted_dims(dims@);
            lemma_sorted_unique(out@, s);
        }
        assert forall|j: int| 0 <= j < out@.len() implies #[trigger] out@[j] < shape@.len() by {
            assert(out@.contains(out@[j]));
            let k = choose|k: int| 0 <= k < dims@.len() && dims@[k] == out@[j];
        }
    }
    out
}

/// Normalize `dims`, treating an empty list as every dimension.
pub fn resolve_dims(dims: &[usize], shape: &[usize]) -> (r: Vec<usize>)
    requires
        dims_in_range(dims@, shape@.len()),
        no_duplicates(dims@),
    ensures
        r@ == resolved_dims(dims@, shape@.len()),
        strictly_increasing(r@),
        dims_in_range(r@, shape@.len()),
{
    let out = normalize_dims(dims, shape);
    if out.len() == 0 {
        let mut all: Vec<usize> = Vec::with_capacity(shape.len());
        let mut i: usize = 0;
        while i < shape.len()
            invariant
                i <= shape@.len(),
                all@ == all_dims(i as nat),
            decreases shape@.len() - i,
        {
            all.push(i);
            i += 1;
            assert(all@ =~= all_dims(i as nat));
        }
        all
    } else {
        out
    }
}

/// The sizes of the kept (`keep`) or reduced (`!keep`) dimensions of `shape`.
pub fn part_shape_vec(shape: &[usize], dims: &[usize], keep: bool) -> (r: Vec<usize>)
    ensures
        r@ == part_shape(shape@, dims@, shape@.len(), keep),
{
    let mut out: Vec<usize> = Vec::new();
    let mut d: usize = 0;
    while d < shape.len()
        invariant
            d <= shape@.len(),
            out@ == part_shape(shape@, dims@, d as nat, keep),
        decreases shape@.len() - d,
    {
        let mut listed = false;
        let mut j: usize = 0;
        while j < dims.len()
            invariant
                j <= dims@.len(),
                listed == exists|q: int| 0 <= q < j && dims@[q] == d,
            decreases dims@.len() - j,
        {
            if dims[j] == d {
                listed = true;
            }
            j += 1;
        }
        proof {
            if listed {
                let q = choose|q: int| 0 <= q < dims@.len() && dims@[q] == d;
                assert(dims@.contains(d));
            } else {
                assert(!dims@.contains(d));
            }
        }
        if listed != keep {
            out.push(shape[d]);
        }
        d += 1;
    }
    out
}

/// The shape of a reduction's result: `shape` with `dims` removed.
pub fn squeezed_shape(shape: &[usize], dims: &[usize]) -> (r: Vec<usize>)
    ensures
        r@ == kept_shape(shape@, dims@),
{
    part_shape_vec(shape, dims, true)
}

/// The input coordinate where kept coordinate `oc` and reduced coordinate
/// `rc` meet.
pub fn merge_index(dims: &[usize], n: usize, oc: &[usize], rc: &[usize]) -> (r: Vec<usize>)
    requires
        strictly_increasing(dims@),
        dims_in_range(dims@, n as nat),
        oc@.len() == n - dims@.len(),
        rc@.len() == dims@.len(),
    ensures
        r@ == merged(dims@, n as nat, oc@, rc@),
{
    let ghost m = merged(dims@, n as nat, oc@, rc@);
    let mut out: Vec<usize> = Vec::with_capacity(n);
    let mut j: usize = 0;
    let mut d: usize = 0;
    proof {
        lemma_count_below_all_zero(dims@);
    }
    while d < n
        invariant
            strictly_increasing(dims@),
            dims_in_range(dims@, n as nat),
            oc@.len() == n - dims@.len(),
            rc@.len() == dims@.len(),
            m == merged(dims@, n as nat, oc@, rc@),
            d <= n,
            j == count_below(dims@, d as int),
            j <= dims@.len(),
            j <= d,
            out@ == m.take(d as int),
        decreases n - d,
    {
        proof {
            lemma_count_below_step(dims@, d);
            if dims@.contains(d) {
                lemma_count_below_hit(dims@, d);
            }
            lemma_count_below_le(dims@, d + 1);
            lemma_part_len(Seq::new(n as nat, |i: int| 1usize), dims@, (d + 1) as nat, true);
            lemma_part_len(Seq::new(n as nat, |i: int| 1usize), dims@, n as nat, true);
            lemma_part_mono_len(Seq::new(n as nat, |i: int| 1usize), dims@, (d + 1) as nat, n as nat, true);
            lemma_count_below_full(dims@, n as nat);
        }
        if j < dims.len() && dims[j] == d {
            out.push(rc[j]);
            j += 1;
        } else {
            proof {
                assert(!dims@.contains(d));
            }
            out.push(oc[d - j]);
        }
        d += 1;
        assert(out@ =~= m.take(d as int));
    }
    assert(out@ =~= m);
    out
}

/// Every listed dimension is below `n`, so all of them count below `n`.
pub proof fn lemma_count_below_full(dims: Seq<usize>, n: nat)
    requires
        dims_in_range(dims, n),
    ensures
        count_below(dims, n as int) == dims.len(),
{
    lemma_count_below_all_less(dims, n as int);
}

/// `count_below` over all dimensions counts the smaller indices.
proof fn lemma_count_below_all_dims(m: nat, d: int)
    requires
        d >= 0,
        m <= usize::MAX,
    ensures
        count_below(all_dims(m), d) == (if d < m {
            d as nat
        } else {
            m
        }),
    decreases m,
{
    if m > 0 {
        assert(all_dims(m).drop_last() =~= all_dims((m - 1) as nat));
        assert(all_dims(m).last() == (m - 1) as usize);
        lemma_count_below_all_dims((m - 1) as nat, d);
    }
}

/// Reducing over every dimension keeps nothing and reduces the whole shape;
/// the merged coordinate is the reduced one.
pub proof fn lemma_reduce_all(shape: Seq<usize>, rc: Seq<usize>)
    requires
        rc.len() == shape.len(),
        shape.len() <= usize::MAX,
    ensures
        kept_shape(shape, all_dims(shape.len())) == Seq::<usize>::empty(),
        reduced_shape(shape, all_dims(shape.len())) == shape,
        merged(all_dims(shape.len()), shape.len(), Seq::<usize>::empty(), rc) == rc,
{
    let n = shape.len();
    lemma_part_all(shape, n, true);
    lemma_part_all(shape, n, false);
    assert(shape.take(n as int) =~= shape);
    let m = merged(all_dims(n), n, Seq::<usize>::empty(), rc);
    assert forall|d: int| 0 <= d < n implies #[trigger] m[d] == rc[d] by {
        assert(all_dims(n)[d] == d as usize);
        assert(all_dims(n).contains(d as usize));
        lemma_count_below_all_dims(n, d);
    }
    assert(m =~= rc);
}

proof fn lemma_part_all(shape: Seq<usize>, k: nat, keep: bool)
    requires
        k <= shape.len(),
        shape.len() <= usize::MAX,
    ensures
        part_shape(shape, all_dims(shape.len()), k, keep) == (if keep {
            Seq::<usize>::empty()
        } else {
            shape.take(k as int)
        }),
    decreases k,
{
    if k > 0 {
        lemma_part_all(shape, (k - 1) as nat, keep);
        assert(all_dims(shape.len())[k - 1] == (k - 1) as usize);
        assert(all_dims(shape.len()).contains((k - 1) as usize));
        assert(shape.take(k as int) =~= shape.take(k - 1).push(shape[k - 1]));
    }
}

/// An increasing list of `n` dimensions below `n` is every dimension.
pub proof fn lemma_full_dims(dims: Seq<usize>, n: nat)
    requires
        strictly_increasing(dims),
        dims_in_range(dims, n),
        dims.len() == n,
    ensures
        dims == all_dims(n),
{
    assert forall|i: int| 0 <= i < n implies dims[i] >= i by {
        lemma_increasing_lower(dims, i);
    }
    assert forall|i: int| 0 <= i < n implies dims[i] <= i by {
        lemma_increasing_upper(dims, n, i);
    }
    assert(dims =~= all_dims(n));
}

proof fn lemma_increasing_lower(dims: Seq<usize>, i: int)
    requires
        strictly_increasing(dims),
        0 <= i < dims.len(),
    ensures
        dims[i] >= i,
    decreases i,
{
    if i > 0 {
        lemma_increasing_lower(dims, i - 1);
    }
}

proof fn lemma_increasing_upper(dims: Seq<usize>, n: nat, i: int)
    requires
        strictly_increasing(dims),
        dims_in_range(dims, n),
        dims.len() == n,
        0 <= i < n,
    ensures
        dims[i] <= i,
    decreases n - i,
{
    if i < n - 1 {
        lemma_increasing_upper(dims, n, i + 1);
    }
}

/// With no listed dimension below `k`, the first `k` kept entries are the
/// prefix itself.
pub proof fn lemma_part_prefix(x: Seq<usize>, dims: Seq<usize>, k: nat)
    requires
        k <= x.len(),
        forall|p: int| 0 <= p < k ==> !dims.contains(#[trigger] (p as usize)),
    ensures
        part_shape(x, dims, k, true) == x.take(k as int),
    decreases k,
{
    if k > 0 {
        lemma_part_prefix(x, dims, (k - 1) as nat);
        assert(!dims.contains((k - 1) as usize));
        assert(x.take(k - 1).push(x[k - 1]) =~= x.take(k as int));
    }
}

/// Keeping every coordinate (no reduced dimension) gives the sequence back.
pub proof fn lemma_kept_none(x: Seq<usize>)
    requires
        x.len() <= usize::MAX + 1,
    ensures
        kept_shape(x, Seq::<usize>::empty()) == x,
{
    lemma_part_prefix(x, Seq::<usize>::empty(), x.len());
    assert(x.take(x.len() as int) =~= x);
}

proof fn lemma_part_insert(x: Seq<usize>, rest: Seq<usize>, d: usize, k: nat)
    requires
        d < k <= x.len(),
        x.len() <= usize::MAX + 1,
        forall|j: int| 0 <= j < rest.len() ==> #[trigger] rest[j] > d,
    ensures
        part_shape(x, seq![d] + rest, k, true).len() >= d,
        part_shape(x, rest, k, true) == part_shape(x, seq![d] + rest, k, true).insert(d as int, x[d as int]),
    decreases k,
{
    let all = seq![d] + rest;
    assert forall|p: int| 0 <= p < d implies !all.contains(#[trigger] (p as usize)) && !rest.contains(
        p as usize,
    ) by {
        if all.contains(p as usize) {
            let j = choose|j: int| 0 <= j < all.len() && all[j] == p as usize;
            if j > 0 {
                assert(all[j] == rest[j - 1]);
            }
        }
        if rest.contains(p as usize) {
            let j = choose|j: int| 0 <= j < rest.len() && rest[j] == p as usize;
        }
    }
    assert(all.contains(d)) by {
        assert(all[0] == d);
    }
    if k == d + 1 {
        lemma_part_prefix(x, all, d as nat);
        lemma_part_prefix(x, rest, d as nat);
        assert(!rest.contains(d)) by {
            if rest.contains(d) {
                let j = choose|j: int| 0 <= j < rest.len() && rest[j] == d;
            }
        }
        assert(x.take(d as int).push(x[d as int]) =~= x.take(d as int).insert(d as int, x[d as int]));
    } else {
        lemma_part_insert(x, rest, d, (k - 1) as nat);
        let q = (k - 1) as usize;
        assert(q != d);
        assert(all.contains(q) <==> rest.contains(q)) by {
            if all.contains(q) {
                let j = choose|j: int| 0 <= j < all.len() && all[j] == q;
                assert(j > 0);
                assert(rest[j - 1] == q);
            }
            if rest.contains(q) {
                let j = choose|j: int| 0 <= j < rest.len() && rest[j] == q;
                assert(all[j + 1] == q);
            }
        }
        let pa = part_shape(x, all, (k - 1) as nat, true);
        assert(pa.push(x[k - 1]).insert(d as int, x[d as int]) =~= pa.insert(d as int, x[d as int]).push(
            x[k - 1],
        ));
    }
}

/// Re-inserting the smallest reduced dimension `d` into the kept coordinates
/// of the remaining ones: the kept coordinates with `d` still reduced, with
/// `x[d]` inserted at position `d`.
pub proof fn lemma_kept_insert(x: Seq<usize>, rest: Seq<usize>, d: usize)
    requires
        d < x.len(),
        x.len() <= usize::MAX,
        forall|j: int| 0 <= j < rest.len() ==> #[trigger] rest[j] > d,
    ensures
        kept_shape(x, seq![d] + rest).len() >= d,
        kept_shape(x, rest) == kept_shape(x, seq![d] + rest).insert(d as int, x[d as int]),
{
    lemma_part_insert(x, rest, d, x.len());
}

/// Kept coordinates of an in-bounds coordinate are in bounds for the kept
/// shape.
pub proof fn lemma_kept_valid(shape: Seq<usize>, idx: Seq<usize>, dims: Seq<usize>, k: nat)
    requires
        k <= shape.len(),
        crate::storage::layout::valid_index(shape, idx),
    ensures
        part_shape(idx, dims, k, true).len() == part_shape(shape, dims, k, true).len(),
        forall|j: int|
            0 <= j < part_shape(idx, dims, k, true).len() ==> #[trigger] part_shape(idx, dims, k, true)[j]
                < part_shape(shape, dims, k, true)[j],
    decreases k,
{
    if k > 0 {
        lemma_kept_valid(shape, idx, dims, (k - 1) as nat);
    }
}

/// Sequences that agree outside `dims` have the same kept entries.
pub proof fn lemma_part_agree(x: Seq<usize>, y: Seq<usize>, dims: Seq<usize>, k: nat)
    requires
        k <= x.len(),
        x.len() == y.len(),
        forall|p: int| 0 <= p < k && !dims.contains(p as usize) ==> x[p] == y[p],
    ensures
        part_shape(x, dims, k, true) == part_shape(y, dims, k, true),
    decreases k,
{
    if k > 0 {
        lemma_part_agree(x, y, dims, (k - 1) as nat);
    }
}

} // verus!
