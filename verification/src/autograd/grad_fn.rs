//! Folding the gradient of a broadcast result back onto an operand: the
//! gradient is summed over every axis that broadcasting stretched.
use crate::dtype::Numeric;
use crate::storage::layout::{dims_positive, lemma_dot_zero_coord, lemma_numel_single, valid_index, zeros, unravel};
use crate::storage::ops::broadcast::{broadcasts_to, ones};
use crate::storage::ops::dims::{
    count_below, kept_shape, lemma_kept_insert, lemma_kept_none, lemma_part_index, lemma_part_len, lemma_sorted_unique,
    merged, reduced_shape, resolved_dims, same_dims, sorted_dims,
};
use crate::storage::ops::reduce::{fold_sum, slice_values};
use crate::storage::TensorStorage;
use vstd::prelude::*;

verus! {

/// `f` summed left to right along axis `d` (of length `len`), read at
/// coordinate `c` with that axis varied.
pub open spec fn axis_sum<T: Numeric>(f: spec_fn(Seq<usize>) -> T, len: nat, d: int) -> spec_fn(Seq<usize>) -> T {
    |c: Seq<usize>| fold_sum(Seq::new(len, |t: int| f(c.update(d, t as usize))))
}

/// `f` summed over every axis from `k` on that broadcasting stretched (size
/// 1 in `aligned`, larger in `shape`), the last such axis first.
pub open spec fn broadcast_sums<T: Numeric>(
    f: spec_fn(Seq<usize>) -> T,
    shape: Seq<usize>,
    aligned: Seq<usize>,
    k: int,
) -> spec_fn(Seq<usize>) -> T
    decreases shape.len() - k,
{
    if k < 0 || k >= shape.len() {
        f
    } else {
        let g = broadcast_sums(f, shape, aligned, k + 1);
        if aligned[k] == 1 && shape[k] > 1 {
            axis_sum(g, shape[k] as nat, k)
        } else {
            g
        }
    }
}

/// Values `f` over a broadcast shape `full` folded onto an operand of shape
/// `target`, at the operand's coordinate `c`: summed over the stretched
/// axes, read with the leading added axes at 0.
pub open spec fn folded<T: Numeric>(f: spec_fn(Seq<usize>) -> T, full: Seq<usize>, target: Seq<usize>, c: Seq<usize>) -> T {
    let nd = (full.len() - target.len()) as nat;
    (broadcast_sums(f, full, ones(nd) + target, 0))(zeros(nd) + c)
}

/// The gradient, at coordinate `c` of an operand of shape `target`, of a
/// result broadcast from it whose gradient is `g`.
pub open spec fn folded_grad<T: Numeric>(g: TensorStorage<T>, target: Seq<usize>, c: Seq<usize>) -> T {
    folded(|x: Seq<usize>| g.value_at(x), g.shape@, target, c)
}

/// The coordinates at which the sums from axis `k` on read their values:
/// in bounds of `full`, except that a stretched axis from `k` on is still at 0.
spec fn sums_domain(full: Seq<usize>, aligned: Seq<usize>, k: int, y: Seq<usize>) -> bool {
    &&& y.len() == full.len()
    &&& forall|p: int|
        0 <= p < full.len() ==> #[trigger] y[p] < (if p >= k && aligned[p] == 1 {
            1usize
        } else {
            full[p]
        })
}

proof fn lemma_sums_agree<T: Numeric>(
    f1: spec_fn(Seq<usize>) -> T,
    f2: spec_fn(Seq<usize>) -> T,
    full: Seq<usize>,
    aligned: Seq<usize>,
    k: int,
    y: Seq<usize>,
)
    requires
        0 <= k <= full.len(),
        aligned.len() == full.len(),
        dims_positive(full),
        forall|x: Seq<usize>| valid_index(full, x) ==> #[trigger] f1(x) == f2(x),
        sums_domain(full, aligned, k, y),
    ensures
        (broadcast_sums(f1, full, aligned, k))(y) == (broadcast_sums(f2, full, aligned, k))(y),
    decreases full.len() - k,
{
    if k == full.len() {
        assert(valid_index(full, y));
    } else if aligned[k] == 1 && full[k] > 1 {
        let len = full[k] as nat;
        let b1 = broadcast_sums(f1, full, aligned, k + 1);
        let b2 = broadcast_sums(f2, full, aligned, k + 1);
        let s1 = Seq::new(len, |t: int| b1(y.update(k, t as usize)));
        let s2 = Seq::new(len, |t: int| b2(y.update(k, t as usize)));
        assert forall|t: int| 0 <= t < len implies s1[t] == s2[t] by {
            let y2 = y.update(k, t as usize);
            assert(sums_domain(full, aligned, k + 1, y2)) by {
                assert forall|p: int| 0 <= p < full.len() implies #[trigger] y2[p] < (if p >= k + 1 && aligned[p]
                    == 1 {
                    1usize
                } else {
                    full[p]
                }) by {
                    if p != k {
                        assert(y2[p] == y[p]);
                    }
                }
            }
            lemma_sums_agree(f1, f2, full, aligned, k + 1, y2);
        }
        assert(s1 =~= s2);
    } else {
        assert(sums_domain(full, aligned, k + 1, y)) by {
            assert forall|p: int| 0 <= p < full.len() implies #[trigger] y[p] < (if p >= k + 1 && aligned[p] == 1 {
                1usize
            } else {
                full[p]
            }) by {
                if p == k && aligned[k] == 1 {
                    assert(full[k] > 0);
                }
            }
        }
        lemma_sums_agree(f1, f2, full, aligned, k + 1, y);
    }
}

/// Folding values that agree on every in-bounds coordinate gives the same
/// result.
pub proof fn lemma_folded_agree<T: Numeric>(
    f1: spec_fn(Seq<usize>) -> T,
    f2: spec_fn(Seq<usize>) -> T,
    full: Seq<usize>,
    target: Seq<usize>,
    c: Seq<usize>,
)
    requires
        dims_positive(full),
        broadcasts_to(target, full),
        forall|x: Seq<usize>| valid_index(full, x) ==> #[trigger] f1(x) == f2(x),
        valid_index(target, c),
    ensures
        folded(f1, full, target, c) == folded(f2, full, target, c),
{
    let nd = (full.len() - target.len()) as nat;
    let al = ones(nd) + target;
    let y = zeros(nd) + c;
    assert(sums_domain(full, al, 0, y)) by {
        assert forall|p: int| 0 <= p < full.len() implies #[trigger] y[p] < (if p >= 0 && al[p] == 1 {
            1usize
        } else {
            full[p]
        }) by {
            if p >= nd {
                assert(y[p] == c[p - nd]);
                assert(al[p] == target[p - nd]);
                assert(target[p - nd] == full[p - nd + (full.len() - target.len())] || target[p - nd] == 1);
            }
        }
    }
    lemma_sums_agree(f1, f2, full, al, 0, y);
}

/// Whether two shapes are equal.
pub fn same_shape(a: &[usize], b: &[usize]) -> (r: bool)
    ensures
        r == (a@ == b@),
{
    if a.len() != b.len() {
        return false;
    }
    let mut i: usize = 0;
    while i < a.len()
        invariant
            a@.len() == b@.len(),
            i <= a@.len(),
            forall|j: int| 0 <= j < i ==> a@[j] == b@[j],
        decreases a@.len() - i,
    {
        if a[i] != b[i] {
            return false;
        }
        i += 1;
    }
    proof {
        assert(a@ =~= b@);
    }
    true
}

/// Where nothing was stretched, summing over stretched axes changes nothing.
proof fn lemma_no_sums<T: Numeric>(f: spec_fn(Seq<usize>) -> T, shape: Seq<usize>, k: int, c: Seq<usize>)
    requires
        0 <= k <= shape.len(),
    ensures
        (broadcast_sums(f, shape, shape, k))(c) == f(c),
    decreases shape.len() - k,
{
    if k < shape.len() {
        lemma_no_sums(f, shape, k + 1, c);
    }
}

/// The shapes and coordinates of a reduction over the single axis `d`.
proof fn lemma_single_axis(shape: Seq<usize>, d: usize, oc: Seq<usize>, t: usize)
    requires
        d < shape.len(),
        shape.len() <= usize::MAX,
        t < shape[d as int],
        oc.len() + 1 == shape.len(),
    ensures
        kept_shape(shape, seq![d]) == shape.remove(d as int),
        reduced_shape(shape, seq![d]) == seq![shape[d as int]],
        unravel(seq![shape[d as int]], t as nat) == seq![t],
        merged(seq![d], shape.len(), oc, seq![t]) == oc.insert(d as int, t),
{
    let ds = seq![d];
    lemma_kept_insert(shape, Seq::<usize>::empty(), d);
    assert(seq![d] + Seq::<usize>::empty() =~= ds);
    lemma_kept_none(shape);
    let k = kept_shape(shape, ds);
    assert(k.insert(d as int, shape[d as int]).remove(d as int) =~= k);
    assert(ds.drop_last() =~= Seq::<usize>::empty());
    assert(ds.contains(d)) by {
        assert(ds[0] == d);
    }
    lemma_part_len(shape, ds, shape.len(), false);
    lemma_part_index(shape, ds, shape.len(), false, d);
    assert(count_below(Seq::<usize>::empty(), shape.len() as int) == 0);
    assert(count_below(Seq::<usize>::empty(), d as int) == 0);
    assert(ds.last() == d);
    assert(count_below(ds, shape.len() as int) == 1);
    assert(count_below(ds, d as int) == 0);
    assert(reduced_shape(shape, ds) =~= seq![shape[d as int]]);
    let s = seq![shape[d as int]];
    assert(s.drop_last() =~= Seq::<usize>::empty());
    assert(unravel(Seq::<usize>::empty(), t as nat / shape[d as int] as nat) == Seq::<usize>::empty());
    vstd::arithmetic::div_mod::lemma_small_mod(t as nat, shape[d as int] as nat);
    assert(unravel(s, t as nat) =~= seq![t]);
    let m = merged(ds, shape.len(), oc, seq![t]);
    assert forall|p: int| 0 <= p < shape.len() implies #[trigger] m[p] == oc.insert(d as int, t)[p] by {
        assert(count_below(Seq::<usize>::empty(), p) == 0);
        assert(count_below(ds, p) == (if d < p {
            1nat
        } else {
            0nat
        }));
        if ds.contains(p as usize) {
            let j = choose|j: int| 0 <= j < ds.len() && ds[j] == p as usize;
            assert(p == d);
        }
    }
    assert(m =~= oc.insert(d as int, t));
}

/// Sum over axis `d`, keeping it as a size-1 axis: each entry is the
/// left-to-right sum of the entries along that axis.
pub fn sum_keepdim<T: Numeric>(g: &TensorStorage<T>, d: usize) -> (r: TensorStorage<T>)
    requires
        g.wf(),
        d < g.shape@.len(),
    ensures
        r.wf(),
        r.shape@ == g.shape@.update(d as int, 1usize),
        forall|c: Seq<usize>|
            valid_index(r.shape@, c) ==> #[trigger] r.value_at(c) == (axis_sum(
                |x: Seq<usize>| g.value_at(x),
                g.shape@[d as int] as nat,
                d as int,
            ))(c),
{
    let ghost gs = g.shape@;
    let rank = g.shape.len();
    let dims: Vec<usize> = vec![d];
    proof {
        assert(gs.len() == rank);
        assert(dims@ =~= seq![d]);
        assert(crate::storage::ops::shape::strictly_increasing(dims@));
        assert(same_dims(dims@, dims@));
        lemma_sorted_unique(sorted_dims(dims@), dims@);
        assert(resolved_dims(dims@, gs.len()) == dims@);
        crate::storage::layout::lemma_numel_positive(gs);
        assert(gs[d as int] > 0);
    }
    let s = TensorStorage::sum(g, dims.as_slice());
    proof {
        lemma_single_axis(gs, d, gs.remove(d as int), 0);
    }
    let u = TensorStorage::unsqueeze(&s, d);
    proof {
        assert(u.shape@ =~= gs.update(d as int, 1usize));
        assert forall|c: Seq<usize>| valid_index(u.shape@, c) implies #[trigger] u.value_at(c) == (axis_sum(
            |x: Seq<usize>| g.value_at(x),
            gs[d as int] as nat,
            d as int,
        ))(c) by {
            let oc = c.remove(d as int);
            crate::storage::layout::lemma_dot_insert_zero(s.strides@, c, d as int);
            assert(u.value_at(c) == s.value_at(oc));
            assert(valid_index(s.shape@, oc)) by {
                assert forall|p: int| 0 <= p < s.shape@.len() implies #[trigger] oc[p] < s.shape@[p] by {
                    if p < d {
                        assert(oc[p] == c[p]);
                    } else {
                        assert(oc[p] == c[p + 1]);
                    }
                }
            }
            let len = gs[d as int] as nat;
            let lhs = slice_values(*g, dims@, oc);
            let rhs = Seq::new(len, |t: int| g.value_at(c.update(d as int, t as usize)));
            lemma_numel_single(gs[d as int]);
            assert forall|t: int| 0 <= t < len implies lhs[t] == rhs[t] by {
                lemma_single_axis(gs, d, oc, t as usize);
                assert(oc.insert(d as int, t as usize) =~= c.update(d as int, t as usize));
            }
            assert(lhs =~= rhs);
            let f = |x: Seq<usize>| g.value_at(x);
            let ax = Seq::new(len, |t: int| f(c.update(d as int, t as usize)));
            assert(ax =~= rhs);
            assert((axis_sum(f, len, d as int))(c) == fold_sum(ax));
        }
    }
    u
}

/// Fold the gradient `in_grad` of a result broadcast from an operand of shape
/// `target_shape` back onto that operand: sum over every axis broadcasting
/// stretched (keeping it as a size-1 axis), last axis first, then drop the
/// leading axes the operand did not have. When nothing was broadcast the
/// gradient is passed on as a view (`retain_graph`) or a copy.
pub fn reduce_grad_to_shape<T: Numeric>(
    in_grad: &TensorStorage<T>,
    target_shape: &[usize],
    retain_graph: bool,
) -> (r: TensorStorage<T>)
    requires
        in_grad.wf(),
        broadcasts_to(target_shape@, in_grad.shape@),
    ensures
        r.wf(),
        r.shape@ == target_shape@,
        forall|c: Seq<usize>|
            valid_index(target_shape@, c) ==> #[trigger] r.value_at(c) == folded_grad(*in_grad, target_shape@, c),
        in_grad.shape@ == target_shape@ ==> r.shares_buffer(in_grad) && r.strides@ == in_grad.strides@,
{
    let ghost f0 = |x: Seq<usize>| in_grad.value_at(x);
    if same_shape(in_grad.shape.as_slice(), target_shape) {
        let r = if retain_graph {
            TensorStorage::copy_s(in_grad)
        } else {
            TensorStorage::copy_d(in_grad)
        };
        proof {
            assert(ones(0) + target_shape@ =~= target_shape@);
            assert forall|c: Seq<usize>| valid_index(target_shape@, c) implies #[trigger] r.value_at(c)
                == folded_grad(*in_grad, target_shape@, c) by {
                assert(zeros(0) + c =~= c);
                lemma_no_sums(f0, in_grad.shape@, 0, c);
                if !retain_graph {
                    r.lemma_elems_eq_iff_at(in_grad);
                }
            }
        }
        return r;
    }
    let n = in_grad.shape.len();
    let nd = n - target_shape.len();
    let mut aligned: Vec<usize> = Vec::new();
    let mut i: usize = 0;
    while i < n
        invariant
            n == in_grad.shape@.len(),
            nd == n - target_shape@.len(),
            target_shape@.len() <= n,
            i <= n,
            aligned@ =~= (ones(nd as nat) + target_shape@).take(i as int),
        decreases n - i,
    {
        if i < nd {
            aligned.push(1);
        } else {
            aligned.push(target_shape[i - nd]);
        }
        proof {
            assert((ones(nd as nat) + target_shape@).take(i + 1) =~= (ones(nd as nat) + target_shape@).take(
                i as int,
            ).push((ones(nd as nat) + target_shape@)[i as int]));
        }
        i += 1;
    }
    let ghost al = ones(nd as nat) + target_shape@;
    let ghost bs = in_grad.shape@;
    proof {
        assert(al.take(n as int) =~= al);
        assert(aligned@ == al);
    }
    let mut g = TensorStorage::copy_s(in_grad);
    let mut d: usize = n;
    proof {
        assert(Seq::new(n as nat, |p: int| if p >= n && al[p] == 1 { 1usize } else { bs[p] }) =~= bs);
    }
    while d > 0
        invariant
            in_grad.wf(),
            bs == in_grad.shape@,
            n == bs.len(),
            al.len() == n,
            aligned@ == al,
            dims_positive(bs),
            d <= n,
            g.wf(),
            g.shape@ == Seq::new(n as nat, |p: int| if p >= d && al[p] == 1 { 1usize } else { bs[p] }),
            forall|c: Seq<usize>|
                valid_index(g.shape@, c) ==> #[trigger] g.value_at(c) == (broadcast_sums(f0, bs, al, d as int))(c),
            f0 == (|x: Seq<usize>| in_grad.value_at(x)),
        decreases d,
    {
        d -= 1;
        if aligned[d] == 1 && in_grad.shape[d] > 1 {
            let ghost gs = g.shape@;
            let ghost fp = broadcast_sums(f0, bs, al, d + 1);
            let u = sum_keepdim(&g, d);
            proof {
                let ns = Seq::new(n as nat, |p: int| if p >= d && al[p] == 1 { 1usize } else { bs[p] });
                assert(u.shape@ =~= ns);
                assert forall|c: Seq<usize>| valid_index(u.shape@, c) implies #[trigger] u.value_at(c) == (
                broadcast_sums(f0, bs, al, d as int))(c) by {
                    let len = bs[d as int] as nat;
                    let lhs = Seq::new(len, |t: int| g.value_at(c.update(d as int, t as usize)));
                    let rhs = Seq::new(len, |t: int| fp(c.update(d as int, t as usize)));
                    assert forall|t: int| 0 <= t < len implies lhs[t] == rhs[t] by {
                        assert(valid_index(gs, c.update(d as int, t as usize)));
                    }
                    assert(lhs =~= rhs);
                    let f = |x: Seq<usize>| g.value_at(x);
                    let ax = Seq::new(len, |t: int| f(c.update(d as int, t as usize)));
                    assert(ax =~= lhs);
                    assert(u.value_at(c) == fold_sum(ax));
                    assert((broadcast_sums(f0, bs, al, d as int))(c) == (axis_sum(fp, len, d as int))(c));
                    assert((axis_sum(fp, len, d as int))(c) == fold_sum(rhs));
                }
            }
            g = u;
        } else {
            proof {
                assert(Seq::new(n as nat, |p: int| if p >= d && al[p] == 1 { 1usize } else { bs[p] }) =~= g.shape@);
            }
        }
    }
    let mut j: usize = 0;
    let ghost full = g.shape@;
    proof {
        assert(full.skip(0) =~= full);
        assert forall|c: Seq<usize>| valid_index(g.shape@, c) implies #[trigger] g.value_at(c) == (broadcast_sums(
            f0,
            bs,
            al,
            0,
        ))(zeros(0) + c) by {
            assert(zeros(0) + c =~= c);
        }
    }
    while j < nd
        invariant
            n == bs.len(),
            nd <= n,
            al == ones(nd as nat) + target_shape@,
            full == Seq::new(n as nat, |p: int| if p >= 0 && al[p] == 1 { 1usize } else { bs[p] }),
            j <= nd,
            g.wf(),
            g.shape@ == full.skip(j as int),
            forall|c: Seq<usize>|
                valid_index(g.shape@, c) ==> #[trigger] g.value_at(c) == (broadcast_sums(f0, bs, al, 0))(zeros(
                    j as nat,
                ) + c),
        decreases nd - j,
    {
        proof {
            assert(g.shape@[0] == full[j as int]);
            assert(al[j as int] == 1);
        }
        let h = TensorStorage::squeeze(&g, 0);
        proof {
            assert(h.shape@ =~= full.skip(j + 1));
            assert forall|c: Seq<usize>| valid_index(h.shape@, c) implies #[trigger] h.value_at(c) == (
            broadcast_sums(f0, bs, al, 0))(zeros((j + 1) as nat) + c) by {
                lemma_dot_zero_coord(g.strides@, c, 0);
                let c1 = c.insert(0, 0usize);
                assert(valid_index(g.shape@, c1)) by {
                    assert forall|p: int| 0 <= p < g.shape@.len() implies #[trigger] c1[p] < g.shape@[p] by {
                        if p > 0 {
                            assert(c1[p] == c[p - 1]);
                            assert(h.shape@[p - 1] == g.shape@[p]);
                        }
                    }
                }
                assert(zeros(j as nat) + c1 =~= zeros((j + 1) as nat) + c);
                assert(g.value_at(c1) == (broadcast_sums(f0, bs, al, 0))(zeros(j as nat) + c1));
                assert(h.value_at(c) == g.value_at(c1));
            }
        }
        g = h;
        j += 1;
    }
    proof {
        assert(g.shape@ =~= target_shape@) by {
            assert forall|p: int| 0 <= p < target_shape@.len() implies #[trigger] g.shape@[p] == target_shape@[p] by {
                assert(g.shape@[p] == full[p + nd]);
                assert(al[p + nd] == target_shape@[p]);
                assert(target_shape@[p] == bs[p + (bs.len() - target_shape@.len())] || target_shape@[p] == 1);
            }
        }
    }
    g
}

} // verus!
