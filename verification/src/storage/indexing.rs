use crate::dtype::{Dtype, Numeric};
use crate::storage::layout::{
    dims_positive, dot, lemma_dot_le_max, lemma_dot_prefix_le, lemma_dot_take_step,
    lemma_numel_split, lemma_numel_positive, lemma_ravel_valid, lemma_strided_offset_le_max,
    lemma_strided_offset_take_step, lemma_unravel_take_step, max_offset, numel_of, ravel,
    strided_offset, unravel, valid_index,
};
use crate::storage::TensorStorage;
use std::rc::Rc;
use vstd::prelude::*;

verus! {

impl<T: Dtype> TensorStorage<T> {
    /// Flat buffer position of an in-bounds coordinate.
    pub fn md_to_flat(&self, md_idx: &[usize]) -> (r: usize)
        requires
            self.wf(),
            valid_index(self.shape@, md_idx@),
        ensures
            r == self.offset + dot(self.strides@, md_idx@),
            r < self.buffer@.len(),
    {
        proof {
            self.lemma_at_in_bounds(md_idx@);
        }
        let n = self.shape.len();
        let mut flat_index = self.offset;
        let mut i: usize = 0;
        assert(self.strides@.take(0) =~= Seq::<usize>::empty());
        while i < n
            invariant
                self.wf(),
                n == self.shape@.len(),
                valid_index(self.shape@, md_idx@),
                i <= n,
                flat_index == self.offset + dot(self.strides@.take(i as int), md_idx@.take(i as int)),
                self.offset + dot(self.strides@, md_idx@) < self.buffer@.len(),
            decreases n - i,
        {
            proof {
                lemma_dot_take_step(self.strides@, md_idx@, i as int);
                lemma_dot_prefix_le(self.strides@, md_idx@, i + 1);
                vstd::arithmetic::mul::lemma_mul_inequality(0, md_idx@[i as int] as int, self.strides@[i as int] as int);
            }
            flat_index = flat_index + self.strides[i] * md_idx[i];
            i += 1;
        }
        assert(self.strides@.take(n as int) =~= self.strides@);
        assert(md_idx@.take(n as int) =~= md_idx@);
        flat_index
    }

    /// Flat buffer position of logical (row-major) element `l_idx`.
    pub fn logic_to_flat(&self, l_idx: usize) -> (r: usize)
        requires
            self.wf(),
            l_idx < self.numel,
        ensures
            r == self.flat_index(l_idx as nat),
            r < self.buffer@.len(),
    {
        proof {
            lemma_strided_offset_le_max(self.shape@, self.strides@, l_idx as nat);
        }
        if self.contiguous {
            assert(strided_offset(self.shape@, self.strides@, l_idx as nat) == l_idx);
            l_idx + self.offset
        } else {
            let n = self.shape.len();
            let mut offset = self.offset;
            let mut curr_idx = l_idx;
            let mut i = n;
            assert(self.shape@.take(n as int) =~= self.shape@);
            assert(self.strides@.take(n as int) =~= self.strides@);
            while i > 0
                invariant
                    self.wf(),
                    n == self.shape@.len(),
                    i <= n,
                    offset + strided_offset(self.shape@.take(i as int), self.strides@.take(i as int), curr_idx as nat)
                        == self.flat_index(l_idx as nat),
                    self.flat_index(l_idx as nat) < self.buffer@.len(),
                decreases i,
            {
                i -= 1;
                let dim_size = self.shape[i];
                proof {
                    lemma_strided_offset_take_step(self.shape@, self.strides@, i as int, curr_idx as nat);
                    assert(dim_size > 0);
                    vstd::arithmetic::div_mod::lemma_fundamental_div_mod(curr_idx as int, dim_size as int);
                }
                let coord = curr_idx % dim_size;
                curr_idx = curr_idx / dim_size;
                offset = offset + coord * self.strides[i];
            }
            assert(self.shape@.take(0) =~= Seq::<usize>::empty());
            offset
        }
    }

    /// The element at in-bounds coordinate `(i, j)` of a matrix.
    pub fn at2(&self, i: usize, j: usize) -> (r: T)
        requires
            self.wf(),
            self.shape@.len() == 2,
            i < self.shape@[0],
            j < self.shape@[1],
        ensures
            r == self.value_at(seq![i, j]),
    {
        let ghost idx = seq![i, j];
        proof {
            lemma_dot2(self.strides@, idx);
            self.lemma_at_in_bounds(idx);
        }
        self.buffer[self.offset + self.strides[0] * i + self.strides[1] * j]
    }

    /// The element at in-bounds coordinate `(i0, i1, i2, i3)` of a rank-4
    /// storage.
    pub fn at4(&self, i0: usize, i1: usize, i2: usize, i3: usize) -> (r: T)
        requires
            self.wf(),
            self.shape@.len() == 4,
            i0 < self.shape@[0],
            i1 < self.shape@[1],
            i2 < self.shape@[2],
            i3 < self.shape@[3],
        ensures
            r == self.value_at(seq![i0, i1, i2, i3]),
    {
        let ghost idx = seq![i0, i1, i2, i3];
        proof {
            lemma_dot4(self.strides@, idx);
            self.lemma_at_in_bounds(idx);
        }
        self.buffer[self.offset + self.strides[0] * i0 + self.strides[1] * i1 + self.strides[2] * i2
            + self.strides[3] * i3]
    }

    /// The element at an in-bounds coordinate.
    pub fn at(&self, md_idx: &[usize]) -> (r: T)
        requires
            self.wf(),
            valid_index(self.shape@, md_idx@),
        ensures
            r == self.value_at(md_idx@),
    {
        let f = self.md_to_flat(md_idx);
        self.buffer[f]
    }

    /// The logical (row-major) element `i`.
    pub fn get(&self, i: usize) -> (r: T)
        requires
            self.wf(),
            i < self.numel,
        ensures
            r == self.elems()[i as int],
    {
        let f = self.logic_to_flat(i);
        self.buffer[f]
    }

    /// Accumulate `other` into `self` element-wise, in place.
    ///
    /// Nothing is mutated, and `false` is returned, when the accumulation
    /// cannot be done safely in place: the shapes differ, `self` is a strided
    /// view, or its buffer is shared with another storage. Callers then fall
    /// back to an allocating addition.
    pub fn try_add_assign(&mut self, other: &TensorStorage<T>) -> (ok: bool)
        where T: Numeric
        requires
            old(self).wf(),
            other.wf(),
        ensures
            final(self).wf(),
            final(self).shape@ == old(self).shape@,
            final(self).strides@ == old(self).strides@,
            final(self).offset == old(self).offset,
            final(self).numel == old(self).numel,
            final(self).contiguous == old(self).contiguous,
            ok ==> old(self).shape@ == other.shape@ && old(self).contiguous,
            ok ==> final(self).elems() == Seq::new(
                old(self).numel as nat,
                |i: int| T::spec_add(old(self).elems()[i], other.elems()[i]),
            ),
            !ok ==> final(self).buffer@ == old(self).buffer@,
    {
        if self.shape.len() != other.shape.len() || self.numel != other.numel {
            return false;
        }
        let mut d: usize = 0;
        while d < self.shape.len()
            invariant
                self.wf(),
                self.shape@.len() == other.shape@.len(),
                d <= self.shape@.len(),
                forall|k: int| 0 <= k < d ==> #[trigger] self.shape@[k] == other.shape@[k],
            decreases self.shape@.len() - d,
        {
            if self.shape[d] != other.shape[d] {
                return false;
            }
            d += 1;
        }
        assert(self.shape@ =~= other.shape@);
        if !self.contiguous {
            return false;
        }
        let ghost before = self.elems();
        let n = self.numel;
        let off = self.offset;
        let mut taken: Rc<Vec<T>> = Rc::new(Vec::new());
        std::mem::swap(&mut taken, &mut self.buffer);
        match Rc::try_unwrap(taken) {
            Ok(mut v) => {
                let ghost orig = v@;
                proof {
                    crate::storage::lemma_max_offset_is_last(self.shape@, self.strides@);
                    assert(strided_offset(self.shape@, self.strides@, (n - 1) as nat) == n - 1);
                    assert forall|j: int| 0 <= j < n implies #[trigger] before[j] == orig[off + j] by {
                        assert(strided_offset(self.shape@, self.strides@, j as nat) == j);
                    }
                }
                let mut i: usize = 0;
                while i < n
                    invariant
                        other.wf(),
                        n == other.numel,
                        off + n <= orig.len(),
                        orig.len() <= usize::MAX,
                        v@.len() == orig.len(),
                        i <= n,
                        forall|j: int| 0 <= j < n ==> #[trigger] before[j] == orig[off + j],
                        forall|j: int| 0 <= j < i ==> #[trigger] v@[off + j] == T::spec_add(before[j], other.elems()[j]),
                        forall|j: int| 0 <= j < v@.len() && !(off <= j < off + i) ==> #[trigger] v@[j] == orig[j],
                    decreases n - i,
                {
                    let cur = v[off + i];
                    let o = other.get(i);
                    v.set(off + i, cur.plus(o));
                    i += 1;
                }
                self.buffer = Rc::new(v);
                proof {
                    assert(self.elems() =~= Seq::new(
                        n as nat,
                        |i: int| T::spec_add(before[i], other.elems()[i]),
                    ));
                }
                true
            },
            Err(rc) => {
                self.buffer = rc;
                false
            },
        }
    }

    /// Write `value` at an in-bounds coordinate, in place.
    ///
    /// The buffer is only mutated when this storage is its sole owner, since
    /// writing through a shared buffer would corrupt sibling views; the result
    /// reports whether the write happened.
    pub fn set(&mut self, md_idx: &[usize], value: T) -> (ok: bool)
        requires
            old(self).wf(),
            valid_index(old(self).shape@, md_idx@),
        ensures
            final(self).wf(),
            final(self).shape@ == old(self).shape@,
            final(self).strides@ == old(self).strides@,
            final(self).offset == old(self).offset,
            final(self).numel == old(self).numel,
            final(self).contiguous == old(self).contiguous,
            ok ==> final(self).buffer@ == old(self).buffer@.update(
                old(self).offset + dot(old(self).strides@, md_idx@),
                value,
            ),
            ok ==> final(self).value_at(md_idx@) == value,
            !ok ==> final(self).buffer@ == old(self).buffer@,
    {
        let f = self.md_to_flat(md_idx);
        let mut taken: Rc<Vec<T>> = Rc::new(Vec::new());
        std::mem::swap(&mut taken, &mut self.buffer);
        match Rc::try_unwrap(taken) {
            Ok(mut v) => {
                v.set(f, value);
                self.buffer = Rc::new(v);
                true
            },
            Err(rc) => {
                self.buffer = rc;
                false
            },
        }
    }
}

/// The coordinate of row-major logical index `i` in `shape`.
pub fn unravel_index(shape: &[usize], i: usize) -> (r: Vec<usize>)
    requires
        dims_positive(shape@),
    ensures
        r@ == unravel(shape@, i as nat),
{
    let n = shape.len();
    let ghost full = unravel(shape@, i as nat);
    let mut out: Vec<usize> = vec![0; n];
    let mut rem = i;
    let mut d = n;
    proof {
        assert(shape@.take(n as int) =~= shape@);
        crate::storage::layout::lemma_unravel_len(shape@, i as nat);
        assert(full.take(n as int) =~= full);
    }
    while d > 0
        invariant
            n == shape@.len(),
            dims_positive(shape@),
            d <= n,
            out@.len() == n,
            full == unravel(shape@, i as nat),
            full.len() == n,
            unravel(shape@.take(d as int), rem as nat) == full.take(d as int),
            forall|k: int| d <= k < n ==> #[trigger] out@[k] == full[k],
        decreases d,
    {
        d -= 1;
        let s = shape[d];
        proof {
            lemma_unravel_take_step(shape@, d as int, rem as nat);
            assert(full.take(d + 1).drop_last() =~= full.take(d as int));
            assert(full.take(d + 1).last() == full[d as int]);
        }
        out.set(d, rem % s);
        rem = rem / s;
    }
    assert(out@ =~= full);
    out
}

/// The row-major logical index of an in-bounds coordinate (Horner's rule).
pub fn ravel_index(shape: &[usize], idx: &[usize]) -> (r: usize)
    requires
        valid_index(shape@, idx@),
        dims_positive(shape@),
        numel_of(shape@) <= usize::MAX,
    ensures
        r == ravel(shape@, idx@),
        r < numel_of(shape@),
{
    let n = shape.len();
    let mut r: usize = 0;
    let mut d: usize = 0;
    proof {
        lemma_ravel_valid(shape@, idx@);
    }
    while d < n
        invariant
            n == shape@.len(),
            valid_index(shape@, idx@),
            dims_positive(shape@),
            numel_of(shape@) <= usize::MAX,
            d <= n,
            r == ravel(shape@.take(d as int), idx@.take(d as int)),
        decreases n - d,
    {
        proof {
            let sp = shape@.take(d + 1);
            let ip = idx@.take(d + 1);
            assert(sp.drop_last() =~= shape@.take(d as int));
            assert(ip.drop_last() =~= idx@.take(d as int));
            assert(valid_index(sp, ip));
            lemma_ravel_valid(sp, ip);
            lemma_numel_split(shape@, d + 1);
            assert(shape@.subrange(0, d + 1) =~= sp);
            let rest = shape@.subrange(d + 1, n as int);
            assert(dims_positive(rest));
            lemma_numel_positive(rest);
            vstd::arithmetic::mul::lemma_mul_inequality(1, numel_of(rest) as int, numel_of(sp) as int);
            assert(numel_of(sp) * numel_of(rest) == numel_of(rest) * numel_of(sp)) by (nonlinear_arith);
        }
        r = r * shape[d] + idx[d];
        d += 1;
    }
    assert(shape@.take(n as int) =~= shape@);
    assert(idx@.take(n as int) =~= idx@);
    r
}

/// The weighted sum of a two-element coordinate.
pub proof fn lemma_dot2(st: Seq<usize>, idx: Seq<usize>)
    requires
        st.len() == 2,
        idx.len() == 2,
    ensures
        dot(st, idx) == st[0] * idx[0] + st[1] * idx[1],
{
    let s1 = st.drop_last();
    let i1 = idx.drop_last();
    assert(dot(s1.drop_last(), i1.drop_last()) == 0);
    assert(s1.last() == st[0] && i1.last() == idx[0]);
    assert(dot(s1, i1) == st[0] * idx[0]);
}

/// The weighted sum of a four-element coordinate.
pub proof fn lemma_dot4(st: Seq<usize>, idx: Seq<usize>)
    requires
        st.len() == 4,
        idx.len() == 4,
    ensures
        dot(st, idx) == st[0] * idx[0] + st[1] * idx[1] + st[2] * idx[2] + st[3] * idx[3],
{
    let s3 = st.drop_last();
    let i3 = idx.drop_last();
    let s2 = s3.drop_last();
    let i2 = i3.drop_last();
    let s1 = s2.drop_last();
    let i1 = i2.drop_last();
    assert(dot(s1.drop_last(), i1.drop_last()) == 0);
    assert(s1.last() == st[0] && i1.last() == idx[0]);
    assert(dot(s1, i1) == st[0] * idx[0]);
    assert(dot(s2, i2) == st[0] * idx[0] + st[1] * idx[1]);
    assert(dot(s3, i3) == st[0] * idx[0] + st[1] * idx[1] + st[2] * idx[2]);
}

} // verus!
