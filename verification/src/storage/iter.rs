use crate::dtype::Dtype;
use crate::storage::layout::{
    dims_positive, dot, lemma_dot_le_max, lemma_dot_update, lemma_odometer_prefix,
    lemma_odometer_unravel, lemma_ravel_all_max, lemma_strided_offset_is_dot, lemma_unravel_valid,
    max_offset, numel_of, odometer_next, strided_offset, unravel, valid_index, zeros,
};
use crate::storage::TensorStorage;
use vstd::prelude::*;

verus! {

/// Incremental row-major walk over a tensor's logical indices.
///
/// Yields the flat buffer index of each logical element in row-major order.
/// A shared odometer advances the flat index by the corresponding stride on
/// every step and rewinds a dimension on carry, so each step costs O(1)
/// amortized instead of an O(ndim) div/mod decomposition.
pub struct StridedIter<'a> {
    shape: &'a [usize],
    strides: &'a [usize],
    coords: Vec<usize>,
    flat: usize,
    remaining: usize,
    base: Ghost<nat>,
    total: Ghost<nat>,
}

impl<'a> StridedIter<'a> {
    /// The walk's internal consistency.
    pub closed spec fn inv(&self) -> bool {
        &&& self.shape@.len() == self.strides@.len()
        &&& self.coords@.len() == self.shape@.len()
        &&& dims_positive(self.shape@)
        &&& self.total@ == numel_of(self.shape@)
        &&& self.remaining <= self.total@
        &&& self.base@ + max_offset(self.shape@, self.strides@) <= usize::MAX
        &&& self.remaining > 0 ==> {
            &&& self.coords@ == unravel(self.shape@, self.pos())
            &&& self.flat == self.base@ + dot(self.strides@, self.coords@)
        }
    }

    /// Number of elements already yielded.
    pub closed spec fn pos(&self) -> nat {
        (self.total@ - self.remaining) as nat
    }

    pub closed spec fn shape_view(&self) -> Seq<usize> {
        self.shape@
    }

    pub closed spec fn strides_view(&self) -> Seq<usize> {
        self.strides@
    }

    pub closed spec fn base_offset(&self) -> nat {
        self.base@
    }

    pub closed spec fn len_view(&self) -> nat {
        self.total@
    }

    pub closed spec fn remaining_view(&self) -> nat {
        self.remaining as nat
    }

    /// The flat index yielded for logical element `i`.
    pub open spec fn yields(&self, i: nat) -> nat {
        self.base_offset() + strided_offset(self.shape_view(), self.strides_view(), i)
    }

    pub fn new(shape: &'a [usize], strides: &'a [usize], offset: usize, numel: usize) -> (r: Self)
        requires
            shape@.len() == strides@.len(),
            dims_positive(shape@),
            numel == numel_of(shape@),
            offset + max_offset(shape@, strides@) <= usize::MAX,
        ensures
            r.inv(),
            r.shape_view() == shape@,
            r.strides_view() == strides@,
            r.base_offset() == offset,
            r.len_view() == numel,
            r.pos() == 0,
    {
        let coords: Vec<usize> = vec![0; shape.len()];
        let r = Self {
            shape,
            strides,
            coords,
            flat: offset,
            remaining: numel,
            base: Ghost(offset as nat),
            total: Ghost(numel as nat),
        };
        proof {
            if numel > 0 {
                lemma_unravel_zero(shape@);
                lemma_dot_zeros(strides@, shape@.len());
                assert(coords@ =~= zeros(shape@.len()));
            }
        }
        r
    }

    /// Elements left to yield.
    pub fn len(&self) -> (r: usize)
        requires
            self.inv(),
        ensures
            r == self.remaining_view(),
            r == self.len_view() - self.pos(),
    {
        self.remaining
    }

    /// Yield the flat index of the next logical element, or `None` once every
    /// element has been visited.
    pub fn next(&mut self) -> (r: Option<usize>)
        requires
            old(self).inv(),
        ensures
            final(self).inv(),
            final(self).shape_view() == old(self).shape_view(),
            final(self).strides_view() == old(self).strides_view(),
            final(self).base_offset() == old(self).base_offset(),
            final(self).len_view() == old(self).len_view(),
            old(self).pos() < old(self).len_view() ==> {
                &&& r == Some(old(self).yields(old(self).pos()) as usize)
                &&& final(self).pos() == old(self).pos() + 1
            },
            old(self).pos() >= old(self).len_view() ==> {
                &&& r.is_none()
                &&& final(self).pos() == old(self).pos()
            },
    {
        if self.remaining == 0 {
            return None;
        }
        let ghost p = self.pos();
        let ghost c0 = self.coords@;
        proof {
            lemma_unravel_valid(self.shape@, p);
            lemma_strided_offset_is_dot(self.shape@, self.strides@, p);
            lemma_dot_le_max(self.shape@, self.strides@, c0);
        }
        let cur = self.flat;
        self.remaining = self.remaining - 1;

        if self.remaining > 0 {
            let ghost next = unravel(self.shape@, p + 1);
            proof {
                lemma_odometer_unravel(self.shape@, p);
                lemma_unravel_valid(self.shape@, p + 1);
                lemma_dot_le_max(self.shape@, self.strides@, next);
            }
            let n = self.coords.len();
            let mut k = n;
            let ghost sh = self.shape@;
            let ghost st = self.strides@;
            let ghost rem = self.remaining;
            let ghost base = self.base@;
            let ghost total = self.total@;
            loop
                invariant_except_break
                    forall|j: int| 0 <= j < k ==> #[trigger] self.coords@[j] == c0[j],
                    forall|j: int| k <= j < n ==> #[trigger] self.coords@[j] == 0,
                    forall|j: int| k <= j < n ==> #[trigger] c0[j] + 1 == self.shape@[j],
                    self.flat == self.base@ + dot(self.strides@, self.coords@),
                invariant
                    n == self.coords@.len(),
                    n == self.shape@.len(),
                    n == self.strides@.len(),
                    k <= n,
                    c0.len() == n,
                    valid_index(self.shape@, c0),
                    ravel_of_c0_plus_one_lt(self.shape@, c0),
                    next == odometer_next(self.shape@, c0),
                    valid_index(self.shape@, next),
                    self.base@ + max_offset(self.shape@, self.strides@) <= usize::MAX,
                    self.coords@.len() == n,
                    self.shape@ == sh,
                    self.strides@ == st,
                    self.remaining == rem,
                    self.base@ == base,
                    self.total@ == total,
                ensures
                    self.coords@ == next,
                    self.flat == self.base@ + dot(self.strides@, next),
                decreases k,
            {
                if k == 0 {
                    proof {
                        lemma_ravel_all_max(self.shape@, c0);
                    }
                    assert(false);
                    break;
                }
                k = k - 1;
                if self.coords[k] + 1 < self.shape[k] {
                    proof {
                        lemma_odometer_prefix(self.shape@, c0, k as int);
                        let t = self.shape@.take(k + 1);
                        let ct = c0.take(k + 1);
                        assert(ct.last() == c0[k as int]);
                        assert(t.last() == self.shape@[k as int]);
                        assert(t.drop_last() =~= self.shape@.take(k as int));
                        assert(ct.drop_last() =~= c0.take(k as int));
                        let new_coords = self.coords@.update(k as int, (self.coords@[k as int]
                            + 1) as usize);
                        assert(new_coords =~= odometer_next(t, ct) + zeros(
                            (n - k - 1) as nat,
                        ));
                        lemma_dot_update(self.strides@, self.coords@, k as int, (self.coords@[k as int] + 1) as usize);
                        lemma_dot_le_max(self.shape@, self.strides@, next);
                        assert(new_coords == next);
                        let stk = self.strides@[k as int] as int;
                        let ck = self.coords@[k as int] as int;
                        assert(stk * (ck + 1) == stk * ck + stk) by (nonlinear_arith);
                        assert(dot(self.strides@, next) == dot(self.strides@, self.coords@) + stk);
                    }
                    self.coords.set(k, self.coords[k] + 1);
                    self.flat = self.flat + self.strides[k];
                    break;
                } else {
                    proof {
                        lemma_dot_update(self.strides@, self.coords@, k as int, 0usize);
                    }
                    self.flat = self.flat - self.strides[k] * self.coords[k];
                    self.coords.set(k, 0);
                }
            }
            proof {
                lemma_strided_offset_is_dot(self.shape@, self.strides@, p + 1);
            }
        }
        Some(cur)
    }
}

spec fn ravel_of_c0_plus_one_lt(shape: Seq<usize>, c0: Seq<usize>) -> bool {
    crate::storage::layout::ravel(shape, c0) + 1 < numel_of(shape)
}

proof fn lemma_unravel_zero(shape: Seq<usize>)
    requires
        dims_positive(shape),
    ensures
        unravel(shape, 0) == zeros(shape.len()),
    decreases shape.len(),
{
    if shape.len() > 0 {
        lemma_unravel_zero(shape.drop_last());
        assert(unravel(shape, 0) =~= zeros(shape.len()));
    }
}

proof fn lemma_dot_zeros(strides: Seq<usize>, n: nat)
    ensures
        dot(strides, zeros(n)) == 0,
    decreases n,
{
    if n > 0 && strides.len() > 0 {
        assert(zeros(n).drop_last() =~= zeros((n - 1) as nat));
        assert(zeros(n).last() == 0);
        lemma_dot_zeros(strides.drop_last(), (n - 1) as nat);
    }
}

impl<T: Dtype> TensorStorage<T> {
    /// Flat buffer indices of each logical element, in row-major order.
    pub fn strided_indices(&self) -> (r: StridedIter<'_>)
        requires
            self.wf(),
        ensures
            r.inv(),
            r.shape_view() == self.shape@,
            r.strides_view() == self.strides@,
            r.base_offset() == self.offset,
            r.len_view() == self.numel,
            r.pos() == 0,
    {
        let blen = self.buffer.len();
        StridedIter::new(self.shape.as_slice(), self.strides.as_slice(), self.offset, self.numel)
    }
}

} // verus!
