pub mod format;
pub mod indexing;
pub mod iter;
pub mod layout;
pub mod ops;

use crate::dtype::Dtype;
use crate::storage::layout::{
    dims_positive, dot, is_canonical, lemma_canonical_offset, lemma_dot_le_max, lemma_numel_positive,
    lemma_numel_single, lemma_numel_split, lemma_numel_suffix_le, lemma_ravel_valid, lemma_strided_offset_is_dot,
    lemma_strided_offset_le_max, lemma_unravel_valid, max_offset, numel_of, ravel, strided_offset,
    unravel, valid_index, canonical_stride,
};
use std::rc::Rc;
use vstd::prelude::*;

verus! {

/// A strided view over a shared flat buffer.
///
/// Logical element `i` (row-major) lives at
/// `buffer[offset + strided_offset(shape, strides, i)]`; the coordinate `idx`
/// lives at `buffer[offset + dot(strides, idx)]`. Views share the buffer
/// through the `Rc`; materializing operations allocate a fresh contiguous one.
pub struct TensorStorage<T: Dtype> {
    pub buffer: Rc<Vec<T>>,
    pub shape: Vec<usize>,
    pub strides: Vec<usize>,
    pub contiguous: bool,
    pub numel: usize,
    pub offset: usize,
}

impl<T: Dtype> TensorStorage<T> {
    /// Well-formedness: every in-bounds coordinate addresses the buffer, the
    /// element count matches the shape, and a storage flagged contiguous maps
    /// logical element `i` to flat position `offset + i`.
    pub open spec fn wf(&self) -> bool {
        &&& self.shape@.len() == self.strides@.len()
        &&& dims_positive(self.shape@)
        &&& self.numel == numel_of(self.shape@)
        &&& self.offset + max_offset(self.shape@, self.strides@) < self.buffer@.len()
        &&& self.buffer@.len() <= usize::MAX
        &&& self.contiguous ==> forall|i: nat|
            i < self.numel ==> #[trigger] strided_offset(self.shape@, self.strides@, i) == i
    }

    /// Flat buffer position of logical element `i`.
    pub open spec fn flat_index(&self, i: nat) -> nat {
        self.offset as nat + strided_offset(self.shape@, self.strides@, i)
    }

    /// The logical elements in row-major order.
    pub open spec fn elems(&self) -> Seq<T> {
        Seq::new(self.numel as nat, |i: int| self.buffer@[self.flat_index(i as nat) as int])
    }

    /// The element at an in-bounds coordinate.
    pub open spec fn value_at(&self, idx: Seq<usize>) -> T {
        self.buffer@[self.offset + dot(self.strides@, idx)]
    }

    /// A freshly allocated row-major storage holding exactly `data`.
    pub open spec fn is_fresh(&self, shape: Seq<usize>, data: Seq<T>) -> bool {
        &&& self.wf()
        &&& self.shape@ == shape
        &&& is_canonical(shape, self.strides@)
        &&& self.contiguous
        &&& self.offset == 0
        &&& self.buffer@ == data
        &&& self.elems() == data
    }

    /// A view of `a`'s buffer with the given layout.
    pub open spec fn shares_buffer(&self, a: &TensorStorage<T>) -> bool {
        &&& self.buffer@ == a.buffer@
        &&& self.offset == a.offset
    }

    /// The logical element `i` and the coordinate it unravels to agree.
    pub proof fn lemma_elem_at(&self, i: nat)
        requires
            self.wf(),
            i < self.numel,
        ensures
            valid_index(self.shape@, unravel(self.shape@, i)),
            self.elems()[i as int] == self.value_at(unravel(self.shape@, i)),
            self.flat_index(i) < self.buffer@.len(),
    {
        lemma_unravel_valid(self.shape@, i);
        lemma_strided_offset_is_dot(self.shape@, self.strides@, i);
        lemma_strided_offset_le_max(self.shape@, self.strides@, i);
    }

    /// The element at an in-bounds coordinate is the logical element at its
    /// row-major index.
    pub proof fn lemma_value_at_ravel(&self, idx: Seq<usize>)
        requires
            self.wf(),
            valid_index(self.shape@, idx),
        ensures
            ravel(self.shape@, idx) < self.numel,
            self.value_at(idx) == self.elems()[ravel(self.shape@, idx) as int],
    {
        lemma_ravel_valid(self.shape@, idx);
        self.lemma_elem_at(ravel(self.shape@, idx));
    }

    /// Every in-bounds coordinate addresses the buffer.
    pub proof fn lemma_at_in_bounds(&self, idx: Seq<usize>)
        requires
            self.wf(),
            valid_index(self.shape@, idx),
        ensures
            self.offset + dot(self.strides@, idx) < self.buffer@.len(),
    {
        lemma_dot_le_max(self.shape@, self.strides@, idx);
    }

    /// Two storages with equal logical elements and shapes agree at every
    /// in-bounds coordinate, and conversely.
    pub proof fn lemma_elems_eq_iff_at(&self, b: &TensorStorage<T>)
        requires
            self.wf(),
            b.wf(),
            self.shape@ == b.shape@,
        ensures
            self.elems() == b.elems() <==> forall|idx: Seq<usize>|
                valid_index(self.shape@, idx) ==> #[trigger] self.value_at(idx) == b.value_at(idx),
    {
        if self.elems() == b.elems() {
            assert forall|idx: Seq<usize>| valid_index(self.shape@, idx) implies #[trigger] self.value_at(
                idx,
            ) == b.value_at(idx) by {
                lemma_ravel_valid(self.shape@, idx);
                let i = ravel(self.shape@, idx);
                self.lemma_elem_at(i);
                b.lemma_elem_at(i);
                assert(self.elems()[i as int] == b.elems()[i as int]);
            }
        }
        if forall|idx: Seq<usize>| valid_index(self.shape@, idx) ==> #[trigger] self.value_at(idx) == b.value_at(
            idx,
        ) {
            assert forall|i: int| 0 <= i < self.numel implies #[trigger] self.elems()[i]
                == b.elems()[i] by {
                self.lemma_elem_at(i as nat);
                b.lemma_elem_at(i as nat);
            }
            assert(self.elems() =~= b.elems());
        }
    }

    /// Allocate a contiguous storage of `shape` with every element set to
    /// `fill_value`.
    pub fn new(shape: Vec<usize>, fill_value: T) -> (r: Self)
        requires
            dims_positive(shape@),
            numel_of(shape@) <= usize::MAX,
        ensures
            r.is_fresh(shape@, Seq::new(numel_of(shape@), |i: int| fill_value)),
    {
        let numel = compute_numel_from_shape(&shape);
        let strides = init_strides(&shape);
        let mut buf: Vec<T> = Vec::with_capacity(numel);
        let mut i: usize = 0;
        while i < numel
            invariant
                i <= numel,
                buf@ == Seq::new(i as nat, |j: int| fill_value),
            decreases numel - i,
        {
            buf.push(fill_value);
            i += 1;
            assert(buf@ =~= Seq::new(i as nat, |j: int| fill_value));
        }
        Self::from_parts_canonical(shape, strides, buf)
    }

    /// Build a storage by computing each element from its flat index.
    pub fn from_fn<F: Fn(usize) -> T>(shape: Vec<usize>, f: F) -> (r: Self)
        requires
            dims_positive(shape@),
            numel_of(shape@) <= usize::MAX,
            forall|i: usize| i < numel_of(shape@) ==> #[trigger] f.requires((i,)),
        ensures
            r.wf(),
            r.shape@ == shape@,
            r.contiguous,
            r.offset == 0,
            r.numel == numel_of(shape@),
            r.elems() == r.buffer@,
            forall|i: int| 0 <= i < r.numel ==> #[trigger] f.ensures((i as usize,), r.elems()[i]),
    {
        let numel = compute_numel_from_shape(&shape);
        let strides = init_strides(&shape);
        let mut buf: Vec<T> = Vec::with_capacity(numel);
        let mut i: usize = 0;
        while i < numel
            invariant
                i <= numel,
                numel == numel_of(shape@),
                buf.len() == i,
                forall|i: usize| i < numel_of(shape@) ==> #[trigger] f.requires((i,)),
                forall|j: int| 0 <= j < i ==> #[trigger] f.ensures((j as usize,), buf@[j]),
            decreases numel - i,
        {
            let v = f(i);
            buf.push(v);
            i += 1;
        }
        Self::from_parts_canonical(shape, strides, buf)
    }

    /// Wrap an already-initialized row-major buffer.
    pub fn from_buffer(shape: Vec<usize>, buffer: Vec<T>) -> (r: Self)
        requires
            dims_positive(shape@),
            numel_of(shape@) == buffer@.len(),
        ensures
            r.is_fresh(shape@, buffer@),
    {
        let len = buffer.len();
        assert(numel_of(shape@) <= usize::MAX);
        let strides = init_strides(&shape);
        Self::from_parts_canonical(shape, strides, buffer)
    }

    fn from_parts_canonical(shape: Vec<usize>, strides: Vec<usize>, buffer: Vec<T>) -> (r: Self)
        requires
            dims_positive(shape@),
            is_canonical(shape@, strides@),
            numel_of(shape@) == buffer@.len(),
        ensures
            r.is_fresh(shape@, buffer@),
    {
        let numel = buffer.len();
        let r = TensorStorage {
            buffer: Rc::new(buffer),
            shape,
            strides,
            contiguous: true,
            numel,
            offset: 0,
        };
        proof {
            lemma_numel_positive(r.shape@);
            let last = unravel(r.shape@, (numel - 1) as nat);
            lemma_unravel_valid(r.shape@, (numel - 1) as nat);
            assert forall|i: nat| i < r.numel implies #[trigger] strided_offset(
                r.shape@,
                r.strides@,
                i,
            ) == i by {
                lemma_canonical_offset(r.shape@, r.strides@, i);
            }
            lemma_max_offset_is_last(r.shape@, r.strides@);
            lemma_canonical_offset(r.shape@, r.strides@, (numel - 1) as nat);
            assert(r.elems() =~= r.buffer@);
        }
        r
    }
}

/// The largest reachable offset is the offset of the last logical element.
pub proof fn lemma_max_offset_is_last(shape: Seq<usize>, strides: Seq<usize>)
    requires
        shape.len() == strides.len(),
        dims_positive(shape),
    ensures
        numel_of(shape) >= 1,
        max_offset(shape, strides) == strided_offset(shape, strides, (numel_of(shape) - 1) as nat),
    decreases shape.len(),
{
    lemma_numel_positive(shape);
    if shape.len() > 0 {
        let pre = shape.drop_last();
        let s = shape.last() as nat;
        assert(dims_positive(pre));
        lemma_max_offset_is_last(pre, strides.drop_last());
        let np = numel_of(pre);
        let i = (np * s - 1) as nat;
        assert(np * s >= 1) by {
            lemma_mul_strictly_positive_nat(np, s);
        }
        assert(i == (np - 1) * s + (s - 1)) by (nonlinear_arith)
            requires
                i == np * s - 1,
                np >= 1,
                s >= 1,
        ;
        vstd::arithmetic::div_mod::lemma_fundamental_div_mod_converse(
            i as int,
            s as int,
            (np - 1) as int,
            (s - 1) as int,
        );
        assert(numel_of(shape) == np * s);
        let st = strides.last() as int;
        assert((s - 1) * st == st * (s - 1)) by (nonlinear_arith);
        assert(strided_offset(shape, strides, i) == (s - 1) * st + strided_offset(
            pre,
            strides.drop_last(),
            (np - 1) as nat,
        ));
    }
}

proof fn lemma_mul_strictly_positive_nat(a: nat, b: nat)
    requires
        a >= 1,
        b >= 1,
    ensures
        a * b >= 1,
{
    vstd::arithmetic::mul::lemma_mul_strictly_positive(a as int, b as int);
}

/// An owned copy of a shape-like slice.
pub fn shape_vec(shape: &[usize]) -> (r: Vec<usize>)
    ensures
        r@ == shape@,
{
    let mut out: Vec<usize> = Vec::with_capacity(shape.len());
    let mut i: usize = 0;
    while i < shape.len()
        invariant
            i <= shape@.len(),
            out@ == shape@.take(i as int),
        decreases shape@.len() - i,
    {
        out.push(shape[i]);
        i += 1;
        assert(out@ =~= shape@.take(i as int));
    }
    assert(out@ =~= shape@);
    out
}

/// True when every dimension is nonzero.
pub fn are_dims_positive(shape: &[usize]) -> (r: bool)
    ensures
        r == dims_positive(shape@),
{
    let mut i: usize = 0;
    while i < shape.len()
        invariant
            i <= shape.len(),
            forall|d: int| 0 <= d < i ==> #[trigger] shape@[d] > 0,
        decreases shape.len() - i,
    {
        if shape[i] == 0 {
            return false;
        }
        i += 1;
    }
    true
}

/// The number of elements of `shape`.
pub fn compute_numel_from_shape(shape: &[usize]) -> (r: usize)
    requires
        dims_positive(shape@),
        numel_of(shape@) <= usize::MAX,
    ensures
        r == numel_of(shape@),
{
    let mut numel: usize = 1;
    let mut i: usize = 0;
    while i < shape.len()
        invariant
            i <= shape.len(),
            dims_positive(shape@),
            numel_of(shape@) <= usize::MAX,
            numel == numel_of(shape@.subrange(0, i as int)),
        decreases shape.len() - i,
    {
        proof {
            let p = shape@.subrange(0, i + 1);
            assert(p.drop_last() =~= shape@.subrange(0, i as int));
            lemma_numel_suffix_le(shape@, i + 1);
        }
        numel = numel * shape[i];
        i += 1;
    }
    assert(shape@.subrange(0, shape.len() as int) =~= shape@);
    numel
}

/// Canonical row-major strides: `strides[i]` is the product of the dimensions
/// after `i`.
pub fn init_strides(shape: &[usize]) -> (r: Vec<usize>)
    requires
        dims_positive(shape@),
        numel_of(shape@) <= usize::MAX,
    ensures
        is_canonical(shape@, r@),
{
    let n = shape.len();
    let mut strides: Vec<usize> = vec![1; n];
    let mut curr_stride: usize = 1;
    let mut i: usize = n;
    proof {
        assert(shape@.subrange(n as int, n as int) =~= Seq::<usize>::empty());
    }
    while i > 0
        invariant
            i <= n,
            n == shape.len(),
            strides.len() == n,
            dims_positive(shape@),
            numel_of(shape@) <= usize::MAX,
            curr_stride == numel_of(shape@.subrange(i as int, n as int)),
            forall|j: int| i <= j < n ==> #[trigger] strides@[j] == canonical_stride(shape@, j),
        decreases i,
    {
        i -= 1;
        strides.set(i, curr_stride);
        proof {
            let sub = shape@.subrange(i as int, n as int);
            lemma_numel_split(sub, 1);
            assert(sub.subrange(0, 1) =~= seq![shape@[i as int]]);
            assert(seq![shape@[i as int]].drop_last() =~= Seq::<usize>::empty());
            assert(sub.subrange(1, sub.len() as int) =~= shape@.subrange(i + 1, n as int));
            lemma_numel_suffix_le(shape@, i as int);
            lemma_numel_single(shape@[i as int]);
            assert(numel_of(sub) == shape@[i as int] * curr_stride);
            assert(shape@[i as int] * curr_stride == curr_stride * shape@[i as int]) by (nonlinear_arith);
        }
        curr_stride = curr_stride * shape[i];
    }
    strides
}

} // verus!
