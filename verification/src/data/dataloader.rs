//! Shuffled batching over the MNIST dataset.
use crate::data::dataset::MNISTDataset;
use crate::storage::TensorStorage;
use rand::rngs::StdRng;
use rand::seq::SliceRandom;
use rand::SeedableRng;
use vstd::prelude::*;

verus! {

#[verifier::external_type_specification]
#[verifier::external_body]
pub struct ExStdRng(rand::rngs::StdRng);

/// A generator seeded from `seed` through `StdRng::seed_from_u64`
/// (`rand_core`'s `SeedableRng`). Nothing is claimed of its state.
#[verifier::external_body]
fn seeded_rng(seed: u64) -> StdRng {
    StdRng::seed_from_u64(seed)
}

/// Shuffle `indices` in place with `SliceRandom::shuffle` from `rand`, a
/// Fisher–Yates pass of swaps: the result is a permutation of the input.
/// Which permutation comes out depends on the generator and is not stated.
#[verifier::external_body]
fn shuffle_indices(indices: &mut Vec<usize>, rng: &mut StdRng)
    ensures
        final(indices)@.len() == old(indices)@.len(),
        final(indices)@.to_multiset() == old(indices)@.to_multiset(),
{
    indices.shuffle(rng);
}

/// Number of batches of `batch_size` needed to cover `len` items (the last
/// batch may be short).
pub fn num_batches_for(len: usize, batch_size: usize) -> (r: usize)
    requires
        batch_size > 0,
    ensures
        r == (len + batch_size - 1) / (batch_size as int),
{
    let q = len / batch_size;
    let rem = len % batch_size;
    proof {
        vstd::arithmetic::div_mod::lemma_fundamental_div_mod(len as int, batch_size as int);
        if rem == 0 {
            assert(q * batch_size == batch_size * q) by (nonlinear_arith);
            vstd::arithmetic::div_mod::lemma_fundamental_div_mod_converse(
                len + batch_size - 1,
                batch_size as int,
                q as int,
                batch_size - 1,
            );
        } else {
            assert((q + 1) * batch_size == batch_size * q + batch_size) by (nonlinear_arith);
            assert(batch_size >= 2);
            assert(q < len) by (nonlinear_arith)
                requires
                    len == batch_size * q + rem,
                    batch_size >= 2,
                    rem > 0,
            ;
            vstd::arithmetic::div_mod::lemma_fundamental_div_mod_converse(
                len + batch_size - 1,
                batch_size as int,
                q + 1,
                rem - 1,
            );
        }
    }
    if rem == 0 {
        q
    } else {
        q + 1
    }
}

/// The identity order `0, 1, ..., n - 1`.
pub open spec fn identity_order(n: nat) -> Seq<usize> {
    Seq::new(n, |i: int| i as usize)
}

/// Batches MNIST items in a (re)shufflable order.
pub struct MnistDataLoader {
    pub dataset: MNISTDataset,
    batch_size: usize,
    num_batches: usize,
    shuffle: bool,
    rng: StdRng,
    indices: Vec<usize>,
}

impl MnistDataLoader {
    /// The dataset being batched.
    pub closed spec fn data(&self) -> MNISTDataset {
        self.dataset
    }

    pub closed spec fn batch_size_view(&self) -> nat {
        self.batch_size as nat
    }

    pub closed spec fn num_batches_view(&self) -> nat {
        self.num_batches as nat
    }

    pub closed spec fn shuffled(&self) -> bool {
        self.shuffle
    }

    /// The order in which dataset items are visited.
    pub closed spec fn order(&self) -> Seq<usize> {
        if self.shuffle {
            self.indices@
        } else {
            identity_order(self.dataset.labels_view().len())
        }
    }

    /// The visiting order is a permutation of the dataset's item indices and
    /// the batch count covers them all.
    pub closed spec fn wf(&self) -> bool {
        &&& self.dataset.wf()
        &&& self.batch_size > 0
        &&& self.num_batches == (self.dataset.labels_view().len() + self.batch_size - 1) / (
        self.batch_size as int)
        &&& self.indices@.to_multiset() == identity_order(self.dataset.labels_view().len()).to_multiset()
        &&& self.indices@.len() == self.dataset.labels_view().len()
    }

    /// A loader over `dataset`; with `shuffle` the order is a seeded random
    /// permutation.
    pub fn new(dataset: MNISTDataset, batch_size: usize, shuffle: bool, seed: u64) -> (r: Self)
        requires
            dataset.wf(),
            batch_size > 0,
        ensures
            r.wf(),
            r.data() == dataset,
            r.batch_size_view() == batch_size,
            r.shuffled() == shuffle,
            r.order().to_multiset() == identity_order(dataset.labels_view().len()).to_multiset(),
            !shuffle ==> r.order() == identity_order(dataset.labels_view().len()),
    {
        let n = dataset.len();
        let num_batches = num_batches_for(n, batch_size);
        let mut rng = seeded_rng(seed);
        let mut indices: Vec<usize> = Vec::with_capacity(n);
        let mut i: usize = 0;
        while i < n
            invariant
                i <= n,
                indices@ == identity_order(i as nat),
            decreases n - i,
        {
            indices.push(i);
            i += 1;
            assert(indices@ =~= identity_order(i as nat));
        }
        if shuffle {
            shuffle_indices(&mut indices, &mut rng);
        }
        MnistDataLoader { dataset, batch_size, num_batches, shuffle, rng, indices }
    }

    /// Number of batches.
    pub fn size(&self) -> (r: usize)
        ensures
            r == self.num_batches_view(),
    {
        self.num_batches
    }

    /// Number of batches.
    pub fn len(&self) -> (r: usize)
        ensures
            r == self.num_batches_view(),
    {
        self.num_batches
    }

    pub fn is_empty(&self) -> (r: bool)
        ensures
            r == (self.num_batches_view() == 0),
    {
        self.num_batches == 0
    }

    /// Draw a fresh visiting order when shuffling is enabled.
    pub fn reshuffle(&mut self)
        requires
            old(self).wf(),
        ensures
            final(self).wf(),
            final(self).data() == old(self).data(),
            final(self).batch_size_view() == old(self).batch_size_view(),
            final(self).shuffled() == old(self).shuffled(),
            final(self).order().to_multiset() == old(self).order().to_multiset(),
            !old(self).shuffled() ==> final(self).order() == old(self).order(),
    {
        if self.shuffle {
            shuffle_indices(&mut self.indices, &mut self.rng);
        }
    }

    /// What well-formedness says of the observable views.
    pub proof fn lemma_wf_facts(&self)
        requires
            self.wf(),
        ensures
            self.batch_size_view() > 0,
            self.num_batches_view() == (self.data().labels_view().len() + self.batch_size_view() - 1)
                / (self.batch_size_view() as int),
            self.order().len() == self.data().labels_view().len(),
            self.data().wf(),
    {
    }

    /// First item position of batch `index` in the visiting order.
    pub open spec fn batch_start(&self, index: nat) -> nat {
        index * self.batch_size_view()
    }

    /// Number of items in batch `index` (the last batch may be short).
    pub open spec fn batch_len(&self, index: nat) -> nat {
        let start = self.batch_start(index);
        let n = self.data().labels_view().len();
        if start + self.batch_size_view() <= n {
            self.batch_size_view()
        } else {
            (n - start) as nat
        }
    }

    proof fn lemma_order_in_range(&self, k: int)
        requires
            self.wf(),
            0 <= k < self.data().labels_view().len(),
        ensures
            self.order()[k] < self.data().labels_view().len(),
            self.order().len() == self.data().labels_view().len(),
    {
        let n = self.dataset.labels_view().len();
        if self.shuffle {
            let x = self.indices@[k];
            vstd::seq_lib::to_multiset_contains(self.indices@, x);
            vstd::seq_lib::to_multiset_contains(identity_order(n), x);
            assert(self.indices@.contains(x));
            let j = choose|j: int| 0 <= j < n && identity_order(n)[j] == x;
        }
    }

    /// Batch `index`: its images stacked into `[len, 1, rows, cols]` and its
    /// labels into `[len]`, raw bytes in visiting order.
    pub fn get_batch(&self, index: usize) -> (r: (TensorStorage<u8>, TensorStorage<u8>))
        requires
            self.wf(),
            index < self.num_batches_view(),
        ensures
            r.0.wf(),
            r.0.shape@ == seq![
                self.batch_len(index as nat) as usize,
                1usize,
                self.data().rows_view() as usize,
                self.data().cols_view() as usize,
            ],
            r.0.elems() == r.0.buffer@,
            r.1.wf(),
            r.1.shape@ == seq![self.batch_len(index as nat) as usize],
            r.1.elems() == r.1.buffer@,
            forall|s: int, p: int|
                0 <= s < self.batch_len(index as nat) && 0 <= p < self.data().rows_view()
                    * self.data().cols_view() ==> #[trigger] r.0.elems()[s * (self.data().rows_view()
                    * self.data().cols_view()) + p] == self.data().images_view()[self.order()[self.batch_start(
                    index as nat,
                ) + s] * (self.data().rows_view() * self.data().cols_view()) + p],
            forall|s: int|
                0 <= s < self.batch_len(index as nat) ==> #[trigger] r.1.elems()[s]
                    == self.data().labels_view()[self.order()[self.batch_start(index as nat) + s] as int],
    {
        let n = self.dataset.len();
        let ghost len = n as nat;
        proof {
            vstd::arithmetic::div_mod::lemma_fundamental_div_mod((n + self.batch_size - 1) as int, self.batch_size as int);
            assert(index * self.batch_size < n) by (nonlinear_arith)
                requires
                    index < (n + self.batch_size - 1) / (self.batch_size as int),
                    self.batch_size > 0,
                    (n + self.batch_size - 1) == self.batch_size * ((n + self.batch_size - 1) / (self.batch_size as int)) + (n + self.batch_size - 1) % (self.batch_size as int),
                    0 <= (n + self.batch_size - 1) % (self.batch_size as int) < self.batch_size,
            ;
        }
        let start = index * self.batch_size;
        let end = if n - start >= self.batch_size {
            start + self.batch_size
        } else {
            n
        };
        let count = end - start;
        let numel = self.dataset.image_numel();
        proof {
            vstd::arithmetic::mul::lemma_mul_strictly_positive(
                self.data().rows_view() as int,
                self.data().cols_view() as int,
            );
            assert(count == self.batch_len(index as nat));
            vstd::arithmetic::mul::lemma_mul_inequality(count as int, len as int, numel as int);
            assert(len * numel == numel * len) by (nonlinear_arith);
        }
        let mut images: Vec<u8> = Vec::with_capacity(count * numel);
        let mut labels: Vec<u8> = Vec::with_capacity(count);
        let mut s: usize = 0;
        while s < count
            invariant
                self.wf(),
                n == self.data().labels_view().len(),
                numel == self.data().rows_view() * self.data().cols_view(),
                numel > 0,
                start == self.batch_start(index as nat),
                count == self.batch_len(index as nat),
                start + count <= n,
                count * numel <= n * numel,
                n * numel == self.data().images_view().len(),
                s <= count,
                images@.len() == s * numel,
                labels@.len() == s,
                forall|t: int, p: int|
                    0 <= t < s && 0 <= p < numel ==> #[trigger] images@[t * numel + p] == self.data().images_view()[self.order()[start + t] * numel + p],
                forall|t: int| 0 <= t < s ==> #[trigger] labels@[t] == self.data().labels_view()[self.order()[start + t] as int],
            decreases count - s,
        {
            let item = if self.shuffle {
                self.indices[start + s]
            } else {
                start + s
            };
            proof {
                self.lemma_order_in_range((start + s) as int);
                assert(item == self.order()[start + s]);
            }
            let (pixels, label) = self.dataset.get_item(item);
            proof {
                assert((item + 1) * numel == item * numel + numel) by (nonlinear_arith);
                assert((item + 1) * numel <= n * numel) by (nonlinear_arith)
                    requires
                        item < n,
                ;
                assert(pixels@.len() == numel);
            }
            let ghost before = images@;
            let mut p: usize = 0;
            while p < numel
                invariant
                    numel > 0,
                    s < count,
                    count * numel <= n * numel,
                    images@.len() == s * numel + p,
                    p <= numel,
                    pixels@.len() == numel,
                    forall|q: int| 0 <= q < s * numel ==> #[trigger] images@[q] == before[q],
                    forall|q: int| 0 <= q < p ==> #[trigger] images@[s * numel + q] == pixels@[q],
                decreases numel - p,
            {
                proof {
                    assert(s * numel + numel <= count * numel) by (nonlinear_arith)
                        requires
                            s < count,
                    ;
                }
                images.push(pixels[p]);
                p += 1;
            }
            labels.push(label);
            proof {
                assert((s + 1) * numel == s * numel + numel) by (nonlinear_arith);
                assert forall|t: int, q: int|
                    0 <= t < s + 1 && 0 <= q < numel implies #[trigger] images@[t * numel + q] == self.data().images_view()[self.order()[start + t] * numel + q] by {
                    if t < s {
                        assert(t * numel + q < s * numel) by (nonlinear_arith)
                            requires
                                t < s,
                                q < numel,
                        ;
                    } else {
                        assert(t == s);
                        assert(images@[s * numel + q] == pixels@[q]);
                        assert(pixels@[q] == self.data().images_view()[item * numel + q]);
                    }
                }
            }
            s += 1;
        }
        let rows = self.dataset.rows();
        let cols = self.dataset.cols();
        let img_shape = vec![count, 1, rows, cols];
        let lbl_shape = vec![count];
        proof {
            crate::storage::layout::lemma_numel_single(count);
            assert(lbl_shape@ =~= seq![count]);
            let sh = img_shape@;
            assert(sh.drop_last().drop_last().drop_last() =~= seq![count]);
            assert(sh.drop_last().drop_last().last() == 1);
            assert(sh.drop_last().last() == rows);
            assert(sh.last() == cols);
            assert(crate::storage::layout::numel_of(sh.drop_last().drop_last()) == count * 1);
            assert(crate::storage::layout::numel_of(sh.drop_last()) == count * 1 * rows);
            assert(crate::storage::layout::numel_of(sh) == count * 1 * rows * cols);
            assert(count * 1 * rows * cols == count * numel) by (nonlinear_arith)
                requires
                    numel == rows * cols,
            ;
            assert(crate::storage::layout::dims_positive(sh)) by {
                assert(count > 0);
            }
        }
        let ri = TensorStorage::from_buffer(img_shape, images);
        let rl = TensorStorage::from_buffer(lbl_shape, labels);
        (ri, rl)
    }
}

} // verus!
