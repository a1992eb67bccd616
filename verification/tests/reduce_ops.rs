use minitorch_rust::storage::ops::dims::{normalize_dims, resolve_dims, squeezed_shape};
use minitorch_rust::storage::TensorStorage;

fn st<T: minitorch_rust::dtype::Dtype>(shape: Vec<usize>, v: Vec<T>) -> TensorStorage<T> {
    TensorStorage::from_buffer(shape, v)
}

fn elems<T: minitorch_rust::dtype::Dtype>(s: &TensorStorage<T>) -> Vec<T> {
    (0..s.numel).map(|i| s.get(i)).collect()
}

#[test]
fn dims_normalization() {
    assert_eq!(normalize_dims(&[2, 0], &[4, 5, 6]), vec![0, 2]);
    assert_eq!(normalize_dims(&[], &[4, 5]), Vec::<usize>::new());
    assert_eq!(resolve_dims(&[], &[4, 5]), vec![0, 1]);
    assert_eq!(resolve_dims(&[1], &[4, 5]), vec![1]);
    assert_eq!(squeezed_shape(&[4, 5, 6], &[0, 2]), vec![5]);
}

#[test]
fn sum_over_dims() {
    let a = st(vec![2, 3], vec![1i32, 2, 3, 4, 5, 6]);
    let s0 = TensorStorage::sum(&a, &[0]);
    assert_eq!(s0.shape, vec![3]);
    assert_eq!(elems(&s0), vec![5, 7, 9]);
    let s1 = TensorStorage::sum(&a, &[1]);
    assert_eq!(elems(&s1), vec![6, 15]);
    let all = TensorStorage::sum(&a, &[]);
    assert_eq!(all.shape, Vec::<usize>::new());
    assert_eq!(all.get(0), 21);
    let both = TensorStorage::sum(&a, &[1, 0]);
    assert_eq!(both.get(0), 21);
}

#[test]
fn sum_over_non_adjacent_dims() {
    let a = st(vec![2, 2, 2], (1..=8).collect::<Vec<i64>>());
    let s = TensorStorage::sum(&a, &[0, 2]);
    assert_eq!(s.shape, vec![2]);
    assert_eq!(elems(&s), vec![1 + 2 + 5 + 6, 3 + 4 + 7 + 8]);
}

#[test]
fn max_and_max_all() {
    let a = st(vec![2, 3], vec![3i32, -1, 7, 2, 9, 0]);
    assert_eq!(elems(&TensorStorage::max(&a, &[1])), vec![7, 9]);
    assert_eq!(elems(&TensorStorage::max(&a, &[0])), vec![3, 9, 7]);
    assert_eq!(TensorStorage::max_all(&a).get(0), 9);
    let t = TensorStorage::transpose(&a, 0, 1);
    assert_eq!(TensorStorage::max_all(&t).get(0), 9);
    assert_eq!(TensorStorage::sum_all(&t).get(0), 20);
}

#[test]
fn argmax_picks_first_maximum() {
    let a = st(vec![2, 4], vec![1i32, 5, 5, 2, 9, 3, 9, 9]);
    let r = TensorStorage::argmax(&a, 1);
    assert_eq!(r.shape, vec![2]);
    assert_eq!(elems(&r), vec![1u64, 0]);
    let c = TensorStorage::argmax(&a, 0);
    assert_eq!(elems(&c), vec![1u64, 0, 1, 1]);
}

#[test]
fn one_hot_encodes_labels() {
    let labels = st(vec![3], vec![2u8, 0, 1]);
    let oh: TensorStorage<i32> = TensorStorage::one_hot(&labels, 3);
    assert_eq!(oh.shape, vec![3, 3]);
    assert_eq!(elems(&oh), vec![0, 0, 1, 1, 0, 0, 0, 1, 0]);
    let signed = st(vec![2], vec![1i64, 0]);
    let o2: TensorStorage<u8> = TensorStorage::one_hot(&signed, 2);
    assert_eq!(elems(&o2), vec![0, 1, 1, 0]);
}
