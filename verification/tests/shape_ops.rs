use minitorch_rust::storage::ops::broadcast::broadcast_shape;
use minitorch_rust::storage::ops::shape::{squeeze_shape, unsqueeze_shape};
use minitorch_rust::storage::TensorStorage;

fn iota(shape: Vec<usize>) -> TensorStorage<i32> {
    let n: usize = shape.iter().product();
    TensorStorage::from_buffer(shape, (0..n as i32).collect())
}

fn elems<T: Copy + minitorch_rust::dtype::Dtype>(s: &TensorStorage<T>) -> Vec<T> {
    (0..s.numel).map(|i| s.get(i)).collect()
}

#[test]
fn unsqueeze_and_squeeze_shapes() {
    assert_eq!(unsqueeze_shape(&[2, 3], 1), vec![2, 1, 3]);
    assert_eq!(squeeze_shape(&[2, 1, 3], 1), vec![2, 3]);
    let s = iota(vec![2, 3]);
    let u = TensorStorage::unsqueeze(&s, 0);
    assert_eq!(u.shape, vec![1, 2, 3]);
    let q = TensorStorage::squeeze(&u, 0);
    assert_eq!(q.shape, vec![2, 3]);
    assert_eq!(elems(&q), elems(&s));
}

#[test]
fn unsqueeze_at_and_squeeze_at() {
    let s = iota(vec![2, 3]);
    let u = TensorStorage::unsqueeze_at(&s, &[0, 2]);
    assert_eq!(u.shape, vec![1, 2, 1, 3]);
    let q = TensorStorage::squeeze_at(&u, &[0, 2]);
    assert_eq!(q.shape, vec![2, 3]);
    assert_eq!(elems(&q), elems(&s));
}

#[test]
fn expand_repeats_the_singleton() {
    let s = iota(vec![1, 3]);
    let e = TensorStorage::expand(&s, 0, 2);
    assert_eq!(e.shape, vec![2, 3]);
    assert!(!e.contiguous);
    assert_eq!(elems(&e), vec![0, 1, 2, 0, 1, 2]);
}

#[test]
fn reshape_materializes_views() {
    let s = iota(vec![2, 3]);
    let t = TensorStorage::transpose(&s, 0, 1);
    let r = TensorStorage::reshape(&t, &[6]);
    assert!(r.contiguous);
    assert_eq!(*r.buffer, vec![0, 3, 1, 4, 2, 5]);
}

#[test]
fn slice_and_strided_slice() {
    let s = iota(vec![3, 4]);
    let w = TensorStorage::slice(&s, &[(1, 2), (1, 2)]);
    assert_eq!(w.shape, vec![2, 2]);
    assert_eq!(elems(&w), vec![5, 6, 9, 10]);
    let st = TensorStorage::slice_strided(&s, &[(0, 2, 2), (1, 2, 2)]);
    assert_eq!(elems(&st), vec![1, 3, 9, 11]);
}

#[test]
fn pad_surrounds_with_zeros() {
    let s = iota(vec![2]);
    let p = TensorStorage::pad(&s, &[(1, 2)]);
    assert_eq!(p.shape, vec![5]);
    assert_eq!(elems(&p), vec![0, 0, 1, 0, 0]);
    let m = TensorStorage::pad(&TensorStorage::from_buffer(vec![1, 1], vec![7i32]), &[(1, 0), (0, 1)]);
    assert_eq!(m.shape, vec![2, 2]);
    assert_eq!(elems(&m), vec![0, 0, 7, 0]);
}

#[test]
fn stack_adds_a_leading_axis() {
    let a = iota(vec![2]);
    let b = TensorStorage::from_buffer(vec![2], vec![5, 6]);
    let s = TensorStorage::stack(&[&a, &b]);
    assert_eq!(s.shape, vec![2, 2]);
    assert_eq!(elems(&s), vec![0, 1, 5, 6]);
}

#[test]
fn broadcast_to_larger_shape() {
    let s = iota(vec![3]);
    let b = TensorStorage::broadcast_to_shape(&s, &[2, 3]);
    assert_eq!(b.shape, vec![2, 3]);
    assert_eq!(elems(&b), vec![0, 1, 2, 0, 1, 2]);
    assert!(!b.contiguous);
    let same = TensorStorage::broadcast_to_shape(&s, &[1, 3]);
    assert!(same.contiguous);
    let other = iota(vec![2, 3]);
    let c = TensorStorage::broadcast(&s, &other);
    assert_eq!(c.shape, vec![2, 3]);
    let col = TensorStorage::from_buffer(vec![2, 1], vec![10, 20]);
    let d = TensorStorage::broadcast_to_shape(&col, &[2, 3]);
    assert_eq!(elems(&d), vec![10, 10, 10, 20, 20, 20]);
}

#[test]
fn broadcastable_checks() {
    let s = iota(vec![3]);
    assert!(s.is_broadcastable(&[2, 3]));
    assert!(s.is_broadcastable(&[2, 1]));
    assert!(!s.is_broadcastable(&[2, 4]));
    let t = iota(vec![1, 1, 3]);
    assert!(t.is_broadcastable(&[3]));
    let u = iota(vec![2, 3]);
    assert!(!u.is_broadcastable(&[3, 3, 2]));
}

#[test]
fn common_broadcast_shape() {
    let a: &[usize] = &[3, 1];
    let b: &[usize] = &[4];
    let c: &[usize] = &[2, 1, 1];
    assert_eq!(broadcast_shape(&[a, b]), vec![3, 4]);
    assert_eq!(broadcast_shape(&[a, b, c]), vec![2, 3, 4]);
}

#[test]
fn strided_slice_backward_scatters() {
    let dy = TensorStorage::from_buffer(vec![2], vec![5i32, 7]);
    let g = TensorStorage::slice_strided_backward(&dy, &[5], &[(1, 2, 2)]);
    assert_eq!(g.shape, vec![5]);
    assert_eq!(elems(&g), vec![0, 5, 0, 7, 0]);
}
