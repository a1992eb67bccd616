use minitorch_rust::storage::ops::parallel::worker_count;
use minitorch_rust::storage::indexing::{ravel_index, unravel_index};
use minitorch_rust::storage::{are_dims_positive, compute_numel_from_shape, init_strides, TensorStorage};

fn iota(shape: Vec<usize>) -> TensorStorage<i32> {
    let n: usize = shape.iter().product();
    TensorStorage::from_buffer(shape, (0..n as i32).collect())
}

#[test]
fn strides_are_row_major() {
    assert_eq!(init_strides(&[2, 3, 4]), vec![12, 4, 1]);
    assert_eq!(init_strides(&[5]), vec![1]);
    assert_eq!(init_strides(&[]), Vec::<usize>::new());
}

#[test]
fn numel_and_positivity() {
    assert_eq!(compute_numel_from_shape(&[2, 3, 4]), 24);
    assert_eq!(compute_numel_from_shape(&[]), 1);
    assert!(are_dims_positive(&[1, 2]));
    assert!(!are_dims_positive(&[3, 0, 2]));
}

#[test]
fn ravel_unravel_roundtrip() {
    assert_eq!(unravel_index(&[2, 3, 4], 17), vec![1, 1, 1]);
    assert_eq!(ravel_index(&[2, 3, 4], &[1, 1, 1]), 17);
    for i in 0..24 {
        let c = unravel_index(&[2, 3, 4], i);
        assert_eq!(ravel_index(&[2, 3, 4], &c), i);
    }
}

#[test]
fn new_fills_every_element() {
    let s = TensorStorage::new(vec![2, 3], 7u8);
    assert_eq!(s.numel, 6);
    assert!(s.contiguous);
    for i in 0..6 {
        assert_eq!(s.get(i), 7);
    }
}

#[test]
fn from_fn_uses_flat_index() {
    let s = TensorStorage::from_fn(vec![2, 2], |i| (i * 10) as i64);
    assert_eq!(s.at(&[1, 0]), 20);
    assert_eq!(s.at(&[1, 1]), 30);
}

#[test]
fn indexing_through_strides() {
    let s = iota(vec![2, 3]);
    assert_eq!(s.md_to_flat(&[1, 2]), 5);
    assert_eq!(s.at(&[1, 2]), 5);
    let t = TensorStorage::transpose(&s, 0, 1);
    assert_eq!(t.shape, vec![3, 2]);
    assert!(!t.contiguous);
    assert_eq!(t.at(&[2, 1]), 5);
    assert_eq!(t.logic_to_flat(1), 3);
    let order: Vec<i32> = (0..6).map(|i| t.get(i)).collect();
    assert_eq!(order, vec![0, 3, 1, 4, 2, 5]);
    assert_eq!(s.at2(1, 0), 3);
}

#[test]
fn strided_iter_walks_row_major() {
    let s = iota(vec![2, 3]);
    let t = TensorStorage::transpose(&s, 0, 1);
    let mut it = t.strided_indices();
    assert_eq!(it.len(), 6);
    let mut seen = Vec::new();
    while let Some(f) = it.next() {
        seen.push(f);
    }
    assert_eq!(seen, vec![0, 3, 1, 4, 2, 5]);
    assert_eq!(it.next(), None);
}

#[test]
fn set_writes_only_unshared_buffers() {
    let mut s = iota(vec![2, 2]);
    assert!(s.set(&[0, 1], 42));
    assert_eq!(s.at(&[0, 1]), 42);
    let view = TensorStorage::copy_s(&s);
    let mut s2 = TensorStorage::copy_s(&s);
    assert!(!s2.set(&[0, 0], 9));
    assert_eq!(view.at(&[0, 0]), 0);
    assert_eq!(s2.at(&[0, 0]), 0);
}

#[test]
fn try_add_assign_cases() {
    let mut a = iota(vec![2, 2]);
    let b = iota(vec![2, 2]);
    assert!(a.try_add_assign(&b));
    assert_eq!((0..4).map(|i| a.get(i)).collect::<Vec<_>>(), vec![0, 2, 4, 6]);

    let c = iota(vec![4]);
    assert!(!a.try_add_assign(&c));

    let mut shared = iota(vec![2, 2]);
    let _view = TensorStorage::copy_s(&shared);
    assert!(!shared.try_add_assign(&b));
    assert_eq!(shared.get(3), 3);

    let mut strided = TensorStorage::transpose(&iota(vec![2, 2]), 0, 1);
    assert!(!strided.try_add_assign(&b));
}

#[test]
fn copies_keep_elements() {
    let s = iota(vec![3]);
    let d = TensorStorage::copy_d(&s);
    assert_eq!(*d.buffer, *s.buffer);
    assert!(!std::rc::Rc::ptr_eq(&d.buffer, &s.buffer));
    let v = TensorStorage::copy_s(&s);
    assert!(std::rc::Rc::ptr_eq(&v.buffer, &s.buffer));
}

#[test]
fn worker_count_clamps() {
    assert_eq!(worker_count(8, 3), 3);
    assert_eq!(worker_count(2, 10), 2);
    assert_eq!(worker_count(0, 10), 1);
    assert_eq!(worker_count(4, 0), 1);
}
