use minitorch_rust::storage::TensorStorage;

fn st<T: minitorch_rust::dtype::Dtype>(shape: Vec<usize>, v: Vec<T>) -> TensorStorage<T> {
    TensorStorage::from_buffer(shape, v)
}

fn elems<T: minitorch_rust::dtype::Dtype>(s: &TensorStorage<T>) -> Vec<T> {
    (0..s.numel).map(|i| s.get(i)).collect()
}

#[test]
fn arithmetic_elementwise() {
    let a = st(vec![2, 2], vec![1i32, 2, 3, 4]);
    let b = st(vec![2, 2], vec![10i32, 20, 30, 40]);
    assert_eq!(elems(&TensorStorage::add(&[&a, &b])), vec![11, 22, 33, 44]);
    assert_eq!(elems(&TensorStorage::sub(&[&a, &b])), vec![-9, -18, -27, -36]);
    assert_eq!(elems(&TensorStorage::mul(&[&a, &b])), vec![10, 40, 90, 160]);
    assert_eq!(elems(&TensorStorage::div(&[&b, &a])), vec![10, 10, 10, 10]);
    assert_eq!(elems(&TensorStorage::modul(&[&b, &st(vec![2, 2], vec![3, 7, 7, 9])])), vec![1, 6, 2, 4]);
    assert_eq!(elems(&TensorStorage::maximum(&[&a, &st(vec![2, 2], vec![0, 5, 3, 1])])), vec![1, 5, 3, 4]);
    assert_eq!(elems(&TensorStorage::sub_scaled(&b, &a, 2)), vec![8, 16, 24, 32]);
}

#[test]
fn integer_arithmetic_wraps() {
    let a = st(vec![2], vec![250u8, 3]);
    let b = st(vec![2], vec![10u8, 4]);
    assert_eq!(elems(&TensorStorage::add(&[&a, &b])), vec![4, 7]);
    assert_eq!(elems(&TensorStorage::sub(&[&b, &a])), vec![16, 1]);
    let m = st(vec![1], vec![i8::MIN]);
    assert_eq!(elems(&TensorStorage::neg(&[&m])), vec![i8::MIN]);
    assert_eq!(elems(&TensorStorage::abs(&[&m])), vec![i8::MIN]);
}

#[test]
fn signed_unary_ops() {
    let a = st(vec![3], vec![-2i64, 0, 5]);
    assert_eq!(elems(&TensorStorage::neg(&[&a])), vec![2, 0, -5]);
    assert_eq!(elems(&TensorStorage::abs(&[&a])), vec![2, 0, 5]);
}

#[test]
fn signed_division_truncates() {
    let a = st(vec![2], vec![-7i32, 7]);
    let b = st(vec![2], vec![2i32, -2]);
    assert_eq!(elems(&TensorStorage::div(&[&a, &b])), vec![-3, -3]);
    assert_eq!(elems(&TensorStorage::modul(&[&a, &b])), vec![-1, 1]);
}

#[test]
fn comparisons_give_masks() {
    let a = st(vec![3], vec![1i16, 2, 3]);
    let b = st(vec![3], vec![2i16, 2, 2]);
    assert_eq!(elems(&TensorStorage::gt(&[&a, &b])), vec![false, false, true]);
    assert_eq!(elems(&TensorStorage::gte(&[&a, &b])), vec![false, true, true]);
    assert_eq!(elems(&TensorStorage::lt(&[&a, &b])), vec![true, false, false]);
    assert_eq!(elems(&TensorStorage::lte(&[&a, &b])), vec![true, true, false]);
}

#[test]
fn logic_on_masks() {
    let a = st(vec![4], vec![true, true, false, false]);
    let b = st(vec![4], vec![true, false, true, false]);
    assert_eq!(elems(&TensorStorage::land(&[&a, &b])), vec![true, false, false, false]);
    assert_eq!(elems(&TensorStorage::lor(&[&a, &b])), vec![true, true, true, false]);
    assert_eq!(elems(&TensorStorage::lnot(&[&a])), vec![false, false, true, true]);
}

#[test]
fn elementwise_on_strided_views() {
    let a = st(vec![2, 3], vec![0i32, 1, 2, 3, 4, 5]);
    let t = TensorStorage::transpose(&a, 0, 1);
    let b = st(vec![3, 2], vec![1i32; 6]);
    assert_eq!(elems(&TensorStorage::add(&[&t, &b])), vec![1, 4, 2, 5, 3, 6]);
}

#[test]
fn matmul_small() {
    let a = st(vec![2, 3], vec![1i32, 2, 3, 4, 5, 6]);
    let b = st(vec![3, 2], vec![7i32, 8, 9, 10, 11, 12]);
    let c = TensorStorage::matmul(&a, &b);
    assert_eq!(c.shape, vec![2, 2]);
    assert_eq!(elems(&c), vec![58, 64, 139, 154]);
}

#[test]
fn matmul_with_transposed_operand() {
    let a = st(vec![2, 2], vec![1i64, 2, 3, 4]);
    let b = st(vec![2, 2], vec![5i64, 6, 7, 8]);
    let bt = TensorStorage::transpose(&b, 0, 1);
    let c = TensorStorage::matmul(&a, &bt);
    assert_eq!(elems(&c), vec![17, 23, 39, 53]);
}

#[test]
fn apply_closures() {
    let a = st(vec![3], vec![1u32, 2, 3]);
    let d = TensorStorage::apply_unary(&a, |x: u32| x.wrapping_mul(2));
    assert_eq!(elems(&d), vec![2, 4, 6]);
    let e = TensorStorage::apply_binary(&a, &d, |x: u32, y: u32| x < y);
    assert_eq!(elems(&e), vec![true, true, true]);
}
