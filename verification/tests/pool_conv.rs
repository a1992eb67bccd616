use minitorch_rust::storage::ops::pool::MaxPool2dMetadata;
use minitorch_rust::storage::TensorStorage;

fn st<T: minitorch_rust::dtype::Dtype>(shape: Vec<usize>, v: Vec<T>) -> TensorStorage<T> {
    TensorStorage::from_buffer(shape, v)
}

fn elems<T: minitorch_rust::dtype::Dtype>(s: &TensorStorage<T>) -> Vec<T> {
    (0..s.numel).map(|i| s.get(i)).collect()
}

#[test]
fn max_pool_values_and_ties() {
    let a = st(vec![1, 1, 2, 4], vec![1i32, 3, 2, 2, 3, 0, 1, 2]);
    let (out, meta) = TensorStorage::max_pool2d_with_indices(&a, (2, 2), (2, 2));
    assert_eq!(out.shape, vec![1, 1, 1, 2]);
    assert_eq!(elems(&out), vec![3, 2]);
    assert_eq!(meta.offsets, vec![0, 2, 5]);
    assert_eq!(meta.indices, vec![1, 4, 2, 3, 7]);
    let plain = TensorStorage::max_pool2d(&a, (2, 2), (2, 2));
    assert_eq!(elems(&plain), vec![3, 2]);
    let (_, none) = TensorStorage::max_pool2d_impl(&a, (2, 2), (2, 2), false);
    assert!(none.indices.is_empty() && none.offsets.is_empty());
}

#[test]
fn max_pool_gradient_routes() {
    let a = st(vec![1, 1, 2, 4], vec![1i32, 3, 2, 2, 3, 0, 1, 2]);
    let (_, meta) = TensorStorage::max_pool2d_with_indices(&a, (2, 2), (2, 2));
    let routes = meta.gradient_routes(2, 8).unwrap();
    let triples: Vec<(usize, usize, usize)> = routes.iter().map(|r| (r.output, r.input, r.ties)).collect();
    assert_eq!(triples, vec![(0, 1, 2), (0, 4, 2), (1, 2, 3), (1, 3, 3), (1, 7, 3)]);
    assert!(meta.gradient_routes(3, 8).is_none());
    assert!(meta.gradient_routes(2, 7).is_none());
    let empty_group = MaxPool2dMetadata { indices: vec![0, 1], offsets: vec![0, 0, 2] };
    assert!(empty_group.gradient_routes(2, 4).is_none());
    let bad_end = MaxPool2dMetadata { indices: vec![0, 1], offsets: vec![0, 1, 3] };
    assert!(bad_end.gradient_routes(2, 4).is_none());
    let bad_start = MaxPool2dMetadata { indices: vec![0, 1], offsets: vec![1, 2] };
    assert!(bad_start.gradient_routes(1, 4).is_none());
    let none = MaxPool2dMetadata { indices: vec![], offsets: vec![0] };
    assert_eq!(none.gradient_routes(0, 4).map(|v| v.len()), Some(0));
}

#[test]
fn max_pool_overlapping_windows() {
    let a = st(vec![1, 1, 3, 3], vec![1i32, 2, 3, 4, 5, 6, 7, 8, 9]);
    let out = TensorStorage::max_pool2d(&a, (2, 2), (1, 1));
    assert_eq!(out.shape, vec![1, 1, 2, 2]);
    assert_eq!(elems(&out), vec![5, 6, 8, 9]);
}

#[test]
fn conv2d_plain() {
    let input = st(vec![1, 1, 3, 3], vec![1i32, 2, 3, 4, 5, 6, 7, 8, 9]);
    let weight = st(vec![1, 1, 2, 2], vec![1i32, 0, 0, 1]);
    let out = TensorStorage::conv2d(&input, &weight, (1, 1), ((0, 0), (0, 0)), (1, 1));
    assert_eq!(out.shape, vec![1, 1, 2, 2]);
    assert_eq!(elems(&out), vec![6, 8, 12, 14]);
}

#[test]
fn conv2d_padding_stride_channels() {
    let input = st(vec![1, 2, 2, 2], vec![1i32, 2, 3, 4, 10, 20, 30, 40]);
    let weight = st(vec![2, 1, 1, 1], vec![1i32, 2]);
    let out = TensorStorage::conv2d(&input, &weight, (2, 2), ((1, 0), (1, 0)), (1, 1));
    assert_eq!(out.shape, vec![1, 1, 2, 2]);
    assert_eq!(elems(&out), vec![0, 0, 0, 84]);
}

#[test]
fn conv2d_dilation() {
    let input = st(vec![1, 1, 3, 3], vec![1i32, 2, 3, 4, 5, 6, 7, 8, 9]);
    let weight = st(vec![1, 1, 2, 2], vec![1i32, 1, 1, 1]);
    let out = TensorStorage::conv2d(&input, &weight, (1, 1), ((0, 0), (0, 0)), (2, 2));
    assert_eq!(out.shape, vec![1, 1, 1, 1]);
    assert_eq!(elems(&out), vec![1 + 3 + 7 + 9]);
}

#[test]
fn conv2d_backward_small() {
    let input = st(vec![1, 1, 3, 3], vec![1i32, 2, 3, 4, 5, 6, 7, 8, 9]);
    let weight = st(vec![1, 1, 2, 2], vec![1i32, 2, 3, 4]);
    let go = st(vec![1, 1, 2, 2], vec![1i32, 1, 1, 1]);
    let g = TensorStorage::conv2d_backward(&go, &input, &weight, (1, 1), ((0, 0), (0, 0)), (1, 1));
    assert_eq!(g.grad_weight.shape, vec![1, 1, 2, 2]);
    assert_eq!(elems(&g.grad_weight), vec![12, 16, 24, 28]);
    assert_eq!(g.grad_input.shape, vec![1, 1, 3, 3]);
    assert_eq!(elems(&g.grad_input), vec![1, 3, 2, 4, 10, 6, 3, 7, 4]);
}

#[test]
fn conv2d_backward_strided_padded() {
    let input = st(vec![1, 1, 2, 2], vec![1i32, 2, 3, 4]);
    let weight = st(vec![1, 1, 1, 1], vec![3i32]);
    let go = st(vec![1, 1, 2, 2], vec![1i32, 2, 3, 4]);
    let g = TensorStorage::conv2d_backward(&go, &input, &weight, (2, 2), ((1, 1), (1, 1)), (1, 1));
    assert_eq!(elems(&g.grad_weight), vec![16]);
    assert_eq!(elems(&g.grad_input), vec![0, 0, 0, 12]);
}
