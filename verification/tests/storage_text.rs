use minitorch_rust::storage::TensorStorage;

fn iota(shape: Vec<usize>) -> TensorStorage<i32> {
    let n: usize = shape.iter().product();
    TensorStorage::from_buffer(shape, (0..n as i32).collect())
}

#[test]
fn matrix_text_aligns_rows() {
    let t = iota(vec![2, 3]);
    assert_eq!(
        t.to_string(),
        "Tensor(shape=[2, 3], dtype=int32,\n       numel=6, strides=[3, 1], contiguous=true, offset=0,\n       data=[[0, 1, 2],\n             [3, 4, 5]])"
    );
}

#[test]
fn rank_three_text_separates_blocks_by_blank_lines() {
    let t = iota(vec![2, 2, 2]);
    let expected = [
        "Tensor(shape=[2, 2, 2], dtype=int32,",
        "       numel=8, strides=[4, 2, 1], contiguous=true, offset=0,",
        "       data=[[[0, 1],",
        "              [2, 3]],",
        "",
        "             [[4, 5],",
        "              [6, 7]]])",
    ]
    .join("\n");
    assert_eq!(t.to_string(), expected);
}

#[test]
fn scalar_and_view_text() {
    let s = TensorStorage::from_buffer(vec![], vec![-128i8]);
    assert_eq!(
        s.to_string(),
        "Tensor(shape=[], dtype=int8,\n       numel=1, strides=[], contiguous=true, offset=0,\n       data=-128)"
    );
    let m = iota(vec![2, 2]);
    let t = TensorStorage::transpose(&m, 0, 1);
    assert_eq!(
        t.to_string(),
        "Tensor(shape=[2, 2], dtype=int32,\n       numel=4, strides=[1, 2], contiguous=false, offset=0,\n       data=[[0, 2],\n             [1, 3]])"
    );
}

#[test]
fn bool_and_unsigned_text() {
    let b = TensorStorage::from_buffer(vec![2], vec![true, false]);
    assert_eq!(
        b.to_string(),
        "Tensor(shape=[2], dtype=bool,\n       numel=2, strides=[1], contiguous=true, offset=0,\n       data=[true, false])"
    );
    let u = TensorStorage::from_buffer(vec![1], vec![18446744073709551615u64]);
    assert_eq!(
        u.to_string(),
        "Tensor(shape=[1], dtype=uint64,\n       numel=1, strides=[1], contiguous=true, offset=0,\n       data=[18446744073709551615])"
    );
}
