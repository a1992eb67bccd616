use minitorch_rust::autograd::ops::{PadOp, SumOp};
use minitorch_rust::autograd::plan::{BackwardPlan, GraphNode};
use minitorch_rust::data::dataloader::MnistDataLoader;
use minitorch_rust::data::dataset::MNISTDataset;
use minitorch_rust::nn::flatten::Flatten;
use minitorch_rust::storage::ops::broadcast::broadcast_shape;
use minitorch_rust::storage::TensorStorage;

fn elems<T: minitorch_rust::dtype::Dtype>(s: &TensorStorage<T>) -> Vec<T> {
    (0..s.numel).map(|i| s.get(i)).collect()
}

#[test]
fn slice_after_pad_recovers_input() {
    let a = TensorStorage::from_buffer(vec![2, 3], vec![1i32, 2, 3, 4, 5, 6]);
    let pads = vec![(2, 1), (0, 3)];
    let p = TensorStorage::pad(&a, &pads);
    let back = PadOp { pads }.grad(&[2, 3], &p);
    assert_eq!(elems(&back), elems(&a));
}

#[test]
fn transpose_twice_is_identity() {
    let a = TensorStorage::from_buffer(vec![2, 3, 2], (0..12).collect::<Vec<i64>>());
    let t = TensorStorage::transpose(&a, 0, 2);
    let tt = TensorStorage::transpose(&t, 0, 2);
    assert_eq!(tt.shape, a.shape);
    assert_eq!(elems(&tt), elems(&a));
}

#[test]
fn slicing_the_scatter_returns_the_gradient() {
    let dy = TensorStorage::from_buffer(vec![2, 2], vec![1i32, 2, 3, 4]);
    let ranges = [(1, 2, 2), (0, 2, 3)];
    let s = TensorStorage::slice_strided_backward(&dy, &[5, 4], &ranges);
    let back = TensorStorage::slice_strided(&s, &ranges);
    assert_eq!(elems(&back), elems(&dy));
}

#[test]
fn argmax_points_at_the_maximum() {
    let a = TensorStorage::from_buffer(vec![3, 3], vec![4i32, 9, 9, 1, 1, 1, -5, -2, -9]);
    let idx = TensorStorage::argmax(&a, 1);
    let mx = TensorStorage::max(&a, &[1]);
    for row in 0..3 {
        let j = idx.get(row) as usize;
        assert_eq!(a.at(&[row, j]), mx.get(row));
    }
}

#[test]
fn inputs_broadcast_to_the_common_shape() {
    let shapes: Vec<&[usize]> = vec![&[3, 1], &[1, 4], &[2, 1, 1]];
    let common = broadcast_shape(&shapes);
    for s in shapes {
        let n: usize = s.iter().product();
        let t = TensorStorage::from_buffer(s.to_vec(), vec![0u8; n]);
        assert!(t.is_broadcastable(&common));
        let b = TensorStorage::broadcast_to_shape(&t, &common);
        assert_eq!(b.shape, common);
    }
}

#[test]
fn summing_no_dims_is_the_total() {
    let a = TensorStorage::from_buffer(vec![2, 2, 3], (1..=12).collect::<Vec<i32>>());
    assert_eq!(TensorStorage::sum(&a, &[]).get(0), 78);
    assert_eq!(TensorStorage::sum_all(&a).get(0), 78);
}

#[test]
fn pooled_indices_hold_the_maximum() {
    let a = TensorStorage::from_buffer(vec![1, 1, 3, 3], vec![5i32, 1, 5, 0, 5, 2, 7, 7, 1]);
    let (out, meta) = TensorStorage::max_pool2d_with_indices(&a, (2, 2), (1, 1));
    for o in 0..out.numel {
        let group = &meta.indices[meta.offsets[o]..meta.offsets[o + 1]];
        assert!(!group.is_empty());
        for &i in group {
            assert_eq!(a.get(i), out.get(o));
        }
    }
}

#[test]
fn flatten_keeps_element_count() {
    let shape = [2, 3, 4, 5];
    let out = Flatten::with_dims(1, 2).output_shape(&shape);
    assert_eq!(out, vec![2, 12, 5]);
    assert_eq!(out.iter().product::<usize>(), shape.iter().product::<usize>());
}

#[test]
fn batches_cover_every_item_once() {
    let count = 7usize;
    let mut images = vec![0, 0, 8, 3, 0, 0, 0, count as u8, 0, 0, 0, 1, 0, 0, 0, 1];
    images.extend((0..count).map(|i| i as u8));
    let mut labels = vec![0, 0, 8, 1, 0, 0, 0, count as u8];
    labels.extend((0..count).map(|i| i as u8));
    let d = MNISTDataset::new(&images, &labels).unwrap();
    let loader = MnistDataLoader::new(d, 3, true, 9);
    let mut seen = Vec::new();
    for b in 0..loader.len() {
        let (_, l) = loader.get_batch(b);
        seen.extend(l.buffer.iter().copied());
    }
    seen.sort();
    assert_eq!(seen, (0..count as u8).collect::<Vec<_>>());
}

#[test]
fn matmul_ignores_operand_layout() {
    let a = TensorStorage::from_buffer(vec![2, 3], vec![1i32, 2, 3, 4, 5, 6]);
    let a_t = TensorStorage::from_buffer(vec![3, 2], vec![1i32, 4, 2, 5, 3, 6]);
    let a_view = TensorStorage::transpose(&a_t, 0, 1);
    let b = TensorStorage::from_buffer(vec![3, 2], vec![1i32, 0, 0, 1, 2, 2]);
    let r1 = TensorStorage::matmul(&a, &b);
    let r2 = TensorStorage::matmul(&a_view, &b);
    assert_eq!(elems(&r1), elems(&r2));
    assert_eq!(elems(&r1), vec![7, 8, 16, 17]);
}

#[test]
fn sum_gradient_is_uniform_along_summed_axes() {
    let op = SumOp { dims: vec![0, 2], keepdim: false };
    let g = TensorStorage::from_buffer(vec![3], vec![4i32, 5, 6]);
    let r = op.grad(&[2, 3, 2], &g);
    for a in 0..2 {
        for b in 0..3 {
            for c in 0..2 {
                assert_eq!(r.at(&[a, b, c]), r.at(&[0, b, 0]));
                assert_eq!(r.at(&[a, b, c]), g.at(&[b]));
            }
        }
    }
}

#[test]
fn scheduled_nodes_follow_every_user() {
    // a diamond: out = f(p, q), p = g(x), q = h(x)
    let graph = vec![
        GraphNode { requires_grad: true, edge: None },
        GraphNode { requires_grad: true, edge: Some(vec![0]) },
        GraphNode { requires_grad: true, edge: Some(vec![0]) },
        GraphNode { requires_grad: true, edge: Some(vec![1, 2]) },
    ];
    let plan = BackwardPlan::build(&graph, 3);
    let order = plan.schedule();
    assert_eq!(order.len(), 4);
    for (pos, &v) in order.iter().enumerate() {
        for (u, row) in plan.operands.iter().enumerate() {
            if row.contains(&v) {
                let upos = order.iter().position(|&w| w == u).unwrap();
                assert!(upos < pos);
            }
        }
    }
}

#[test]
fn squeeze_at_undoes_unsqueeze_at() {
    let a = TensorStorage::from_buffer(vec![2, 3], vec![1i32, 2, 3, 4, 5, 6]);
    let u = TensorStorage::unsqueeze_at(&a, &[0, 2, 4]);
    assert_eq!(u.shape, vec![1, 2, 1, 3, 1]);
    let s = TensorStorage::squeeze_at(&u, &[0, 2, 4]);
    assert_eq!(s.shape, a.shape);
    assert_eq!(s.strides, a.strides);
    assert_eq!(s.offset, a.offset);
    assert_eq!(elems(&s), elems(&a));
    let v = TensorStorage::transpose(&a, 0, 1);
    let uv = TensorStorage::unsqueeze_at(&v, &[1, 3]);
    assert_eq!(uv.shape, vec![3, 1, 2, 1]);
    assert_eq!(uv.strides, vec![v.strides[0], 0, v.strides[1], 0]);
    let sv = TensorStorage::squeeze_at(&uv, &[1, 3]);
    assert_eq!(sv.shape, v.shape);
    assert_eq!(sv.strides, v.strides);
    assert_eq!(sv.offset, v.offset);
    assert_eq!(elems(&sv), elems(&v));
}

#[test]
fn reshape_roundtrip_restores_elements() {
    let a = TensorStorage::from_buffer(vec![2, 3], vec![1i32, 2, 3, 4, 5, 6]);
    let t = TensorStorage::transpose(&a, 0, 1);
    let r1 = TensorStorage::reshape(&t, &[6]);
    let r2 = TensorStorage::reshape(&r1, &[3, 2]);
    for i in 0..3 {
        for j in 0..2 {
            assert_eq!(r2.at(&[i, j]), t.at(&[i, j]));
        }
    }
}
