use minitorch_rust::autograd::ops::{
    AbsOp, AddOp, BroadcastOp, DivOp, ExpandOp, Conv2dOp, MatmulOp, MaxOp, MaximumOp, MulOp, PadOp, SliceOp, StridedSliceOp, SubOp, SumOp, TransposeOp,
    UnsqueezeOp,
};
use minitorch_rust::errors::{ErrorKind, TorchError};
use minitorch_rust::nn::activate::{LogSoftmax, ReLU, Softmax};
use minitorch_rust::nn::flatten::{normalize_dim, Flatten};
use minitorch_rust::nn::loss::CrossEntropyLoss;
use minitorch_rust::nn::module::join_path;
use minitorch_rust::nn::pool::{AvgPool2d, MaxPool2d};
use minitorch_rust::nn::sequential::{DynSequential, LayerBox};
use minitorch_rust::storage::TensorStorage;
use minitorch_rust::text::parse_index;

fn elems<T: minitorch_rust::dtype::Dtype>(s: &TensorStorage<T>) -> Vec<T> {
    (0..s.numel).map(|i| s.get(i)).collect()
}

#[test]
fn pooling_layers_default_stride() {
    let a = AvgPool2d::new(3, None);
    assert_eq!(a.kernel, (3, 3));
    assert_eq!(a.stride, (3, 3));
    let m = MaxPool2d::new(2, Some(1));
    assert_eq!(m.kernel, (2, 2));
    assert_eq!(m.stride, (1, 1));
}

#[test]
fn flatten_shapes() {
    let f = Flatten::new();
    assert_eq!((f.start_dim, f.end_dim), (1, -1));
    assert_eq!(f.output_shape(&[2, 3, 4, 5]), vec![2, 60]);
    let g = Flatten::with_dims(0, 1);
    assert_eq!(g.output_shape(&[2, 3, 4]), vec![6, 4]);
    let h = Flatten::new_with_dims(-2, -1);
    assert_eq!(h.output_shape(&[2, 3, 4]), vec![2, 12]);
    let d = Flatten::default();
    assert_eq!((d.start_dim, d.end_dim), (1, -1));
}

#[test]
fn signed_dims_normalize() {
    assert_eq!(normalize_dim(-1, 4, "end_dim"), 3);
    assert_eq!(normalize_dim(2, 4, "start_dim"), 2);
    assert_eq!(normalize_dim(-4, 4, "start_dim"), 0);
}

#[test]
fn module_paths_join() {
    assert_eq!(join_path("", "weight"), "weight");
    assert_eq!(join_path("0", ""), "0");
    assert_eq!(join_path("0", "weight"), "0.weight");
}

#[test]
fn dynamic_sequence_counts_layers() {
    let s = DynSequential::new();
    assert!(s.is_empty());
    let s = s.with(ReLU::new()).with(Flatten::new()).with(Softmax::default());
    assert_eq!(s.len(), 3);
    let t = DynSequential::from_layers(vec![LayerBox::new(LogSoftmax::new()), LayerBox::new(MaxPool2d::new(2, None))]);
    assert_eq!(t.len(), 2);
    assert!(DynSequential::default().is_empty());
    let _loss = CrossEntropyLoss::new();
}

#[test]
fn dynamic_sequence_children_by_position() {
    let empty = DynSequential::new();
    assert!(empty.module(&0.to_string()).is_none());
    let s = DynSequential::new().with(ReLU::new()).with(Flatten::new());
    assert!(s.module("0").is_some());
    assert!(s.module("1").is_some());
    assert!(s.module("2").is_none());
    assert!(s.module("x").is_none());
    assert!(s.module("").is_none());
    assert!(s.module("-0").is_none());
    assert!(std::ptr::eq(s.module("1").unwrap(), s.module("+1").unwrap()));
    assert!(std::ptr::eq(s.module("0").unwrap(), s.module("000").unwrap()));
    assert!(!std::ptr::eq(s.module("0").unwrap(), s.module("1").unwrap()));
    let n = s.len();
    assert!(s.module(&n.to_string()).is_none());
    let s = s.with(Softmax::new());
    assert_eq!(s.len(), n + 1);
    assert!(s.module(&n.to_string()).is_some());
    let t = DynSequential::from_layers(vec![LayerBox::new(LogSoftmax::new()), LayerBox::new(MaxPool2d::new(2, None))]);
    assert!(t.module("1").is_some());
    assert!(t.module(&t.len().to_string()).is_none());
}

#[test]
fn dynamic_sequence_replace_child() {
    let mut s = DynSequential::new().with(ReLU::new()).with(Flatten::new());
    assert!(s.module_mut("2").is_none());
    assert!(s.module_mut("y").is_none());
    let slot = s.module_mut("1").unwrap();
    *slot = LayerBox::new(Softmax::new());
    assert_eq!(s.len(), 2);
    assert!(s.module("0").is_some());
    assert!(s.module_mut("+1").is_some());
    assert!(std::ptr::eq(s.module("1").unwrap(), s.module("+1").unwrap()));
}

#[test]
fn index_text_parses_like_usize() {
    assert_eq!(parse_index("0"), Some(0));
    assert_eq!(parse_index("42"), Some(42));
    assert_eq!(parse_index("+7"), Some(7));
    assert_eq!(parse_index("007"), Some(7));
    assert_eq!(parse_index(""), None);
    assert_eq!(parse_index("+"), None);
    assert_eq!(parse_index("-1"), None);
    assert_eq!(parse_index(" 1"), None);
    assert_eq!(parse_index("1a"), None);
    assert_eq!(parse_index(&usize::MAX.to_string()), Some(usize::MAX));
    assert_eq!(parse_index("99999999999999999999999"), None);
    for text in ["12", "+3", "x", "", "-4", "18446744073709551616"] {
        assert_eq!(parse_index(text), text.parse::<usize>().ok());
    }
}

#[test]
fn error_text_is_debug_form() {
    let e = TorchError::validation(String::from("bad input"));
    assert_eq!(e.kind, ErrorKind::ValidationError);
    assert_eq!(e.to_string(), "TorchError { kind: ValidationError, message: \"bad input\" }");
    let q = TorchError::validation(String::from("say \"hi\"\n"));
    assert_eq!(q.to_string(), "TorchError { kind: ValidationError, message: \"say \\\"hi\\\"\\n\" }");
    assert_eq!(q.to_string(), format!("{:?}", q));
}

#[test]
fn pad_gradient_is_the_window() {
    let op = PadOp { pads: vec![(1, 0), (0, 2)] };
    let g = TensorStorage::from_buffer(vec![3, 3], (0..9).collect::<Vec<i32>>());
    let r = op.grad(&[2, 1], &g);
    assert_eq!(r.shape, vec![2, 1]);
    assert_eq!(elems(&r), vec![3, 6]);
}

#[test]
fn slice_gradient_pads_back() {
    let op = SliceOp { ranges: vec![(1, 2)] };
    let g = TensorStorage::from_buffer(vec![2], vec![5i32, 6]);
    let r = op.grad(&[4], &g);
    assert_eq!(elems(&r), vec![0, 5, 6, 0]);
}

#[test]
fn strided_slice_gradient_scatters() {
    let op = StridedSliceOp { ranges: vec![(0, 2, 3)] };
    let g = TensorStorage::from_buffer(vec![2], vec![1i64, 2]);
    let r = op.grad(&[5], &g);
    assert_eq!(elems(&r), vec![1, 0, 0, 2, 0]);
}

#[test]
fn shape_gradients() {
    let t = TransposeOp { dim_a: 0, dim_b: 1 };
    let g = TensorStorage::from_buffer(vec![2, 3], (0..6).collect::<Vec<i32>>());
    assert_eq!(elems(&t.grad(&g)), vec![0, 3, 1, 4, 2, 5]);
    let u = UnsqueezeOp { dim: 0 };
    let g1 = TensorStorage::from_buffer(vec![1, 3], vec![1i32, 2, 3]);
    assert_eq!(u.grad(&g1).shape, vec![3]);
}

#[test]
fn product_gradients() {
    let a = TensorStorage::from_buffer(vec![2], vec![2i32, 3]);
    let b = TensorStorage::from_buffer(vec![2], vec![5i32, 7]);
    let g = TensorStorage::from_buffer(vec![2], vec![1i32, 10]);
    let (ga, gb) = MulOp.grad(&a, &b, &g, false);
    assert_eq!(elems(&ga), vec![5, 70]);
    assert_eq!(elems(&gb), vec![2, 30]);
    let m = TensorStorage::from_buffer(vec![1, 2], vec![1i32, 2]);
    let n = TensorStorage::from_buffer(vec![2, 1], vec![3i32, 4]);
    let go = TensorStorage::from_buffer(vec![1, 1], vec![10i32]);
    let (gm, gn) = MatmulOp.grad(&m, &n, &go);
    assert_eq!(elems(&gm), vec![30, 40]);
    assert_eq!(elems(&gn), vec![10, 20]);
}

#[test]
fn sum_gradient_spreads_over_reduced_dims() {
    let op = SumOp { dims: vec![1], keepdim: false };
    let g = TensorStorage::from_buffer(vec![2], vec![10i32, 20]);
    let r = op.grad(&[2, 3], &g);
    assert_eq!(r.shape, vec![2, 3]);
    assert_eq!(elems(&r), vec![10, 10, 10, 20, 20, 20]);
    let kept = SumOp { dims: vec![1], keepdim: true };
    let gk = TensorStorage::from_buffer(vec![2, 1], vec![10i32, 20]);
    assert_eq!(elems(&kept.grad(&[2, 3], &gk)), vec![10, 10, 10, 20, 20, 20]);
    let all = SumOp { dims: vec![0, 1], keepdim: false };
    let gs = TensorStorage::from_buffer(vec![], vec![5i32]);
    let ra = all.grad(&[2, 2], &gs);
    assert_eq!(ra.shape, vec![2, 2]);
    assert_eq!(elems(&ra), vec![5, 5, 5, 5]);
    assert_eq!(ra.strides, vec![0, 0]);
}

#[test]
fn max_gradient_goes_to_every_tied_maximum() {
    let input = TensorStorage::from_buffer(vec![2, 3], vec![1i32, 3, 3, 4, 2, 0]);
    let op = MaxOp { dims: vec![1], keepdim: false };
    let g = TensorStorage::from_buffer(vec![2], vec![10i32, 20]);
    assert_eq!(elems(&op.grad(&input, &g)), vec![0, 10, 10, 20, 0, 0]);
    let kept = MaxOp { dims: vec![1], keepdim: true };
    let gk = TensorStorage::from_buffer(vec![2, 1], vec![10i32, 20]);
    assert_eq!(elems(&kept.grad(&input, &gk)), vec![0, 10, 10, 20, 0, 0]);
    let cols = MaxOp { dims: vec![0], keepdim: false };
    let gc = TensorStorage::from_buffer(vec![3], vec![1i32, 2, 3]);
    assert_eq!(elems(&cols.grad(&input, &gc)), vec![0, 2, 3, 1, 0, 0]);
}

#[test]
fn sum_and_difference_gradients() {
    let g = TensorStorage::from_buffer(vec![3], vec![1i32, -2, 3]);
    let (ga, gb) = AddOp.grad(&[3], &[3], &g, false);
    assert_eq!(elems(&ga), vec![1, -2, 3]);
    assert_eq!(elems(&gb), vec![1, -2, 3]);
    let (sa, sb) = SubOp.grad(&[3], &[3], &g, false);
    assert_eq!(elems(&sa), vec![1, -2, 3]);
    assert_eq!(elems(&sb), vec![-1, 2, -3]);
}

#[test]
fn maximum_gradient_prefers_the_first_operand_on_ties() {
    let a = TensorStorage::from_buffer(vec![3], vec![1i32, 5, 3]);
    let b = TensorStorage::from_buffer(vec![3], vec![2i32, 5, 1]);
    let g = TensorStorage::from_buffer(vec![3], vec![10i32, 20, 30]);
    let (ga, gb) = MaximumOp.grad(&a, &b, &g, false);
    assert_eq!(elems(&ga), vec![0, 20, 30]);
    assert_eq!(elems(&gb), vec![10, 0, 0]);
}

#[test]
fn convolution_gradients() {
    let input = TensorStorage::from_buffer(vec![1, 1, 2, 2], vec![1i32, 2, 3, 4]);
    let weight = TensorStorage::from_buffer(vec![1, 1, 1, 1], vec![2i32]);
    let op = Conv2dOp { stride: (1, 1), padding: ((0, 0), (0, 0)), dilation: (1, 1) };
    let g = TensorStorage::from_buffer(vec![1, 1, 2, 2], vec![1i32, 1, 1, 1]);
    let r = op.grad(&input, &weight, &g);
    assert_eq!(elems(&r.grad_input), vec![2, 2, 2, 2]);
    assert_eq!(elems(&r.grad_weight), vec![10]);
}

#[test]
fn broadcast_operand_gradients_are_folded() {
    let g = TensorStorage::from_buffer(vec![2, 3], vec![1i32, 2, 3, 4, 5, 6]);
    let (ga, gb) = AddOp.grad(&[2, 3], &[3], &g, false);
    assert_eq!(ga.shape, vec![2, 3]);
    assert_eq!(elems(&ga), vec![1, 2, 3, 4, 5, 6]);
    assert_eq!(gb.shape, vec![3]);
    assert_eq!(elems(&gb), vec![5, 7, 9]);
    let (_, sb) = SubOp.grad(&[2, 3], &[3], &g, false);
    assert_eq!(elems(&sb), vec![-5, -7, -9]);

    let a = TensorStorage::from_buffer(vec![2, 3], vec![1i32, 2, 3, 4, 5, 6]);
    let b = TensorStorage::from_buffer(vec![3], vec![10i32, 20, 30]);
    let ones = TensorStorage::new(vec![2, 3], 1i32);
    let (ma, mb) = MulOp.grad(&a, &b, &ones, false);
    assert_eq!(elems(&ma), vec![10, 20, 30, 10, 20, 30]);
    assert_eq!(elems(&mb), vec![5, 7, 9]);

    let x = TensorStorage::from_buffer(vec![2, 1], vec![2i32, 5]);
    let y = TensorStorage::from_buffer(vec![3], vec![1i32, 5, 9]);
    let (xa, yb) = MaximumOp.grad(&x, &y, &ones, false);
    assert_eq!(xa.shape, vec![2, 1]);
    assert_eq!(elems(&xa), vec![1, 2]);
    assert_eq!(elems(&yb), vec![0, 1, 2]);
}

#[test]
fn unbroadcast_gradient_is_passed_on_or_copied() {
    let g = TensorStorage::from_buffer(vec![2], vec![7i32, 8]);
    let (kept, _) = AddOp.grad(&[2], &[2], &g, true);
    assert!(std::rc::Rc::ptr_eq(&kept.buffer, &g.buffer));
    let (copied, _) = AddOp.grad(&[2], &[2], &g, false);
    assert!(!std::rc::Rc::ptr_eq(&copied.buffer, &g.buffer));
    assert_eq!(elems(&copied), vec![7, 8]);
}

#[test]
fn broadcast_and_expand_gradients_sum_stretched_axes() {
    let g = TensorStorage::from_buffer(vec![2, 2, 3], (0..12).collect::<Vec<i32>>());
    let op = BroadcastOp { old_shape: vec![1, 3] };
    let r = op.grad(&g, false);
    assert_eq!(r.shape, vec![1, 3]);
    assert_eq!(elems(&r), vec![18, 22, 26]);
    let e = ExpandOp { dim: 1 };
    let m = TensorStorage::from_buffer(vec![2, 3], vec![0i32, 1, 2, 3, 4, 5]);
    let s = e.grad(&m);
    assert_eq!(s.shape, vec![2, 1]);
    assert_eq!(elems(&s), vec![3, 12]);
}

#[test]
fn abs_gradient_is_the_sign() {
    let a = TensorStorage::from_buffer(vec![3], vec![-3i32, 0, 4]);
    let g = TensorStorage::from_buffer(vec![3], vec![10i32, 20, 30]);
    assert_eq!(elems(&AbsOp.grad(&a, &g)), vec![-10, 0, 30]);
}

#[test]
fn quotient_gradients() {
    let a = TensorStorage::from_buffer(vec![2], vec![6i32, 8]);
    let b = TensorStorage::from_buffer(vec![2], vec![2i32, 4]);
    let g = TensorStorage::from_buffer(vec![2], vec![4i32, 8]);
    let (ga, gb) = DivOp.grad(&a, &b, &g, false);
    assert_eq!(elems(&ga), vec![2, 2]);
    assert_eq!(elems(&gb), vec![-6, -4]);
}

#[test]
fn matmul_gradients_with_vector_operands() {
    // [2] @ [2, 1] -> [1]
    let a = TensorStorage::from_buffer(vec![2], vec![1i32, 2]);
    let b = TensorStorage::from_buffer(vec![2, 1], vec![3i32, 4]);
    let g = TensorStorage::from_buffer(vec![1], vec![5i32]);
    let (ga, gb) = MatmulOp.grad(&a, &b, &g);
    assert_eq!(ga.shape, vec![2]);
    assert_eq!(elems(&ga), vec![15, 20]);
    assert_eq!(gb.shape, vec![2, 1]);
    assert_eq!(elems(&gb), vec![5, 10]);
    // [2] @ [2] -> []
    let v = TensorStorage::from_buffer(vec![2], vec![3i32, 4]);
    let s = TensorStorage::from_buffer(vec![], vec![2i32]);
    let (gu, gv) = MatmulOp.grad(&a, &v, &s);
    assert_eq!(elems(&gu), vec![6, 8]);
    assert_eq!(elems(&gv), vec![2, 4]);
    // [2, 2] @ [2] -> [2]
    let m = TensorStorage::from_buffer(vec![2, 2], vec![1i32, 2, 3, 4]);
    let gm = TensorStorage::from_buffer(vec![2], vec![1i32, 10]);
    let (dm, dv) = MatmulOp.grad(&m, &v, &gm);
    assert_eq!(elems(&dm), vec![3, 4, 30, 40]);
    assert_eq!(elems(&dv), vec![31, 42]);
}
