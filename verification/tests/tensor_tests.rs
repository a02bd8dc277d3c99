use edge_tensor_engine::error::TensorError;
use edge_tensor_engine::runtime::Runtime;
use edge_tensor_engine::scalar::ScalarOp;
use edge_tensor_engine::tensor::layout;
use edge_tensor_engine::tensor::storage::{next_uid, Storage};
use edge_tensor_engine::tensor::{DType, Tensor};

fn unit(op: ScalarOp) -> u32 {
    match op {
        ScalarOp::Add(a, b) => (f32::from_bits(a) + f32::from_bits(b)).to_bits(),
        ScalarOp::Sub(a, b) => (f32::from_bits(a) - f32::from_bits(b)).to_bits(),
        ScalarOp::Mul(a, b) => (f32::from_bits(a) * f32::from_bits(b)).to_bits(),
    }
}

fn bits(values: &[f32]) -> Vec<u32> {
    values.iter().map(|v| v.to_bits()).collect()
}

fn floats(words: &[u32]) -> Vec<f32> {
    words.iter().map(|w| f32::from_bits(*w)).collect()
}

#[test]
fn test_tensor_creation() {
    let mut rt = Runtime::new(unit);
    let t = Tensor::zeros(&mut rt, vec![2, 3], DType::F32);
    assert_eq!(t.shape(), &[2, 3]);
    assert_eq!(t.strides(), &[3, 1]);
    assert_eq!(t.numel(), 6);
    assert!(!t.requires_grad());
}

#[test]
fn test_from_vec() {
    let mut rt = Runtime::new(unit);
    let data = vec![1.0f32, 2.0, 3.0, 4.0];
    let t = Tensor::from_vec_f32(&mut rt, bits(&data), vec![2, 2]).unwrap();
    let values = rt.to_vec(&t);
    assert_eq!(f32::from_bits(values[0]), 1.0);
    assert_eq!(f32::from_bits(values[3]), 4.0);
}

#[test]
fn test_view_transpose() {
    let mut rt = Runtime::new(unit);
    let t = Tensor::zeros(&mut rt, vec![2, 3], DType::F32);
    let t_t = t.t(&mut rt).unwrap();
    assert_eq!(t_t.shape(), &[3, 2]);
    assert_eq!(t_t.strides(), &[1, 3]);
}

#[test]
fn storage_is_zeroed_and_sized() {
    let s = Storage::new(37);
    assert_eq!(s.len(), 37);
    assert!(!s.is_empty());
    assert!(s.as_slice().iter().all(|b| *b == 0));
    let e = Storage::new(0);
    assert_eq!(e.len(), 0);
    assert!(e.is_empty());
    assert_eq!(e.as_slice().len(), 0);
}

#[test]
fn storage_words_are_little_endian() {
    let mut s = Storage::new(12);
    s.set_word(1, 0x1122_3344);
    assert_eq!(s.as_slice(), &[0, 0, 0, 0, 0x44, 0x33, 0x22, 0x11, 0, 0, 0, 0]);
    assert_eq!(s.word(1), 0x1122_3344);
    assert_eq!(s.word(0), 0);
    assert_eq!(s.word(2), 0);
    assert_eq!(s.byte(5), 0x33);
    let words: Vec<u32> = vec![1.5f32.to_bits(), 0xdead_beef];
    let t = Storage::from_words(&words);
    assert_eq!(t.len(), 8);
    assert_eq!(t.word(0), 1.5f32.to_bits());
    assert_eq!(t.word(1), 0xdead_beef);
    assert_eq!(&t.as_slice()[0..4], &1.5f32.to_le_bytes());
}

#[test]
fn storage_mut_slice_writes_through() {
    let mut s = Storage::new(4);
    s.as_mut_slice()[2] = 7;
    assert_eq!(s.as_slice(), &[0, 0, 7, 0]);
    assert_eq!(s.word(0), 0x0007_0000);
    let b = Storage::from_bytes(vec![9, 8, 7]);
    assert_eq!(b.as_slice(), &[9, 8, 7]);
}

#[test]
fn dtype_widths_and_codes() {
    assert_eq!(DType::F32.size_of(), 4);
    assert_eq!(DType::F16.size_of(), 2);
    assert_eq!(DType::I8.size_of(), 1);
    assert_eq!(DType::I4.size_of(), 0);
    assert_eq!(DType::from_code(0), DType::F32);
    assert_eq!(DType::from_code(1), DType::F16);
    assert_eq!(DType::from_code(2), DType::I8);
    assert_eq!(DType::from_code(3), DType::I4);
    assert_eq!(DType::from_code(4), DType::F32);
    assert_eq!(DType::from_code(-1), DType::F32);
}

#[test]
fn default_strides_are_row_major() {
    assert_eq!(Tensor::default_strides(&[2, 3, 4]), vec![12, 4, 1]);
    assert_eq!(Tensor::default_strides(&[5]), vec![1]);
    assert_eq!(Tensor::default_strides(&[]), Vec::<usize>::new());
    assert_eq!(Tensor::default_strides(&[3, 0, 2]), vec![0, 2, 1]);
    assert_eq!(layout::count(&[2, 3, 4]), 24);
    assert_eq!(layout::count(&[]), 1);
    assert_eq!(layout::count(&[7, 0]), 0);
}

#[test]
fn zeros_has_default_strides_and_product_numel() {
    let mut rt = Runtime::new(unit);
    let shapes: Vec<Vec<usize>> = vec![vec![], vec![4], vec![2, 3], vec![2, 0, 5], vec![3, 1, 2, 2]];
    for shape in shapes {
        for dtype in [DType::F32, DType::F16, DType::I8, DType::I4] {
            let t = Tensor::zeros(&mut rt, shape.clone(), dtype);
            let expected: usize = shape.iter().product();
            assert_eq!(t.strides(), Tensor::default_strides(&shape).as_slice());
            assert_eq!(t.numel(), expected);
            assert_eq!(t.shape(), shape.as_slice());
            assert_eq!(t.dtype(), dtype);
            assert!(t.is_contiguous());
            assert_eq!(rt.buffer(t.storage()).len(), expected * dtype.size_of());
            assert!(rt.owns(&t));
        }
    }
}

#[test]
fn zeros_reads_zero_and_ones_reads_one() {
    let mut rt = Runtime::new(unit);
    let z = Tensor::zeros(&mut rt, vec![2, 2], DType::F32);
    assert_eq!(floats(&rt.to_vec(&z)), vec![0.0, 0.0, 0.0, 0.0]);
    let o = Tensor::ones(&mut rt, vec![3], DType::F32);
    assert_eq!(floats(&rt.to_vec(&o)), vec![1.0, 1.0, 1.0]);
    assert_eq!(rt.element(&o, 2), 1.0f32.to_bits());
}

#[test]
fn ones_fills_every_element_type() {
    let mut rt = Runtime::new(unit);
    let h = Tensor::ones(&mut rt, vec![2], DType::F16);
    assert_eq!(rt.buffer(h.storage()).as_slice(), &[0x00, 0x3c, 0x00, 0x3c]);
    let b = Tensor::ones(&mut rt, vec![3], DType::I8);
    assert_eq!(rt.buffer(b.storage()).as_slice(), &[1, 1, 1]);
    let p = Tensor::ones(&mut rt, vec![5], DType::I4);
    assert_eq!(rt.buffer(p.storage()).len(), 0);
    let f = Tensor::ones(&mut rt, vec![1], DType::F32);
    assert_eq!(rt.buffer(f.storage()).as_slice(), &1.0f32.to_le_bytes());
}

#[test]
fn from_vec_rejects_wrong_length() {
    let mut rt = Runtime::new(unit);
    let before: usize = rt.len();
    let r = Tensor::from_vec_f32(&mut rt, bits(&[1.0, 2.0, 3.0]), vec![2, 2]);
    assert_eq!(r.err(), Some(TensorError::ShapeMismatch));
    assert_eq!(rt.len(), before);
    assert_eq!(rt.buffers(), 0);
    let ok = Tensor::from_vec_f32(&mut rt, Vec::new(), vec![0, 7]).unwrap();
    assert_eq!(ok.numel(), 0);
    let r = Tensor::from_bytes(&mut rt, vec![1, 2, 3], vec![2]);
    assert_eq!(r.err(), Some(TensorError::ShapeMismatch));
    let b = Tensor::from_bytes(&mut rt, vec![1, 2, 3], vec![3]).unwrap();
    assert_eq!(b.dtype(), DType::I8);
    assert_eq!(rt.buffer(b.storage()).as_slice(), &[1, 2, 3]);
}

#[test]
fn identifiers_are_fresh() {
    let mut rt = Runtime::new(unit);
    let a = Tensor::zeros(&mut rt, vec![1], DType::F32);
    let b = a.clone(&mut rt);
    let c = a.t(&mut rt);
    assert_eq!(c.err(), Some(TensorError::Rank));
    let d = Tensor::zeros(&mut rt, vec![2, 2], DType::F32);
    let e = d.t(&mut rt).unwrap();
    let f: usize = next_uid(&mut rt);
    let g: usize = next_uid(&mut rt);
    let ids: Vec<usize> = vec![a.id(), b.id(), d.id(), e.id(), f, g];
    assert_eq!(ids, vec![0, 1, 2, 3, 4, 5]);
    assert_eq!(rt.len(), 6);
}

#[test]
fn transpose_rejects_fewer_than_two_axes() {
    let mut rt = Runtime::new(unit);
    let v = Tensor::zeros(&mut rt, vec![5], DType::F32);
    let before: usize = rt.len();
    assert_eq!(v.t(&mut rt).err(), Some(TensorError::Rank));
    assert_eq!(rt.len(), before);
    let s = Tensor::zeros(&mut rt, vec![], DType::F32);
    assert_eq!(s.t(&mut rt).err(), Some(TensorError::Rank));
}

#[test]
fn transpose_twice_restores_layout() {
    let mut rt = Runtime::new(unit);
    let t = Tensor::from_vec_f32(&mut rt, bits(&[1.0, 2.0, 3.0, 4.0, 5.0, 6.0]), vec![2, 3]).unwrap();
    let once = t.t(&mut rt).unwrap();
    let twice = once.t(&mut rt).unwrap();
    assert_eq!(twice.shape(), t.shape());
    assert_eq!(twice.strides(), t.strides());
    assert_eq!(twice.storage(), t.storage());
    assert_eq!(twice.offset(), t.offset());
    assert_ne!(twice.id(), t.id());
    assert!(!once.is_contiguous());
    assert!(twice.is_contiguous());
    assert_eq!(floats(&rt.to_vec(&once)), vec![1.0, 4.0, 2.0, 5.0, 3.0, 6.0]);
    assert_eq!(floats(&rt.to_vec(&twice)), vec![1.0, 2.0, 3.0, 4.0, 5.0, 6.0]);
}

#[test]
fn transpose_swaps_last_two_of_many_axes() {
    let mut rt = Runtime::new(unit);
    let t = Tensor::zeros(&mut rt, vec![2, 3, 4], DType::F32);
    let u = t.t(&mut rt).unwrap();
    assert_eq!(u.shape(), &[2, 4, 3]);
    assert_eq!(u.strides(), &[12, 1, 4]);
    assert_eq!(u.numel(), 24);
}

#[test]
fn transpose_is_a_view_of_the_same_buffer() {
    let mut rt = Runtime::new(unit);
    let t = Tensor::from_vec_f32(&mut rt, bits(&[1.0, 2.0, 3.0, 4.0]), vec![2, 2]).unwrap();
    let u = t.t(&mut rt).unwrap();
    rt.write_words(t.storage(), 1, &bits(&[9.0]));
    assert_eq!(floats(&rt.to_vec(&t)), vec![1.0, 9.0, 3.0, 4.0]);
    assert_eq!(floats(&rt.to_vec(&u)), vec![1.0, 3.0, 9.0, 4.0]);
}

#[test]
fn clone_shares_storage_but_nothing_else() {
    let mut rt = Runtime::new(unit);
    let mut x = Tensor::from_vec_f32(&mut rt, bits(&[1.0, 2.0]), vec![2]).unwrap();
    x.set_requires_grad(true);
    let g = Tensor::from_vec_f32(&mut rt, bits(&[5.0, 6.0]), vec![2]).unwrap();
    x.add_grad(&mut rt, g).unwrap();
    let c = x.clone(&mut rt);
    assert_ne!(c.id(), x.id());
    assert_eq!(c.storage(), x.storage());
    assert_eq!(c.shape(), x.shape());
    assert_eq!(c.strides(), x.strides());
    assert_eq!(c.offset(), x.offset());
    assert_eq!(c.dtype(), x.dtype());
    assert!(c.requires_grad());
    assert!(rt.grad(&x).is_some());
    assert!(rt.grad(&c).is_none());
    assert!(rt.ctx(&c).is_none());
}

#[test]
fn dropping_a_clone_keeps_the_storage() {
    let mut rt = Runtime::new(unit);
    let x = Tensor::from_vec_f32(&mut rt, bits(&[1.0, 2.0, 3.0]), vec![3]).unwrap();
    let c = x.clone(&mut rt);
    drop(x);
    assert!(rt.owns(&c));
    assert_eq!(floats(&rt.to_vec(&c)), vec![1.0, 2.0, 3.0]);
    let d = c.clone(&mut rt);
    drop(c);
    assert_eq!(floats(&rt.to_vec(&d)), vec![1.0, 2.0, 3.0]);
    assert_eq!(rt.buffers(), 1);
}

#[test]
fn new_builds_a_strided_view() {
    let mut rt = Runtime::new(unit);
    let base = Tensor::from_vec_f32(&mut rt, bits(&[0.0, 1.0, 2.0, 3.0, 4.0, 5.0]), vec![6]).unwrap();
    let view = Tensor::new(&mut rt, base.storage(), vec![2, 2], vec![2, 1], 1, DType::F32, true);
    assert!(rt.owns(&view));
    assert!(view.requires_grad());
    assert_eq!(view.offset(), 1);
    assert_eq!(floats(&rt.to_vec(&view)), vec![1.0, 2.0, 3.0, 4.0]);
    assert!(view.is_contiguous());
    let skip = Tensor::new(&mut rt, base.storage(), vec![3], vec![2], 0, DType::F32, false);
    assert!(!skip.is_contiguous());
    assert_eq!(floats(&rt.to_vec(&skip)), vec![0.0, 2.0, 4.0]);
    assert_eq!(f32::from_bits(rt.element(&skip, 1)), 2.0);
}

#[test]
fn admits_view_tells_what_new_accepts() {
    let mut rt = Runtime::new(unit);
    let base = Tensor::zeros(&mut rt, vec![6], DType::F32);
    let h: usize = base.storage();
    assert!(rt.admits_view(h, &[2, 3], &[3, 1], 0, DType::F32));
    assert!(rt.admits_view(h, &[2, 2], &[2, 1], 2, DType::F32));
    assert!(!rt.admits_view(h, &[2, 2], &[2, 1], 3, DType::F32));
    assert!(!rt.admits_view(h, &[2, 3], &[3, 2], 0, DType::F32));
    assert!(rt.admits_view(h, &[100, 100], &[0, 0], 5, DType::F32));
    assert!(!rt.admits_view(h, &[100, 100], &[0, 0], 6, DType::F32));
    assert!(rt.admits_view(h, &[0, 9], &[9, 1], 1000, DType::F32));
    assert!(!rt.admits_view(h, &[2, 3], &[3], 0, DType::F32));
    assert!(!rt.admits_view(h + 1, &[1], &[1], 0, DType::F32));
    assert!(rt.admits_view(h, &[24], &[1], 0, DType::I8));
    assert!(!rt.admits_view(h, &[25], &[1], 0, DType::I8));
    assert!(rt.admits_view(h, &[usize::MAX], &[1], 7, DType::I4));
    assert!(!rt.admits_view(h, &[usize::MAX, 2], &[1, 1], 0, DType::I4));
    assert!(!rt.admits_view(h, &[2], &[usize::MAX], 0, DType::F32));
}

#[test]
fn owns_tells_views_that_leave_the_buffer() {
    let mut rt = Runtime::new(unit);
    let base = Tensor::zeros(&mut rt, vec![4], DType::F32);
    let mut other = Runtime::new(unit);
    let far = Tensor::zeros(&mut other, vec![8], DType::F32);
    assert!(rt.owns(&base));
    assert!(!rt.owns(&far));
    let later = Tensor::zeros(&mut other, vec![1], DType::F32);
    assert!(!rt.owns(&later));
}

#[test]
fn representable_shapes() {
    assert!(Tensor::representable(&[2, 3], DType::F32));
    assert!(Tensor::representable(&[0, usize::MAX], DType::F32));
    assert!(!Tensor::representable(&[usize::MAX, 2], DType::F32));
    assert!(!Tensor::representable(&[0, usize::MAX, 2], DType::F32));
    assert!(Tensor::representable(&[usize::MAX], DType::I8));
    assert!(!Tensor::representable(&[usize::MAX], DType::F16));
    assert!(Tensor::representable(&[usize::MAX], DType::I4));
    assert!(layout::fits(&[usize::MAX]));
    assert!(!layout::fits(&[2, usize::MAX]));
}

#[test]
fn contiguity_follows_the_strides() {
    assert!(layout::is_row_major(&[2, 3], &[3, 1]));
    assert!(!layout::is_row_major(&[2, 3], &[1, 2]));
    assert!(!layout::is_row_major(&[2, 3], &[3]));
    assert!(layout::is_row_major(&[], &[]));
    assert!(!layout::is_row_major(&[1, 3], &[7, 1]));
    assert_eq!(layout::position(&[2, 3], &[1, 2], 6, 4), 3);
    assert_eq!(layout::position(&[2, 3], &[3, 1], 6, 4), 4);
    assert_eq!(layout::checked_span(&[2, 3], &[3, 1]), Some(5));
    assert_eq!(layout::checked_span(&[2, 3], &[usize::MAX, 1]), None);
}
