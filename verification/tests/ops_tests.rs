use edge_tensor_engine::error::TensorError;
use edge_tensor_engine::ops::binary::add;
use edge_tensor_engine::ops::matmul::{matmul, matmul_int4};
use edge_tensor_engine::ops::unary::{relu, relu_backward};
use edge_tensor_engine::runtime::Runtime;
use edge_tensor_engine::scalar::{center, is_positive, ScalarOp, INFINITY, ONE, ZERO};
use edge_tensor_engine::tensor::{DType, Tensor};

fn unit(op: ScalarOp) -> u32 {
    match op {
        ScalarOp::Add(a, b) => (f32::from_bits(a) + f32::from_bits(b)).to_bits(),
        ScalarOp::Sub(a, b) => (f32::from_bits(a) - f32::from_bits(b)).to_bits(),
        ScalarOp::Mul(a, b) => (f32::from_bits(a) * f32::from_bits(b)).to_bits(),
    }
}

fn bits(values: &[f32]) -> Vec<u32> {
    values.iter().map(|v| v.to_bits()).collect()
}

fn floats(words: &[u32]) -> Vec<f32> {
    words.iter().map(|w| f32::from_bits(*w)).collect()
}

#[test]
fn test_matmul_f32() {
    let mut rt = Runtime::new(unit);
    let a = Tensor::from_vec_f32(&mut rt, bits(&[1.0, 2.0, 3.0, 4.0]), vec![2, 2]).unwrap();
    let b = Tensor::from_vec_f32(&mut rt, bits(&[1.0, 0.0, 0.0, 1.0]), vec![2, 2]).unwrap();
    let c = matmul(&mut rt, &a, &b).unwrap();
    let values = rt.to_vec(&c);
    assert_eq!(f32::from_bits(values[0]), 1.0);
    assert_eq!(f32::from_bits(values[1]), 2.0);
    assert_eq!(f32::from_bits(values[2]), 3.0);
    assert_eq!(f32::from_bits(values[3]), 4.0);
}

#[test]
fn scalar_constants_are_the_bit_patterns() {
    assert_eq!(ZERO, 0.0f32.to_bits());
    assert_eq!(ONE, 1.0f32.to_bits());
    assert_eq!(INFINITY, f32::INFINITY.to_bits());
}

#[test]
fn positive_agrees_with_comparison() {
    let samples: Vec<f32> = vec![
        0.0,
        -0.0,
        1.0,
        -1.0,
        f32::MIN_POSITIVE,
        -f32::MIN_POSITIVE,
        f32::from_bits(1),
        f32::from_bits(0x8000_0001),
        f32::MAX,
        f32::MIN,
        f32::INFINITY,
        f32::NEG_INFINITY,
        f32::NAN,
        -f32::NAN,
        f32::from_bits(0x7f80_0001),
        f32::from_bits(0x7fff_ffff),
        f32::from_bits(0xff80_0001),
        f32::from_bits(0xffff_ffff),
        1e-30,
        3.5e20,
    ];
    for x in samples {
        assert_eq!(is_positive(x.to_bits()), x > 0.0);
    }
    let mut pattern: u32 = 0;
    loop {
        assert_eq!(is_positive(pattern), f32::from_bits(pattern) > 0.0);
        match pattern.checked_add(0x0001_0003) {
            Some(next) => pattern = next,
            None => break,
        }
    }
}

#[test]
fn center_gives_the_code_less_eight() {
    let mut nibble: u8 = 0;
    while nibble < 16 {
        assert_eq!(center(nibble), (nibble as f32 - 8.0).to_bits());
        nibble += 1;
    }
}

#[test]
fn add_sums_elementwise() {
    let mut rt = Runtime::new(unit);
    let a = Tensor::from_vec_f32(&mut rt, bits(&[1.0, 2.5, -3.0, 0.25]), vec![2, 2]).unwrap();
    let b = Tensor::from_vec_f32(&mut rt, bits(&[10.0, 0.5, 3.0, 0.125]), vec![2, 2]).unwrap();
    let c = add(&mut rt, &a, &b).unwrap();
    assert_eq!(floats(&rt.to_vec(&c)), vec![11.0, 3.0, 0.0, 0.375]);
    assert_eq!(c.shape(), &[2, 2]);
    assert_eq!(c.strides(), &[2, 1]);
    assert_eq!(c.dtype(), DType::F32);
    assert!(!c.requires_grad());
    assert!(rt.ctx(&c).is_none());
    assert_ne!(c.storage(), a.storage());
    assert_eq!(floats(&rt.to_vec(&a)), vec![1.0, 2.5, -3.0, 0.25]);
}

#[test]
fn add_follows_logical_order_of_views() {
    let mut rt = Runtime::new(unit);
    let a = Tensor::from_vec_f32(&mut rt, bits(&[1.0, 2.0, 3.0, 4.0]), vec![2, 2]).unwrap();
    let b = Tensor::from_vec_f32(&mut rt, bits(&[10.0, 20.0, 30.0, 40.0]), vec![2, 2]).unwrap();
    let bt = b.t(&mut rt).unwrap();
    let c = add(&mut rt, &a, &bt).unwrap();
    assert_eq!(floats(&rt.to_vec(&c)), vec![11.0, 32.0, 23.0, 44.0]);
    assert!(c.is_contiguous());
}

#[test]
fn add_rejects_mismatched_shapes() {
    let mut rt = Runtime::new(unit);
    let a = Tensor::zeros(&mut rt, vec![2, 3], DType::F32);
    let b = Tensor::zeros(&mut rt, vec![3, 2], DType::F32);
    let c = Tensor::zeros(&mut rt, vec![6], DType::F32);
    let ids: usize = rt.len();
    let buffers: usize = rt.buffers();
    assert_eq!(add(&mut rt, &a, &b).err(), Some(TensorError::ShapeMismatch));
    assert_eq!(add(&mut rt, &a, &c).err(), Some(TensorError::ShapeMismatch));
    assert_eq!(rt.len(), ids);
    assert_eq!(rt.buffers(), buffers);
}

#[test]
fn add_rejects_other_element_types() {
    let mut rt = Runtime::new(unit);
    let a = Tensor::zeros(&mut rt, vec![2], DType::I8);
    let b = Tensor::zeros(&mut rt, vec![2], DType::F32);
    let d = Tensor::zeros(&mut rt, vec![3], DType::I8);
    let ids: usize = rt.len();
    assert_eq!(add(&mut rt, &a, &b).err(), Some(TensorError::DType));
    assert_eq!(add(&mut rt, &b, &a).err(), Some(TensorError::DType));
    assert_eq!(add(&mut rt, &a, &a).err(), Some(TensorError::DType));
    assert_eq!(add(&mut rt, &d, &b).err(), Some(TensorError::ShapeMismatch));
    assert_eq!(rt.len(), ids);
}

#[test]
fn add_records_a_node_when_an_operand_tracks() {
    let mut rt = Runtime::new(unit);
    let mut x = Tensor::from_vec_f32(&mut rt, bits(&[1.0]), vec![1]).unwrap();
    let y = Tensor::from_vec_f32(&mut rt, bits(&[2.0]), vec![1]).unwrap();
    let plain = add(&mut rt, &x, &y).unwrap();
    assert!(!plain.requires_grad());
    assert!(rt.ctx(&plain).is_none());
    x.set_requires_grad(true);
    let z = add(&mut rt, &x, &y).unwrap();
    assert!(z.requires_grad());
    let w = add(&mut rt, &y, &x).unwrap();
    assert!(w.requires_grad());
    assert!(rt.ctx(&w).is_some());
    assert!(rt.grad(&z).is_none());
}

#[test]
fn relu_masks_negative_and_zero() {
    let mut rt = Runtime::new(unit);
    let x = Tensor::from_vec_f32(&mut rt, bits(&[-1.0, 0.0, 2.0]), vec![3]).unwrap();
    let y = relu(&mut rt, &x).unwrap();
    assert_eq!(floats(&rt.to_vec(&y)), vec![0.0, 0.0, 2.0]);
    assert!(!y.requires_grad());
    assert!(rt.ctx(&y).is_none());
    let g = Tensor::from_vec_f32(&mut rt, bits(&[1.0, 1.0, 1.0]), vec![3]).unwrap();
    let gx = relu_backward(&mut rt, &y, &g).unwrap();
    assert_eq!(floats(&rt.to_vec(&gx)), vec![0.0, 0.0, 1.0]);
}

#[test]
fn relu_handles_special_values() {
    let mut rt = Runtime::new(unit);
    let input: Vec<f32> = vec![-0.0, f32::NAN, f32::INFINITY, f32::NEG_INFINITY, f32::MIN_POSITIVE];
    let x = Tensor::from_vec_f32(&mut rt, bits(&input), vec![5]).unwrap();
    let y = relu(&mut rt, &x).unwrap();
    let out = rt.to_vec(&y);
    assert_eq!(out[0], 0.0f32.to_bits());
    assert_eq!(out[1], 0.0f32.to_bits());
    assert_eq!(out[2], f32::INFINITY.to_bits());
    assert_eq!(out[3], 0.0f32.to_bits());
    assert_eq!(out[4], f32::MIN_POSITIVE.to_bits());
    for (i, v) in input.iter().enumerate() {
        let expected: f32 = if *v > 0.0 { *v } else { 0.0 };
        assert_eq!(out[i], expected.to_bits());
    }
}

#[test]
fn relu_rejects_other_element_types() {
    let mut rt = Runtime::new(unit);
    let x = Tensor::zeros(&mut rt, vec![2], DType::F16);
    let ids: usize = rt.len();
    assert_eq!(relu(&mut rt, &x).err(), Some(TensorError::DType));
    assert_eq!(rt.len(), ids);
}

#[test]
fn relu_of_a_tracking_operand_records_its_result() {
    let mut rt = Runtime::new(unit);
    let mut x = Tensor::from_vec_f32(&mut rt, bits(&[-2.0, 3.0]), vec![2]).unwrap();
    x.set_requires_grad(true);
    let first: usize = rt.len();
    let y = relu(&mut rt, &x).unwrap();
    assert!(y.requires_grad());
    assert!(rt.ctx(&y).is_some());
    assert_eq!(y.id(), first + 1);
    assert_eq!(rt.len(), first + 2);
    assert_eq!(floats(&rt.to_vec(&y)), vec![0.0, 3.0]);
}

#[test]
fn relu_backward_rejects_mismatch() {
    let mut rt = Runtime::new(unit);
    let y = Tensor::zeros(&mut rt, vec![3], DType::F32);
    let g = Tensor::zeros(&mut rt, vec![2], DType::F32);
    let h = Tensor::zeros(&mut rt, vec![3], DType::I8);
    assert_eq!(relu_backward(&mut rt, &y, &g).err(), Some(TensorError::ShapeMismatch));
    assert_eq!(relu_backward(&mut rt, &y, &h).err(), Some(TensorError::DType));
    assert_eq!(relu_backward(&mut rt, &h, &g).err(), Some(TensorError::DType));
}

#[test]
fn matmul_of_rectangular_matrices() {
    let mut rt = Runtime::new(unit);
    let a = Tensor::from_vec_f32(&mut rt, bits(&[1.0, 2.0, 3.0, 4.0, 5.0, 6.0]), vec![2, 3]).unwrap();
    let b = Tensor::from_vec_f32(&mut rt, bits(&[7.0, 8.0, 9.0, 10.0, 11.0, 12.0]), vec![3, 2]).unwrap();
    let c = matmul(&mut rt, &a, &b).unwrap();
    assert_eq!(c.shape(), &[2, 2]);
    assert_eq!(c.strides(), &[2, 1]);
    assert_eq!(floats(&rt.to_vec(&c)), vec![58.0, 64.0, 139.0, 154.0]);
    let d = matmul(&mut rt, &b, &a).unwrap();
    assert_eq!(d.shape(), &[3, 3]);
    assert_eq!(
        floats(&rt.to_vec(&d)),
        vec![39.0, 54.0, 69.0, 49.0, 68.0, 87.0, 59.0, 82.0, 105.0]
    );
}

#[test]
fn matmul_reads_through_strides() {
    let mut rt = Runtime::new(unit);
    let a = Tensor::from_vec_f32(&mut rt, bits(&[1.0, 2.0, 3.0, 4.0, 5.0, 6.0]), vec![2, 3]).unwrap();
    let at = a.t(&mut rt).unwrap();
    let c = matmul(&mut rt, &a, &at).unwrap();
    assert_eq!(floats(&rt.to_vec(&c)), vec![14.0, 32.0, 32.0, 77.0]);
    let d = matmul(&mut rt, &at, &a).unwrap();
    assert_eq!(
        floats(&rt.to_vec(&d)),
        vec![17.0, 22.0, 27.0, 22.0, 29.0, 36.0, 27.0, 36.0, 45.0]
    );
    let base = Tensor::from_vec_f32(&mut rt, bits(&[9.0, 1.0, 2.0, 3.0, 4.0]), vec![5]).unwrap();
    let view = Tensor::new(&mut rt, base.storage(), vec![2, 2], vec![2, 1], 1, DType::F32, false);
    let id = Tensor::from_vec_f32(&mut rt, bits(&[1.0, 0.0, 0.0, 1.0]), vec![2, 2]).unwrap();
    let e = matmul(&mut rt, &view, &id).unwrap();
    assert_eq!(floats(&rt.to_vec(&e)), vec![1.0, 2.0, 3.0, 4.0]);
}

#[test]
fn matmul_accumulates_in_index_order() {
    let mut rt = Runtime::new(unit);
    let a = Tensor::from_vec_f32(&mut rt, bits(&[1e8, 1.0, -1e8]), vec![1, 3]).unwrap();
    let b = Tensor::from_vec_f32(&mut rt, bits(&[1.0, 1.0, 1.0]), vec![3, 1]).unwrap();
    let c = matmul(&mut rt, &a, &b).unwrap();
    let expected: f32 = ((0.0f32 + 1e8f32 * 1.0) + 1.0 * 1.0) + -1e8f32 * 1.0;
    assert_eq!(floats(&rt.to_vec(&c)), vec![expected]);
    assert_eq!(expected, 0.0);
}

#[test]
fn matmul_with_empty_inner_dimension_is_zero() {
    let mut rt = Runtime::new(unit);
    let a = Tensor::zeros(&mut rt, vec![2, 0], DType::F32);
    let b = Tensor::zeros(&mut rt, vec![0, 3], DType::F32);
    let c = matmul(&mut rt, &a, &b).unwrap();
    assert_eq!(c.shape(), &[2, 3]);
    assert_eq!(rt.to_vec(&c), vec![0u32; 6]);
}

#[test]
fn matmul_rejections() {
    let mut rt = Runtime::new(unit);
    let a = Tensor::zeros(&mut rt, vec![2, 3], DType::F32);
    let b = Tensor::zeros(&mut rt, vec![2, 3], DType::F32);
    let v = Tensor::zeros(&mut rt, vec![3], DType::F32);
    let c = Tensor::zeros(&mut rt, vec![2, 3, 4], DType::F32);
    let i = Tensor::zeros(&mut rt, vec![3, 2], DType::I8);
    let ids: usize = rt.len();
    let buffers: usize = rt.buffers();
    assert_eq!(matmul(&mut rt, &a, &b).err(), Some(TensorError::ShapeMismatch));
    assert_eq!(matmul(&mut rt, &a, &v).err(), Some(TensorError::Rank));
    assert_eq!(matmul(&mut rt, &c, &a).err(), Some(TensorError::Rank));
    assert_eq!(matmul(&mut rt, &a, &i).err(), Some(TensorError::DType));
    assert_eq!(matmul(&mut rt, &i, &v).err(), Some(TensorError::DType));
    assert_eq!(rt.len(), ids);
    assert_eq!(rt.buffers(), buffers);
}

#[test]
fn matmul_rejects_a_result_too_large_to_count() {
    let mut rt = Runtime::new(unit);
    let big: usize = usize::MAX / 2;
    let a = Tensor::zeros(&mut rt, vec![big, 0], DType::F32);
    let b = Tensor::zeros(&mut rt, vec![0, big], DType::F32);
    assert_eq!(matmul(&mut rt, &a, &b).err(), Some(TensorError::TooLarge));
}

#[test]
fn matmul_records_a_node_when_an_operand_tracks() {
    let mut rt = Runtime::new(unit);
    let mut a = Tensor::zeros(&mut rt, vec![1, 1], DType::F32);
    let b = Tensor::zeros(&mut rt, vec![1, 1], DType::F32);
    let plain = matmul(&mut rt, &a, &b).unwrap();
    assert!(!plain.requires_grad() && rt.ctx(&plain).is_none());
    a.set_requires_grad(true);
    let c = matmul(&mut rt, &b, &a).unwrap();
    assert!(c.requires_grad() && rt.ctx(&c).is_some());
}

#[test]
fn matmul_int4_dequantizes_per_channel() {
    let mut rt = Runtime::new(unit);
    let input = Tensor::from_vec_f32(&mut rt, bits(&[1.0, 2.0, 3.0, 4.0]), vec![2, 2]).unwrap();
    let weight = Tensor::from_bytes(&mut rt, vec![0x9a, 0x07, 0x88], vec![3, 1]).unwrap();
    let scales = Tensor::from_vec_f32(&mut rt, bits(&[0.5, 2.0, 7.0]), vec![3]).unwrap();
    let out = matmul_int4(&mut rt, &input, &weight, &scales, &None).unwrap();
    assert_eq!(out.shape(), &[2, 3]);
    assert_eq!(out.dtype(), DType::F32);
    assert!(!out.requires_grad());
    assert!(rt.ctx(&out).is_none());
    assert_eq!(floats(&rt.to_vec(&out)), vec![2.0, -34.0, 0.0, 5.0, -70.0, 0.0]);
}

#[test]
fn matmul_int4_follows_the_formula() {
    let mut rt = Runtime::new(unit);
    let xs: Vec<f32> = vec![0.5, -1.25, 3.0, 0.75, 2.0, -0.5, 1.5, 4.0];
    let ws: Vec<u8> = vec![0x3c, 0xf0, 0x81, 0x5e, 0x00, 0xff];
    let ss: Vec<f32> = vec![0.1, -0.3, 1.7];
    let input = Tensor::from_vec_f32(&mut rt, bits(&xs), vec![2, 4]).unwrap();
    let weight = Tensor::from_bytes(&mut rt, ws.clone(), vec![3, 2]).unwrap();
    let scales = Tensor::from_vec_f32(&mut rt, bits(&ss), vec![3]).unwrap();
    let out = matmul_int4(&mut rt, &input, &weight, &scales, &None).unwrap();
    let got = floats(&rt.to_vec(&out));
    for i in 0..2usize {
        for j in 0..3usize {
            let mut sum: f32 = 0.0;
            for p in 0..2usize {
                let packed: u8 = ws[j * 2 + p];
                let low: f32 = ((packed & 0x0f) as f32 - 8.0) * ss[j];
                let high: f32 = (((packed >> 4) & 0x0f) as f32 - 8.0) * ss[j];
                sum += xs[i * 4 + 2 * p] * low + xs[i * 4 + 2 * p + 1] * high;
            }
            assert_eq!(got[i * 3 + j].to_bits(), sum.to_bits());
        }
    }
}

#[test]
fn matmul_int4_adds_the_bias() {
    let mut rt = Runtime::new(unit);
    let input = Tensor::from_vec_f32(&mut rt, bits(&[1.0, 2.0]), vec![1, 2]).unwrap();
    let weight = Tensor::from_bytes(&mut rt, vec![0x9a, 0x07], vec![2, 1]).unwrap();
    let scales = Tensor::from_vec_f32(&mut rt, bits(&[0.5, 2.0]), vec![2]).unwrap();
    let bias = Tensor::from_vec_f32(&mut rt, bits(&[100.0, 0.5]), vec![2]).unwrap();
    let out = matmul_int4(&mut rt, &input, &weight, &scales, &Some(bias)).unwrap();
    assert_eq!(floats(&rt.to_vec(&out)), vec![102.0, -33.5]);
}

#[test]
fn matmul_int4_ignores_an_odd_last_column() {
    let mut rt = Runtime::new(unit);
    let input = Tensor::from_vec_f32(&mut rt, bits(&[1.0, 2.0, 1000.0]), vec![1, 3]).unwrap();
    let weight = Tensor::from_bytes(&mut rt, vec![0x9a], vec![1, 1]).unwrap();
    let scales = Tensor::from_vec_f32(&mut rt, bits(&[1.0]), vec![1]).unwrap();
    let out = matmul_int4(&mut rt, &input, &weight, &scales, &None).unwrap();
    assert_eq!(floats(&rt.to_vec(&out)), vec![4.0]);
}

#[test]
fn matmul_int4_rejections() {
    let mut rt = Runtime::new(unit);
    let input = Tensor::zeros(&mut rt, vec![2, 4], DType::F32);
    let weight = Tensor::zeros(&mut rt, vec![3, 2], DType::I8);
    let scales = Tensor::zeros(&mut rt, vec![3], DType::F32);
    let wide = Tensor::zeros(&mut rt, vec![3, 4], DType::I8);
    let few = Tensor::zeros(&mut rt, vec![2], DType::F32);
    let floaty = Tensor::zeros(&mut rt, vec![3, 2], DType::F32);
    let flat = Tensor::zeros(&mut rt, vec![6], DType::I8);
    let bytes = Tensor::zeros(&mut rt, vec![3], DType::I8);
    let ids: usize = rt.len();
    assert_eq!(
        matmul_int4(&mut rt, &input, &wide, &scales, &None).err(),
        Some(TensorError::ShapeMismatch)
    );
    assert_eq!(
        matmul_int4(&mut rt, &input, &weight, &few, &None).err(),
        Some(TensorError::ShapeMismatch)
    );
    assert_eq!(
        matmul_int4(&mut rt, &input, &floaty, &scales, &None).err(),
        Some(TensorError::DType)
    );
    assert_eq!(
        matmul_int4(&mut rt, &input, &weight, &bytes, &None).err(),
        Some(TensorError::DType)
    );
    assert_eq!(matmul_int4(&mut rt, &input, &flat, &scales, &None).err(), Some(TensorError::Rank));
    assert_eq!(
        matmul_int4(&mut rt, &input, &weight, &scales, &Some(few)).err(),
        Some(TensorError::ShapeMismatch)
    );
    assert_eq!(
        matmul_int4(&mut rt, &input, &weight, &scales, &Some(bytes)).err(),
        Some(TensorError::DType)
    );
    assert_eq!(rt.len(), ids);
    assert!(matmul_int4(&mut rt, &input, &weight, &scales, &None).is_ok());
}
