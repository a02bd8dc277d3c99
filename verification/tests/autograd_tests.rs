use edge_tensor_engine::autograd::engine::{backward, backward_step, topological_order};
use edge_tensor_engine::autograd::node::{Node, Op};
use edge_tensor_engine::error::TensorError;
use edge_tensor_engine::ops::binary::add;
use edge_tensor_engine::ops::matmul::matmul;
use edge_tensor_engine::ops::unary::relu;
use edge_tensor_engine::runtime::Runtime;
use edge_tensor_engine::scalar::ScalarOp;
use edge_tensor_engine::tensor::{DType, Tensor};

fn unit(op: ScalarOp) -> u32 {
    match op {
        ScalarOp::Add(a, b) => (f32::from_bits(a) + f32::from_bits(b)).to_bits(),
        ScalarOp::Sub(a, b) => (f32::from_bits(a) - f32::from_bits(b)).to_bits(),
        ScalarOp::Mul(a, b) => (f32::from_bits(a) * f32::from_bits(b)).to_bits(),
    }
}

fn bits(values: &[f32]) -> Vec<u32> {
    values.iter().map(|v| v.to_bits()).collect()
}

fn floats(words: &[u32]) -> Vec<f32> {
    words.iter().map(|w| f32::from_bits(*w)).collect()
}

fn leaf(rt: &mut Runtime<fn(ScalarOp) -> u32>, values: &[f32], shape: Vec<usize>) -> Tensor {
    let mut t = Tensor::from_vec_f32(rt, bits(values), shape).unwrap();
    t.set_requires_grad(true);
    t
}

fn start() -> Runtime<fn(ScalarOp) -> u32> {
    Runtime::new(unit as fn(ScalarOp) -> u32)
}

fn grad_of(rt: &Runtime<fn(ScalarOp) -> u32>, t: &Tensor) -> Option<Vec<f32>> {
    rt.grad(t).map(|g| floats(&rt.to_vec(g)))
}

#[test]
fn test_autograd_add() {
    let mut rt = start();
    let mut x = Tensor::from_vec_f32(&mut rt, bits(&[2.0]), vec![1]).unwrap();
    x.set_requires_grad(true);
    let mut y = Tensor::from_vec_f32(&mut rt, bits(&[3.0]), vec![1]).unwrap();
    y.set_requires_grad(true);
    let z = add(&mut rt, &x, &y).unwrap();
    assert!(z.requires_grad());
    assert!(rt.ctx(&z).is_some());
    let grad = Tensor::from_vec_f32(&mut rt, bits(&[1.0]), vec![1]).unwrap();
    z.add_grad(&mut rt, grad).unwrap();
    let z_grad = rt.grad(&z);
    assert!(z_grad.is_some());
    let val: f32 = f32::from_bits(rt.to_vec(z_grad.unwrap())[0]);
    assert_eq!(val, 1.0);
}

#[test]
fn gradient_of_a_sum_reaches_both_operands() {
    let mut rt = start();
    let x = leaf(&mut rt, &[2.0], vec![1]);
    let y = leaf(&mut rt, &[3.0], vec![1]);
    let z = add(&mut rt, &x, &y).unwrap();
    assert_eq!(floats(&rt.to_vec(&z)), vec![5.0]);
    let seed = Tensor::from_vec_f32(&mut rt, bits(&[1.0]), vec![1]).unwrap();
    z.add_grad(&mut rt, seed).unwrap();
    assert_eq!(backward(&mut rt, &z), Ok(()));
    assert_eq!(grad_of(&rt, &x), Some(vec![1.0]));
    assert_eq!(grad_of(&rt, &y), Some(vec![1.0]));
    assert_eq!(grad_of(&rt, &z), Some(vec![1.0]));
}

#[test]
fn backward_does_not_seed_the_root() {
    let mut rt = start();
    let x = leaf(&mut rt, &[2.0], vec![1]);
    let y = leaf(&mut rt, &[3.0], vec![1]);
    let z = add(&mut rt, &x, &y).unwrap();
    let ids: usize = rt.len();
    assert_eq!(backward(&mut rt, &z), Ok(()));
    assert!(rt.grad(&z).is_none());
    assert!(rt.grad(&x).is_none());
    assert!(rt.grad(&y).is_none());
    assert_eq!(rt.len(), ids);
}

#[test]
fn backward_from_a_leaf_changes_nothing() {
    let mut rt = start();
    let x = leaf(&mut rt, &[2.0], vec![1]);
    let g = Tensor::from_vec_f32(&mut rt, bits(&[4.0]), vec![1]).unwrap();
    x.add_grad(&mut rt, g).unwrap();
    let ids: usize = rt.len();
    assert_eq!(backward(&mut rt, &x), Ok(()));
    assert_eq!(rt.len(), ids);
    assert_eq!(grad_of(&rt, &x), Some(vec![4.0]));
    assert_eq!(topological_order(&rt, &x), vec![x.id()]);
}

#[test]
fn parents_that_do_not_track_receive_nothing() {
    let mut rt = start();
    let x = leaf(&mut rt, &[2.0], vec![1]);
    let c = Tensor::from_vec_f32(&mut rt, bits(&[3.0]), vec![1]).unwrap();
    let z = add(&mut rt, &x, &c).unwrap();
    let seed = Tensor::from_vec_f32(&mut rt, bits(&[1.0]), vec![1]).unwrap();
    z.add_grad(&mut rt, seed).unwrap();
    assert_eq!(backward(&mut rt, &z), Ok(()));
    assert_eq!(grad_of(&rt, &x), Some(vec![1.0]));
    assert_eq!(grad_of(&rt, &c), None);
}

#[test]
fn a_tensor_used_twice_accumulates_twice() {
    let mut rt = start();
    let x = leaf(&mut rt, &[2.0, 5.0], vec![2]);
    let z = add(&mut rt, &x, &x).unwrap();
    let seed = Tensor::from_vec_f32(&mut rt, bits(&[1.0, 10.0]), vec![2]).unwrap();
    z.add_grad(&mut rt, seed).unwrap();
    assert_eq!(topological_order(&rt, &z), vec![x.id(), z.id()]);
    assert_eq!(backward(&mut rt, &z), Ok(()));
    assert_eq!(grad_of(&rt, &x), Some(vec![2.0, 20.0]));
}

#[test]
fn gradients_flow_through_a_chain() {
    let mut rt = start();
    let x = leaf(&mut rt, &[1.0, -2.0], vec![2]);
    let y = leaf(&mut rt, &[0.5, 0.5], vec![2]);
    let s = add(&mut rt, &x, &y).unwrap();
    let r = relu(&mut rt, &s).unwrap();
    let t = add(&mut rt, &r, &x).unwrap();
    assert_eq!(floats(&rt.to_vec(&t)), vec![2.5, -2.0]);
    let seed = Tensor::from_vec_f32(&mut rt, bits(&[1.0, 1.0]), vec![2]).unwrap();
    t.add_grad(&mut rt, seed).unwrap();
    assert_eq!(backward(&mut rt, &t), Ok(()));
    assert_eq!(grad_of(&rt, &s), Some(vec![1.0, 0.0]));
    assert_eq!(grad_of(&rt, &y), Some(vec![1.0, 0.0]));
    assert_eq!(grad_of(&rt, &x), Some(vec![2.0, 1.0]));
}

#[test]
fn gradients_handed_on_unchanged_share_one_buffer() {
    let mut rt = start();
    let x = leaf(&mut rt, &[1.0, -2.0], vec![2]);
    let y = leaf(&mut rt, &[0.5, 0.5], vec![2]);
    let s = add(&mut rt, &x, &y).unwrap();
    let r = relu(&mut rt, &s).unwrap();
    let t = add(&mut rt, &r, &x).unwrap();
    let seed = Tensor::from_vec_f32(&mut rt, bits(&[1.0, 1.0]), vec![2]).unwrap();
    let seed_storage: usize = seed.storage();
    t.add_grad(&mut rt, seed).unwrap();
    assert_eq!(backward(&mut rt, &t), Ok(()));
    // The sum handed the seed on as views: the slots of `t`, `r` and `x`
    // all view the seed's buffer, and the second gradient of `x` was added
    // into that buffer in place.
    assert_eq!(rt.grad(&t).unwrap().storage(), seed_storage);
    assert_eq!(rt.grad(&r).unwrap().storage(), seed_storage);
    assert_eq!(rt.grad(&x).unwrap().storage(), seed_storage);
    assert_eq!(grad_of(&rt, &x), Some(vec![2.0, 1.0]));
    assert_eq!(grad_of(&rt, &r), Some(vec![2.0, 1.0]));
    assert_eq!(grad_of(&rt, &t), Some(vec![2.0, 1.0]));
    assert_ne!(rt.grad(&y).unwrap().storage(), seed_storage);
}

#[test]
fn relu_gradient_is_masked_strictly() {
    let mut rt = start();
    let x = leaf(&mut rt, &[-1.0, 0.0, 2.0], vec![3]);
    let y = relu(&mut rt, &x).unwrap();
    assert_eq!(floats(&rt.to_vec(&y)), vec![0.0, 0.0, 2.0]);
    let seed = Tensor::from_vec_f32(&mut rt, bits(&[1.0, 1.0, 1.0]), vec![3]).unwrap();
    y.add_grad(&mut rt, seed).unwrap();
    assert_eq!(backward(&mut rt, &y), Ok(()));
    assert_eq!(grad_of(&rt, &x), Some(vec![0.0, 0.0, 1.0]));
}

#[test]
fn matmul_gradients_are_the_transposed_products() {
    let mut rt = start();
    let a = leaf(&mut rt, &[1.0, 2.0, 3.0, 4.0, 5.0, 6.0], vec![2, 3]);
    let b = leaf(&mut rt, &[7.0, 8.0, 9.0, 10.0, 11.0, 12.0], vec![3, 2]);
    let c = matmul(&mut rt, &a, &b).unwrap();
    let g: Vec<f32> = vec![1.0, -1.0, 0.5, 2.0];
    let seed = Tensor::from_vec_f32(&mut rt, bits(&g), vec![2, 2]).unwrap();
    c.add_grad(&mut rt, seed).unwrap();
    assert_eq!(backward(&mut rt, &c), Ok(()));
    assert_eq!(grad_of(&rt, &a), Some(vec![-1.0, -1.0, -1.0, 19.5, 24.5, 29.5]));
    assert_eq!(grad_of(&rt, &b), Some(vec![3.0, 7.0, 4.5, 8.0, 6.0, 9.0]));
    let da = rt.grad(&a).unwrap();
    assert_eq!(da.shape(), a.shape());
    let db = rt.grad(&b).unwrap();
    assert_eq!(db.shape(), b.shape());
}

fn loss(a: &[f32], b: &[f32], g: &[f32], m: usize, k: usize, n: usize) -> f64 {
    let mut total: f64 = 0.0;
    for i in 0..m {
        for j in 0..n {
            let mut sum: f64 = 0.0;
            for p in 0..k {
                sum += (a[i * k + p] as f64) * (b[p * n + j] as f64);
            }
            total += sum * (g[i * n + j] as f64);
        }
    }
    total
}

#[test]
fn matmul_gradients_match_finite_differences() {
    let m: usize = 3;
    let k: usize = 4;
    let n: usize = 2;
    let mut state: u32 = 12345;
    let mut next = move || -> f32 {
        state = state.wrapping_mul(1664525).wrapping_add(1013904223);
        ((state >> 8) as f32 / 16777216.0) * 2.0 - 1.0
    };
    let a: Vec<f32> = (0..m * k).map(|_| next()).collect();
    let b: Vec<f32> = (0..k * n).map(|_| next()).collect();
    let g: Vec<f32> = (0..m * n).map(|_| next()).collect();
    let mut rt = start();
    let ta = leaf(&mut rt, &a, vec![m, k]);
    let tb = leaf(&mut rt, &b, vec![k, n]);
    let c = matmul(&mut rt, &ta, &tb).unwrap();
    let seed = Tensor::from_vec_f32(&mut rt, bits(&g), vec![m, n]).unwrap();
    c.add_grad(&mut rt, seed).unwrap();
    assert_eq!(backward(&mut rt, &c), Ok(()));
    let da = grad_of(&rt, &ta).unwrap();
    let db = grad_of(&rt, &tb).unwrap();
    let h: f32 = 1e-2;
    for i in 0..m * k {
        let mut up = a.clone();
        let mut down = a.clone();
        up[i] += h;
        down[i] -= h;
        let estimate: f64 = (loss(&up, &b, &g, m, k, n) - loss(&down, &b, &g, m, k, n)) / (2.0 * h as f64);
        assert!((estimate - da[i] as f64).abs() <= 1e-4 * (1.0 + estimate.abs()));
    }
    for i in 0..k * n {
        let mut up = b.clone();
        let mut down = b.clone();
        up[i] += h;
        down[i] -= h;
        let estimate: f64 = (loss(&a, &up, &g, m, k, n) - loss(&a, &down, &g, m, k, n)) / (2.0 * h as f64);
        assert!((estimate - db[i] as f64).abs() <= 1e-4 * (1.0 + estimate.abs()));
    }
}

#[test]
fn order_puts_every_parent_before_its_child() {
    let mut rt = start();
    let x = leaf(&mut rt, &[1.0, 2.0, 3.0, 4.0], vec![2, 2]);
    let w = leaf(&mut rt, &[0.5, 0.0, 0.0, 0.5], vec![2, 2]);
    let h1 = matmul(&mut rt, &x, &w).unwrap();
    let h2 = relu(&mut rt, &h1).unwrap();
    let h3 = add(&mut rt, &h2, &x).unwrap();
    let h4 = add(&mut rt, &h3, &h1).unwrap();
    let order = topological_order(&rt, &h4);
    assert_eq!(order, vec![x.id(), w.id(), h1.id(), h2.id(), h3.id(), h4.id()]);
    assert_eq!(*order.last().unwrap(), h4.id());
    for (q, id) in order.iter().enumerate() {
        assert_eq!(order.iter().filter(|other| *other == id).count(), 1);
        let node: Option<&Op> = rt.node(*id);
        if let Some(op) = node {
            for parent in op.parents() {
                let at = order.iter().position(|other| *other == parent.id());
                assert!(at.is_some());
                assert!(at.unwrap() < q);
            }
        }
    }
    let unrelated = leaf(&mut rt, &[1.0], vec![1]);
    assert!(!topological_order(&rt, &h4).contains(&unrelated.id()));
}

#[test]
fn order_visits_parents_depth_first_in_their_order() {
    let mut rt = start();
    let a = leaf(&mut rt, &[1.0], vec![1]);
    let b = leaf(&mut rt, &[2.0], vec![1]);
    let c = leaf(&mut rt, &[3.0], vec![1]);
    let bc = add(&mut rt, &b, &c).unwrap();
    let top = add(&mut rt, &bc, &a).unwrap();
    assert_eq!(topological_order(&rt, &top), vec![b.id(), c.id(), bc.id(), a.id(), top.id()]);
}

#[test]
fn nodes_list_their_parents_in_order() {
    let mut rt = start();
    let x = leaf(&mut rt, &[1.0], vec![1]);
    let y = leaf(&mut rt, &[2.0], vec![1]);
    let z = add(&mut rt, &x, &y).unwrap();
    let op = rt.ctx(&z).unwrap();
    let parents = op.parents();
    assert_eq!(parents.len(), 2);
    assert_eq!(parents[0].id(), x.id());
    assert_eq!(parents[1].id(), y.id());
    assert!(matches!(op, Op::Add(_)));
    let r = relu(&mut rt, &x).unwrap();
    let op = rt.ctx(&r).unwrap();
    assert_eq!(op.parents().len(), 1);
    assert_eq!(op.parents()[0].id(), x.id());
    assert!(matches!(op, Op::Relu(_)));
}

#[test]
fn first_gradient_is_stored_and_later_ones_add_in_place() {
    let mut rt = start();
    let x = leaf(&mut rt, &[0.0, 0.0], vec![2]);
    let g1 = Tensor::from_vec_f32(&mut rt, bits(&[1.0, 2.0]), vec![2]).unwrap();
    let alias = g1.clone(&mut rt);
    let first_storage: usize = g1.storage();
    x.add_grad(&mut rt, g1).unwrap();
    assert_eq!(rt.grad(&x).unwrap().storage(), first_storage);
    let g2 = Tensor::from_vec_f32(&mut rt, bits(&[10.0, 20.0]), vec![2]).unwrap();
    let g2_view = g2.clone(&mut rt);
    let buffers: usize = rt.buffers();
    x.add_grad(&mut rt, g2).unwrap();
    assert_eq!(rt.buffers(), buffers);
    assert_eq!(rt.grad(&x).unwrap().storage(), first_storage);
    assert_eq!(grad_of(&rt, &x), Some(vec![11.0, 22.0]));
    assert_eq!(floats(&rt.to_vec(&alias)), vec![11.0, 22.0]);
    assert_eq!(floats(&rt.to_vec(&g2_view)), vec![10.0, 20.0]);
    assert_eq!(floats(&rt.to_vec(&x)), vec![0.0, 0.0]);
}

#[test]
fn accumulation_into_a_gradient_view_with_offset() {
    let mut rt = start();
    let x = leaf(&mut rt, &[0.0, 0.0], vec![2]);
    let base = Tensor::from_vec_f32(&mut rt, bits(&[7.0, 1.0, 2.0, 9.0]), vec![4]).unwrap();
    let window = Tensor::new(&mut rt, base.storage(), vec![2], vec![1], 1, DType::F32, false);
    x.add_grad(&mut rt, window).unwrap();
    let g2 = Tensor::from_vec_f32(&mut rt, bits(&[10.0, 20.0]), vec![2]).unwrap();
    x.add_grad(&mut rt, g2).unwrap();
    assert_eq!(floats(&rt.to_vec(&base)), vec![7.0, 11.0, 22.0, 9.0]);
}

#[test]
fn accumulation_rejects_what_it_cannot_add() {
    let mut rt = start();
    let x = leaf(&mut rt, &[0.0; 4], vec![2, 2]);
    let g = Tensor::from_vec_f32(&mut rt, bits(&[1.0, 2.0, 3.0, 4.0]), vec![2, 2]).unwrap();
    let gt = g.t(&mut rt).unwrap();
    let other = Tensor::from_vec_f32(&mut rt, bits(&[1.0, 2.0, 3.0, 4.0]), vec![4]).unwrap();
    let bytes = Tensor::zeros(&mut rt, vec![2, 2], DType::I8);
    let keep = g.clone(&mut rt);
    x.add_grad(&mut rt, g).unwrap();
    assert_eq!(x.add_grad(&mut rt, gt), Err(TensorError::NonContiguous));
    assert_eq!(x.add_grad(&mut rt, other), Err(TensorError::ShapeMismatch));
    assert_eq!(x.add_grad(&mut rt, bytes), Err(TensorError::DType));
    assert_eq!(floats(&rt.to_vec(&keep)), vec![1.0, 2.0, 3.0, 4.0]);
    assert_eq!(grad_of(&rt, &x), Some(vec![1.0, 2.0, 3.0, 4.0]));

    let y = leaf(&mut rt, &[0.0; 4], vec![2, 2]);
    let h = Tensor::from_vec_f32(&mut rt, bits(&[1.0, 2.0, 3.0, 4.0]), vec![2, 2]).unwrap();
    let ht = h.t(&mut rt).unwrap();
    y.add_grad(&mut rt, ht).unwrap();
    assert_eq!(grad_of(&rt, &y), Some(vec![1.0, 3.0, 2.0, 4.0]));
    assert_eq!(y.add_grad(&mut rt, h), Err(TensorError::NonContiguous));
}

#[test]
fn backward_stops_at_the_first_rejection() {
    let mut rt = start();
    let a = leaf(&mut rt, &[1.0, 2.0], vec![1, 2]);
    let b = leaf(&mut rt, &[3.0, 4.0], vec![2, 1]);
    let c = matmul(&mut rt, &a, &b).unwrap();
    let wrong = Tensor::from_vec_f32(&mut rt, bits(&[1.0, 1.0]), vec![2]).unwrap();
    c.add_grad(&mut rt, wrong).unwrap();
    assert_eq!(backward(&mut rt, &c), Err(TensorError::Rank));
    assert!(rt.grad(&a).is_none());
    assert!(rt.grad(&b).is_none());
    assert_eq!(backward_step(&mut rt, a.id()), Ok(()));
}

#[test]
fn a_step_without_gradient_or_node_does_nothing() {
    let mut rt = start();
    let x = leaf(&mut rt, &[1.0], vec![1]);
    let y = leaf(&mut rt, &[2.0], vec![1]);
    let z = add(&mut rt, &x, &y).unwrap();
    let ids: usize = rt.len();
    assert_eq!(backward_step(&mut rt, z.id()), Ok(()));
    assert_eq!(backward_step(&mut rt, x.id()), Ok(()));
    assert_eq!(rt.len(), ids);
    assert!(rt.grad(&x).is_none());
}

#[test]
fn node_backward_hands_back_one_gradient_per_parent() {
    let mut rt = start();
    let x = leaf(&mut rt, &[1.0, 2.0], vec![2]);
    let y = leaf(&mut rt, &[3.0, 4.0], vec![2]);
    let z = add(&mut rt, &x, &y).unwrap();
    let g = Tensor::from_vec_f32(&mut rt, bits(&[5.0, 6.0]), vec![2]).unwrap();
    let op = match rt.ctx(&z).unwrap() {
        Op::Add(n) => n.parents(),
        _ => unreachable!(),
    };
    assert_eq!(op.len(), 2);
    let a = leaf(&mut rt, &[1.0, 2.0, 3.0, 4.0], vec![2, 2]);
    let r = relu(&mut rt, &a).unwrap();
    let seed = Tensor::from_vec_f32(&mut rt, bits(&[1.0, 1.0, 1.0, 1.0]), vec![2, 2]).unwrap();
    r.add_grad(&mut rt, seed).unwrap();
    assert_eq!(backward(&mut rt, &r), Ok(()));
    assert_eq!(grad_of(&rt, &a), Some(vec![1.0, 1.0, 1.0, 1.0]));
    assert_eq!(floats(&rt.to_vec(&g)), vec![5.0, 6.0]);
}
