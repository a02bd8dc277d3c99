//! Linear projections.
use vstd::prelude::*;
use crate::error::TensorError;
use crate::ops::binary::add_refusal;
use crate::ops::binary::added;
use crate::ops::matmul::bias_view;
use crate::ops::matmul::int4_refusal;
use crate::tensor::layout::lemma_matrix_shape;
use crate::tensor::layout::lemma_vector_shape;
use crate::ops::matmul::matmul;
use crate::ops::matmul::matmul_int4;
use crate::ops::matmul::matmul_refusal;
use crate::ops::matmul::multiplied;
use crate::ops::matmul::quantized;
use crate::runtime::Runtime;
use crate::runtime::State;
use crate::runtime::lemma_extends_holds;
use crate::runtime::lemma_grows_transitive;
use crate::scalar::ONE;
use crate::scalar::ScalarOp;
use crate::tensor::DType;
use crate::tensor::Tensor;
use crate::tensor::TensorView;
use crate::tensor::layout::product;
use crate::tensor::storage::zeroed;
use crate::tensor::tensor_impl::ones_bytes;

verus! {

/// A linear projection `y = x Wᵗ + b`, with the weights `W` stored one row
/// per output feature.
pub struct Linear {
    pub weight: Tensor,
    pub bias: Option<Tensor>,
}

/// `next` is `prev` after the projection of `input` was added to it: a
/// transposed view of the weights, then the product of the input and that
/// view, then, if there is a bias, the sum of the product and the bias.
/// The first rejection ends it, and `r` is the result or that rejection.
pub open spec fn projected(
    prev: State,
    weight: TensorView,
    bias: Option<TensorView>,
    input: TensorView,
    next: State,
    r: Result<TensorView, TensorError>,
) -> bool {
    if weight.shape.len() < 2 {
        next == prev && r == Err::<TensorView, TensorError>(TensorError::Rank)
    } else {
        let weight_t = weight.transposed(prev.len());
        let s1 = prev.with_entry(None);
        match matmul_refusal(input, weight_t) {
            Some(e) => next == s1 && r == Err::<TensorView, TensorError>(e),
            None => exists|s2: State, y: TensorView| #[trigger]
                multiplied(s1, input, weight_t, s2, y) && match bias {
                    None => next == s2 && r == Ok::<TensorView, TensorError>(y),
                    Some(b) => match add_refusal(y, b) {
                        Some(e) => next == s2 && r == Err::<TensorView, TensorError>(e),
                        None => exists|out: TensorView| #[trigger]
                            added(s2, y, b, next, out) && r == Ok::<TensorView, TensorError>(out),
                    },
                },
        }
    }
}

/// The view of a result, or its error.
pub open spec fn result_view(r: Result<Tensor, TensorError>) -> Result<TensorView, TensorError> {
    match r {
        Ok(t) => Ok(t@),
        Err(e) => Err(e),
    }
}

impl Linear {
    /// A projection from `in_features` to `out_features`, with every weight
    /// one and, if asked for, a bias of zeros.
    pub fn new<A: Fn(ScalarOp) -> u32>(
        rt: &mut Runtime<A>,
        in_features: usize,
        out_features: usize,
        bias: bool,
    ) -> (layer: Linear)
        requires
            old(rt)@.wf(),
            out_features * in_features * 4 <= usize::MAX,
            out_features * 4 <= usize::MAX,
        ensures
            layer.weight@ == TensorView::dense(
                old(rt)@.len(),
                seq![out_features, in_features],
                old(rt)@.pool.len(),
                DType::F32,
                false,
            ),
            final(rt)@.values(layer.weight@) == Seq::new(
                (out_features * in_features) as nat,
                |i: int| ONE,
            ),
            layer.bias is Some <==> bias,
            layer.bias matches Some(b) ==> {
                &&& b@ == TensorView::dense(
                    old(rt)@.len() + 1,
                    seq![out_features],
                    old(rt)@.pool.len() + 1,
                    DType::F32,
                    false,
                )
                &&& final(rt)@.holds(b@)
                &&& final(rt)@.values(b@) == Seq::new(out_features as nat, |i: int| 0u32)
            },
            final(rt)@ == if bias {
                old(rt)@.with_buffer(
                    ones_bytes(DType::F32, (out_features * in_features) as nat),
                ).with_entry(None).with_buffer(zeroed((out_features * 4) as nat)).with_entry(None)
            } else {
                old(rt)@.with_buffer(
                    ones_bytes(DType::F32, (out_features * in_features) as nat),
                ).with_entry(None)
            },
            final(rt)@.wf(),
            final(rt)@.holds(layer.weight@),
            final(rt)@.grows_from(old(rt)@),
    {
        let ghost before = rt@;
        proof {
            assert(out_features * in_features <= usize::MAX) by (nonlinear_arith)
                requires
                    out_features * in_features * 4 <= usize::MAX,
                    out_features * in_features >= 0,
            ;
            lemma_matrix_shape(out_features, in_features);
            lemma_vector_shape(out_features);
        }
        let shape: Vec<usize> = vec![out_features, in_features];
        proof {
            assert(shape@ =~= seq![out_features, in_features]);
        }
        let weight = Tensor::ones(rt, shape, DType::F32);
        let ghost mid = rt@;
        let bias: Option<Tensor> = if bias {
            let shape: Vec<usize> = vec![out_features];
            proof {
                assert(shape@ =~= seq![out_features]);
            }
            let b = Tensor::zeros(rt, shape, DType::F32);
            proof {
                lemma_grows_transitive(before, mid, rt@);
                lemma_extends_holds(mid, rt@, weight@);
                crate::runtime::lemma_grows_values(mid, rt@, weight@);
            }
            Some(b)
        } else {
            None
        };
        Linear { weight, bias }
    }

    /// The projection of `input`, a matrix with one row per sample.
    pub fn forward<A: Fn(ScalarOp) -> u32>(&self, rt: &mut Runtime<A>, input: &Tensor) -> (r:
        Result<Tensor, TensorError>)
        requires
            old(rt)@.wf(),
            old(rt)@.holds(self.weight@),
            self.bias matches Some(b) ==> old(rt)@.holds(b@),
            old(rt)@.holds(input@),
        ensures
            projected(
                old(rt)@,
                self.weight@,
                bias_view(self.bias),
                input@,
                final(rt)@,
                result_view(r),
            ),
            r matches Ok(out) ==> final(rt)@.holds(out@),
            final(rt)@.wf(),
            final(rt)@.grows_from(old(rt)@),
    {
        let ghost before = rt@;
        let weight_t = match self.weight.t(rt) {
            Ok(t) => t,
            Err(e) => {
                return Err(e);
            },
        };
        let ghost s1 = rt@;
        proof {
            lemma_extends_holds(before, s1, input@);
        }
        let y = match matmul(rt, input, &weight_t) {
            Ok(t) => t,
            Err(e) => {
                return Err(e);
            },
        };
        let ghost s2 = rt@;
        proof {
            lemma_grows_transitive(before, s1, s2);
        }
        match &self.bias {
            Some(b) => {
                proof {
                    lemma_extends_holds(before, s2, b@);
                }
                let r = crate::ops::binary::add(rt, &y, b);
                proof {
                    lemma_grows_transitive(before, s2, rt@);
                }
                r
            },
            None => Ok(y),
        }
    }
}

/// A linear projection whose weights are 4-bit codes, two to the byte, with
/// one scale per output feature.
pub struct LinearInt4 {
    pub weight_packed: Tensor,
    pub scales: Tensor,
    pub bias: Option<Tensor>,
    pub in_features: usize,
    pub out_features: usize,
}

impl LinearInt4 {
    /// A projection from `in_features` to `out_features` with every packed
    /// byte zero, every scale one and no bias.
    pub fn new<A: Fn(ScalarOp) -> u32>(rt: &mut Runtime<A>, in_features: usize, out_features: usize) -> (layer:
        LinearInt4)
        requires
            old(rt)@.wf(),
            out_features * (in_features / 2) <= usize::MAX,
            out_features * 4 <= usize::MAX,
        ensures
            layer.weight_packed@ == TensorView::dense(
                old(rt)@.len(),
                seq![out_features, (in_features / 2) as usize],
                old(rt)@.pool.len(),
                DType::I8,
                false,
            ),
            layer.scales@ == TensorView::dense(
                old(rt)@.len() + 1,
                seq![out_features],
                old(rt)@.pool.len() + 1,
                DType::F32,
                false,
            ),
            layer.bias is None,
            layer.in_features == in_features,
            layer.out_features == out_features,
            final(rt)@ == old(rt)@.with_buffer(
                zeroed((out_features * (in_features / 2)) as nat),
            ).with_entry(None).with_buffer(ones_bytes(DType::F32, out_features as nat)).with_entry(
                None,
            ),
            final(rt)@.values(layer.scales@) == Seq::new(out_features as nat, |i: int| ONE),
            final(rt)@.wf(),
            final(rt)@.holds(layer.weight_packed@),
            final(rt)@.holds(layer.scales@),
            final(rt)@.grows_from(old(rt)@),
    {
        let ghost before = rt@;
        let half: usize = in_features / 2;
        proof {
            lemma_matrix_shape(out_features, half);
            lemma_vector_shape(out_features);
        }
        let packed_shape: Vec<usize> = vec![out_features, half];
        proof {
            assert(packed_shape@ =~= seq![out_features, half]);
            assert(DType::I8.width() == 1);
            assert(product(packed_shape@) * 1 == product(packed_shape@)) by (nonlinear_arith);
        }
        let weight_packed = Tensor::zeros(rt, packed_shape, DType::I8);
        let ghost mid = rt@;
        let scale_shape: Vec<usize> = vec![out_features];
        proof {
            assert(scale_shape@ =~= seq![out_features]);
        }
        let scales = Tensor::ones(rt, scale_shape, DType::F32);
        proof {
            lemma_grows_transitive(before, mid, rt@);
            lemma_extends_holds(mid, rt@, weight_packed@);
        }
        LinearInt4 { weight_packed, scales, bias: None, in_features, out_features }
    }

    /// The quantized projection of `input`, a matrix with one row per
    /// sample.
    pub fn forward<A: Fn(ScalarOp) -> u32>(&self, rt: &mut Runtime<A>, input: &Tensor) -> (r:
        Result<Tensor, TensorError>)
        requires
            old(rt)@.wf(),
            old(rt)@.holds(self.weight_packed@),
            old(rt)@.holds(self.scales@),
            self.bias matches Some(b) ==> old(rt)@.holds(b@),
            old(rt)@.holds(input@),
        ensures
            match int4_refusal(input@, self.weight_packed@, self.scales@, bias_view(self.bias)) {
                Some(e) => r == Err::<Tensor, TensorError>(e),
                None => r is Ok,
            },
            r is Err ==> final(rt)@ == old(rt)@,
            r matches Ok(out) ==> quantized(
                old(rt)@,
                input@,
                self.weight_packed@,
                self.scales@,
                bias_view(self.bias),
                final(rt)@,
                out@,
            ),
            r matches Ok(out) ==> final(rt)@.holds(out@),
            final(rt)@.wf(),
            final(rt)@.grows_from(old(rt)@),
    {
        matmul_int4(rt, input, &self.weight_packed, &self.scales, &self.bias)
    }
}

} // verus!
