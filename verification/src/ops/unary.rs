//! Rectification.
use vstd::prelude::*;
use crate::autograd::node::Node;
use crate::autograd::node::NodeView;
use crate::autograd::node::Op;
use crate::autograd::node::views;
use crate::error::TensorError;
use crate::runtime::Runtime;
use crate::runtime::State;
use crate::runtime::lemma_dense_values;
use crate::runtime::lemma_grows_transitive;
use crate::runtime::lemma_grows_values;
use crate::runtime::same_shape;
use crate::scalar::ONE;
use crate::scalar::ScalarOp;
use crate::scalar::ZERO;
use crate::scalar::is_positive;
use crate::scalar::mask;
use crate::scalar::rectified;
use crate::tensor::DType;
use crate::tensor::Storage;
use crate::tensor::Tensor;
use crate::tensor::TensorView;
use crate::tensor::storage::encode;

verus! {

/// Record of a rectification: the operand, and the result, which decides
/// where the gradient passes.
#[derive(Debug)]
pub struct ReluNode {
    input: Tensor,
    output_cache: Tensor,
}

impl View for ReluNode {
    type V = NodeView;

    closed spec fn view(&self) -> NodeView {
        NodeView::Relu(self.input@, self.output_cache@)
    }
}

impl ReluNode {
    /// A copy of the record.
    pub(crate) fn duplicate(&self) -> (n: ReluNode)
        ensures
            n@ == self@,
    {
        ReluNode { input: self.input.duplicate(), output_cache: self.output_cache.duplicate() }
    }
}

impl Node for ReluNode {
    open spec fn describe(&self) -> NodeView {
        self@
    }

    fn parents(&self) -> (ps: Vec<Tensor>) {
        let ps: Vec<Tensor> = vec![self.input.duplicate()];
        proof {
            assert(views(ps@) =~= self@.inputs());
        }
        ps
    }

    fn backward<A: Fn(ScalarOp) -> u32>(&self, rt: &mut Runtime<A>, grad: &Tensor) -> (r: Result<
        Vec<Tensor>,
        TensorError,
    >) {
        proof {
            assert(self@.operands()[1] == self.output_cache@);
            assert(rt@.holds(self@.operands()[1]));
        }
        match relu_backward(rt, &self.output_cache, grad) {
            Ok(g) => {
                let gs: Vec<Tensor> = vec![g];
                proof {
                    assert(views(gs@) =~= seq![g@]);
                }
                Ok(gs)
            },
            Err(e) => Err(e),
        }
    }
}

/// Why the gradient of a rectification is rejected, if it is: a tensor does
/// not hold 32-bit floating-point elements, or else the shapes differ.
pub open spec fn mask_refusal(cache: TensorView, grad: TensorView) -> Option<TensorError> {
    if grad.dtype != DType::F32 || cache.dtype != DType::F32 {
        Some(TensorError::DType)
    } else if grad.shape != cache.shape {
        Some(TensorError::ShapeMismatch)
    } else {
        None
    }
}

/// `next` is `prev` after the gradient `out` of a rectified operand was
/// added to it: one new buffer that holds, for each index, an answer of
/// the scalar unit to the product of the element of `grad` and the mask of
/// the element of `cache`, and one new dense leaf over it.
pub open spec fn masked(
    prev: State,
    cache: TensorView,
    grad: TensorView,
    next: State,
    out: TensorView,
) -> bool {
    &&& out == TensorView::dense(prev.len(), grad.shape, prev.pool.len(), DType::F32, false)
    &&& next == prev.with_buffer(encode(next.values(out))).with_entry(None)
    &&& next.values(out).len() == grad.numel()
    &&& forall|i: int|
        0 <= i < grad.numel() ==> prev.yields(
            ScalarOp::Mul(prev.values(grad)[i], mask(prev.values(cache)[i])),
            #[trigger] next.values(out)[i],
        )
}

/// What a rectification does with the gradient of its result.
pub open spec fn relu_propagated(
    prev: State,
    cache: TensorView,
    grad: TensorView,
    next: State,
    r: Result<Seq<TensorView>, TensorError>,
) -> bool {
    match mask_refusal(cache, grad) {
        Some(e) => next == prev && r == Err::<Seq<TensorView>, TensorError>(e),
        None => exists|out: TensorView| #[trigger]
            masked(prev, cache, grad, next, out) && r == Ok::<Seq<TensorView>, TensorError>(
                seq![out],
            ),
    }
}

/// The gradient of a rectified operand: `grad` where the rectified value in
/// `cache` is greater than zero, and `grad` times zero elsewhere.
pub fn relu_backward<A: Fn(ScalarOp) -> u32>(rt: &mut Runtime<A>, cache: &Tensor, grad: &Tensor) -> (r:
    Result<Tensor, TensorError>)
    requires
        old(rt)@.wf(),
        old(rt)@.holds(cache@),
        old(rt)@.holds(grad@),
    ensures
        match mask_refusal(cache@, grad@) {
            Some(e) => r == Err::<Tensor, TensorError>(e),
            None => r is Ok,
        },
        r is Err ==> final(rt)@ == old(rt)@,
        r matches Ok(out) ==> masked(old(rt)@, cache@, grad@, final(rt)@, out@),
        r matches Ok(out) ==> final(rt)@.holds(out@),
        final(rt)@.wf(),
        final(rt)@.grows_from(old(rt)@),
{
    if grad.dtype() != DType::F32 || cache.dtype() != DType::F32 {
        return Err(TensorError::DType);
    }
    if !same_shape(grad.shape(), cache.shape()) {
        return Err(TensorError::ShapeMismatch);
    }
    let n: usize = grad.numel();
    let mut words: Vec<u32> = Vec::with_capacity(n);
    let mut i: usize = 0;
    while i < n
        invariant
            i <= n,
            n == grad@.numel(),
            n == cache@.numel(),
            rt@ == old(rt)@,
            rt@.wf(),
            rt@.holds(grad@),
            rt@.holds(cache@),
            grad@.dtype == DType::F32,
            cache@.dtype == DType::F32,
            words.len() == i,
            forall|k: int|
                0 <= k < i ==> rt@.yields(
                    ScalarOp::Mul(rt@.values(grad@)[k], mask(rt@.values(cache@)[k])),
                    #[trigger] words[k],
                ),
        decreases n - i,
    {
        let g: u32 = rt.word_of(grad, n, i);
        let y: u32 = rt.word_of(cache, n, i);
        let factor: u32 = if is_positive(y) {
            ONE
        } else {
            ZERO
        };
        let w: u32 = rt.compute(ScalarOp::Mul(g, factor));
        words.push(w);
        i = i + 1;
    }
    let storage = Storage::from_words(&words);
    let out = Tensor::install(rt, storage, grad.shape_copy(), DType::F32, false, None);
    proof {
        lemma_dense_values(rt@, out@, words@);
    }
    Ok(out)
}

/// Every element rectified.
pub open spec fn rectified_all(values: Seq<u32>) -> Seq<u32> {
    Seq::new(values.len(), |i: int| rectified(values[i]))
}

/// `next` is `prev` after the rectification `out` of `input` was added to
/// it: one new buffer with every element of `input` rectified and one new
/// dense tensor over it. If `input` tracks gradients, that tensor is kept
/// as the node's record of the result, and `out` is a second view of the
/// buffer, which tracks gradients and records the node.
pub open spec fn rectify(
    prev: State,
    input: TensorView,
    next: State,
    out: TensorView,
) -> bool {
    let cache = TensorView::dense(prev.len(), input.shape, prev.pool.len(), DType::F32, false);
    let stored = prev.with_buffer(encode(rectified_all(prev.values(input)))).with_entry(None);
    &&& next.values(out) == rectified_all(prev.values(input))
    &&& if input.requires_grad {
        &&& out == (TensorView { requires_grad: true, ..cache.renamed(prev.len() + 1) })
        &&& next == stored.with_entry(Some(NodeView::Relu(input, cache)))
    } else {
        &&& out == cache
        &&& next == stored
    }
}

/// The elementwise maximum of a tensor and zero, as a new dense tensor.
/// Rejected, with nothing changed, unless the tensor holds 32-bit
/// floating-point elements.
pub fn relu<A: Fn(ScalarOp) -> u32>(rt: &mut Runtime<A>, input: &Tensor) -> (r: Result<
    Tensor,
    TensorError,
>)
    requires
        old(rt)@.wf(),
        old(rt)@.holds(input@),
    ensures
        r is Ok <==> input@.dtype == DType::F32,
        r matches Err(e) ==> e == TensorError::DType && final(rt)@ == old(rt)@,
        r matches Ok(out) ==> rectify(old(rt)@, input@, final(rt)@, out@),
        r matches Ok(out) ==> final(rt)@.holds(out@),
        final(rt)@.wf(),
        final(rt)@.grows_from(old(rt)@),
{
    if input.dtype() != DType::F32 {
        return Err(TensorError::DType);
    }
    let ghost before = rt@;
    let n: usize = input.numel();
    let mut words: Vec<u32> = Vec::with_capacity(n);
    let mut i: usize = 0;
    while i < n
        invariant
            i <= n,
            n == input@.numel(),
            rt@ == before,
            before.holds(input@),
            input@.dtype == DType::F32,
            words@ == rectified_all(before.values(input@)).take(i as int),
        decreases n - i,
    {
        let x: u32 = rt.word_of(input, n, i);
        let y: u32 = if is_positive(x) {
            x
        } else {
            ZERO
        };
        words.push(y);
        proof {
            assert(words@ =~= rectified_all(before.values(input@)).take(i + 1));
        }
        i = i + 1;
    }
    proof {
        assert(words@ =~= rectified_all(before.values(input@)));
    }
    let storage = Storage::from_words(&words);
    let output = Tensor::install(rt, storage, input.shape_copy(), DType::F32, false, None);
    proof {
        lemma_dense_values(rt@, output@, words@);
    }
    if input.requires_grad() {
        let ghost stored = rt@;
        let ghost cache = output@;
        let node = Op::Relu(ReluNode { input: input.duplicate(), output_cache: output.duplicate() });
        proof {
            crate::runtime::lemma_extends_holds(before, stored, input@);
            assert(stored.admits(node@, stored.len() as int)) by {
                assert(node@.operands() =~= seq![input@, cache]);
            }
            crate::runtime::lemma_with_entry(stored, Some(node@));
            lemma_grows_transitive(before, stored, stored.with_entry(Some(node@)));
        }
        let id = rt.push_entry(Some(node));
        let out = output.relabel(id, true);
        proof {
            lemma_grows_values(stored, rt@, cache);
            assert(rt@.values(out@) =~= rt@.values(cache));
        }
        return Ok(out);
    }
    Ok(output)
}

} // verus!
