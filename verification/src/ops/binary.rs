//! Elementwise addition.
use vstd::prelude::*;
use crate::autograd::node::Node;
use crate::autograd::node::NodeView;
use crate::autograd::node::Op;
use crate::autograd::node::views;
use crate::error::TensorError;
use crate::runtime::Runtime;
use crate::runtime::State;
use crate::runtime::lemma_dense_values;
use crate::runtime::lemma_extends_holds;
use crate::runtime::lemma_grows_transitive;
use crate::runtime::lemma_grows_values;
use crate::runtime::same_shape;
use crate::scalar::ScalarOp;
use crate::tensor::DType;
use crate::tensor::Storage;
use crate::tensor::Tensor;
use crate::tensor::TensorView;
use crate::tensor::storage::encode;

verus! {

/// Record of an addition: the two operands.
#[derive(Debug)]
pub struct AddNode {
    lhs: Tensor,
    rhs: Tensor,
}

impl View for AddNode {
    type V = NodeView;

    closed spec fn view(&self) -> NodeView {
        NodeView::Add(self.lhs@, self.rhs@)
    }
}

impl AddNode {
    /// A copy of the record.
    pub(crate) fn duplicate(&self) -> (n: AddNode)
        ensures
            n@ == self@,
    {
        AddNode { lhs: self.lhs.duplicate(), rhs: self.rhs.duplicate() }
    }
}

impl Node for AddNode {
    open spec fn describe(&self) -> NodeView {
        self@
    }

    fn parents(&self) -> (ps: Vec<Tensor>) {
        let ps: Vec<Tensor> = vec![self.lhs.duplicate(), self.rhs.duplicate()];
        proof {
            assert(views(ps@) =~= self@.inputs());
        }
        ps
    }

    fn backward<A: Fn(ScalarOp) -> u32>(&self, rt: &mut Runtime<A>, grad: &Tensor) -> (r: Result<
        Vec<Tensor>,
        TensorError,
    >) {
        let ghost before = rt@;
        let first = grad.clone(rt);
        proof {
            lemma_grows_values(before, rt@, grad@);
        }
        let ghost between = rt@;
        let second = grad.clone(rt);
        proof {
            lemma_extends_holds(between, rt@, first@);
            lemma_grows_transitive(before, between, rt@);
        }
        let gs: Vec<Tensor> = vec![first, second];
        proof {
            assert(views(gs@) =~= seq![grad@.renamed(before.len()), grad@.renamed(before.len() + 1)]);
        }
        Ok(gs)
    }
}

/// Why a sum of the two operands is rejected, if it is: the shapes differ,
/// or else an operand does not hold 32-bit floating-point elements.
pub open spec fn add_refusal(lhs: TensorView, rhs: TensorView) -> Option<TensorError> {
    if lhs.shape != rhs.shape {
        Some(TensorError::ShapeMismatch)
    } else if lhs.dtype != DType::F32 || rhs.dtype != DType::F32 {
        Some(TensorError::DType)
    } else {
        None
    }
}

/// The node recorded for a result: `node` if the result tracks gradients,
/// none if it does not.
pub open spec fn recorded(tracking: bool, node: NodeView) -> Option<NodeView> {
    if tracking {
        Some(node)
    } else {
        None
    }
}

/// `next` is `prev` after the sum `out` of `lhs` and `rhs` was added to it:
/// one new buffer that holds, for each index, an answer of the scalar unit
/// to the sum of the two elements, and one new dense tensor over it, which
/// tracks gradients and records its operands if either operand tracks them.
pub open spec fn added(
    prev: State,
    lhs: TensorView,
    rhs: TensorView,
    next: State,
    out: TensorView,
) -> bool {
    let tracking = lhs.requires_grad || rhs.requires_grad;
    &&& out == TensorView::dense(prev.len(), lhs.shape, prev.pool.len(), DType::F32, tracking)
    &&& next == prev.with_buffer(encode(next.values(out))).with_entry(
        recorded(tracking, NodeView::Add(lhs, rhs)),
    )
    &&& next.values(out).len() == lhs.numel()
    &&& forall|i: int|
        0 <= i < lhs.numel() ==> prev.yields(
            ScalarOp::Add(prev.values(lhs)[i], prev.values(rhs)[i]),
            #[trigger] next.values(out)[i],
        )
}

/// The elementwise sum of two tensors of one shape, as a new dense tensor.
/// Rejected, with nothing changed, as `add_refusal` says.
pub fn add<A: Fn(ScalarOp) -> u32>(rt: &mut Runtime<A>, lhs: &Tensor, rhs: &Tensor) -> (r: Result<
    Tensor,
    TensorError,
>)
    requires
        old(rt)@.wf(),
        old(rt)@.holds(lhs@),
        old(rt)@.holds(rhs@),
    ensures
        match add_refusal(lhs@, rhs@) {
            Some(e) => r == Err::<Tensor, TensorError>(e),
            None => r is Ok,
        },
        r is Err ==> final(rt)@ == old(rt)@,
        r matches Ok(out) ==> added(old(rt)@, lhs@, rhs@, final(rt)@, out@),
        r matches Ok(out) ==> final(rt)@.holds(out@),
        final(rt)@.wf(),
        final(rt)@.grows_from(old(rt)@),
{
    if !same_shape(lhs.shape(), rhs.shape()) {
        return Err(TensorError::ShapeMismatch);
    }
    if lhs.dtype() != DType::F32 || rhs.dtype() != DType::F32 {
        return Err(TensorError::DType);
    }
    let n: usize = lhs.numel();
    let mut words: Vec<u32> = Vec::with_capacity(n);
    let mut i: usize = 0;
    while i < n
        invariant
            i <= n,
            n == lhs@.numel(),
            n == rhs@.numel(),
            rt@ == old(rt)@,
            rt@.wf(),
            rt@.holds(lhs@),
            rt@.holds(rhs@),
            lhs@.dtype == DType::F32,
            rhs@.dtype == DType::F32,
            words.len() == i,
            forall|k: int|
                0 <= k < i ==> rt@.yields(
                    ScalarOp::Add(rt@.values(lhs@)[k], rt@.values(rhs@)[k]),
                    #[trigger] words[k],
                ),
        decreases n - i,
    {
        let a: u32 = rt.word_of(lhs, n, i);
        let b: u32 = rt.word_of(rhs, n, i);
        let s: u32 = rt.compute(ScalarOp::Add(a, b));
        words.push(s);
        i = i + 1;
    }
    let tracking: bool = lhs.requires_grad() || rhs.requires_grad();
    let node: Option<Op> = if tracking {
        Some(Op::Add(AddNode { lhs: lhs.duplicate(), rhs: rhs.duplicate() }))
    } else {
        None
    };
    let storage = Storage::from_words(&words);
    let out = Tensor::install(rt, storage, lhs.shape_copy(), DType::F32, tracking, node);
    proof {
        lemma_dense_values(rt@, out@, words@);
    }
    Ok(out)
}

} // verus!
