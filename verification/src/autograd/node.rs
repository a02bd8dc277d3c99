//! Nodes of the computation graph.
use vstd::prelude::*;
use crate::error::TensorError;
use crate::ops::binary::AddNode;
use crate::ops::matmul::MatmulNode;
use crate::ops::matmul::matmul_propagated;
use crate::ops::unary::ReluNode;
use crate::ops::unary::relu_propagated;
use crate::runtime::Runtime;
use crate::runtime::State;
use crate::scalar::ScalarOp;
use crate::tensor::Tensor;
use crate::tensor::TensorView;

verus! {

/// What a node is, as plain data: the operation and the tensors it recorded.
pub enum NodeView {
    Add(TensorView, TensorView),
    Matmul(TensorView, TensorView),
    /// The operand, then the cached result.
    Relu(TensorView, TensorView),
}

impl NodeView {
    /// The parents: the tensors that receive a gradient from this node.
    pub open spec fn inputs(self) -> Seq<TensorView> {
        match self {
            NodeView::Add(l, r) => seq![l, r],
            NodeView::Matmul(l, r) => seq![l, r],
            NodeView::Relu(x, _) => seq![x],
        }
    }

    /// Every tensor that the node refers to.
    pub open spec fn operands(self) -> Seq<TensorView> {
        match self {
            NodeView::Add(l, r) => seq![l, r],
            NodeView::Matmul(l, r) => seq![l, r],
            NodeView::Relu(x, y) => seq![x, y],
        }
    }
}

/// The views of a list of tensors.
pub open spec fn views(tensors: Seq<Tensor>) -> Seq<TensorView> {
    Seq::new(tensors.len(), |k: int| tensors[k]@)
}

/// The views of the gradients that a node handed back, or its error.
pub open spec fn outcome(r: Result<Vec<Tensor>, TensorError>) -> Result<Seq<TensorView>, TensorError> {
    match r {
        Ok(gs) => Ok(views(gs@)),
        Err(e) => Err(e),
    }
}

/// `next` is `prev` after `node` turned the gradient `grad` of its result
/// into one gradient per parent, which `r` lists in the order of the
/// parents; or after it was rejected with the error in `r`.
///
/// A sum hands its gradient to both parents unchanged, as two fresh views.
/// A matrix product hands `grad` times its transposed right operand to the
/// left parent and its transposed left operand times `grad` to the right
/// one. A rectification hands on `grad` scaled, element by element, by one
/// where its result is greater than zero and by zero elsewhere.
pub open spec fn propagated(
    prev: State,
    node: NodeView,
    grad: TensorView,
    next: State,
    r: Result<Seq<TensorView>, TensorError>,
) -> bool {
    match node {
        NodeView::Add(_, _) => {
            &&& next == prev.with_entry(None).with_entry(None)
            &&& r == Ok::<Seq<TensorView>, TensorError>(
                seq![grad.renamed(prev.len()), grad.renamed(prev.len() + 1)],
            )
        },
        NodeView::Matmul(lhs, rhs) => matmul_propagated(prev, lhs, rhs, grad, next, r),
        NodeView::Relu(_, cache) => relu_propagated(prev, cache, grad, next, r),
    }
}

/// A differentiable operation's record of its operands, with its rule for
/// turning the gradient of its result into gradients of its operands.
pub trait Node {
    /// The node as plain data.
    spec fn describe(&self) -> NodeView;

    /// The parents of the node, under their own identifiers.
    fn parents(&self) -> (ps: Vec<Tensor>)
        ensures
            views(ps@) == self.describe().inputs(),
    ;

    /// The gradients of the parents, in their order, given the gradient of
    /// the node's result. There is one gradient for each parent.
    fn backward<A: Fn(ScalarOp) -> u32>(&self, rt: &mut Runtime<A>, grad: &Tensor) -> (r: Result<
        Vec<Tensor>,
        TensorError,
    >)
        requires
            old(rt)@.wf(),
            old(rt)@.holds(grad@),
            old(rt)@.admits(self.describe(), old(rt)@.len() as int),
        ensures
            propagated(old(rt)@, self.describe(), grad@, final(rt)@, outcome(r)),
            r matches Ok(gs) ==> gs@.len() == self.describe().inputs().len(),
            r matches Ok(gs) ==> forall|k: int|
                0 <= k < gs@.len() ==> final(rt)@.holds((#[trigger] gs@[k])@),
            final(rt)@.wf(),
            final(rt)@.grows_from(old(rt)@),
    ;
}

/// The node that produced a tensor: one of the differentiable operations.
#[derive(Debug)]
pub enum Op {
    Add(AddNode),
    Matmul(MatmulNode),
    Relu(ReluNode),
}

impl View for Op {
    type V = NodeView;

    open spec fn view(&self) -> NodeView {
        match self {
            Op::Add(n) => n@,
            Op::Matmul(n) => n@,
            Op::Relu(n) => n@,
        }
    }
}

impl Op {
    /// A copy of the record.
    pub(crate) fn duplicate(&self) -> (op: Op)
        ensures
            op@ == self@,
    {
        match self {
            Op::Add(n) => Op::Add(n.duplicate()),
            Op::Matmul(n) => Op::Matmul(n.duplicate()),
            Op::Relu(n) => Op::Relu(n.duplicate()),
        }
    }
}

impl Node for Op {
    open spec fn describe(&self) -> NodeView {
        self@
    }

    fn parents(&self) -> (ps: Vec<Tensor>) {
        match self {
            Op::Add(n) => n.parents(),
            Op::Matmul(n) => n.parents(),
            Op::Relu(n) => n.parents(),
        }
    }

    fn backward<A: Fn(ScalarOp) -> u32>(&self, rt: &mut Runtime<A>, grad: &Tensor) -> (r: Result<
        Vec<Tensor>,
        TensorError,
    >) {
        match self {
            Op::Add(n) => n.backward(rt, grad),
            Op::Matmul(n) => n.backward(rt, grad),
            Op::Relu(n) => n.backward(rt, grad),
        }
    }
}

} // verus!
