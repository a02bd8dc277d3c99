//! Reverse accumulation of gradients over the computation graph.
use vstd::prelude::*;
use crate::autograd::node::Node;
use crate::autograd::node::NodeView;
use crate::autograd::node::Op;
use crate::autograd::node::propagated;
use crate::autograd::node::views;
use crate::error::TensorError;
use crate::runtime::Runtime;
use crate::runtime::State;
use crate::runtime::lemma_extends_holds;
use crate::runtime::lemma_extends_transitive;
use crate::scalar::ScalarOp;
use crate::tensor::Tensor;
use crate::tensor::TensorView;

verus! {

/// The identifiers of the parents of a tensor, given its node.
pub open spec fn parent_ids(node: Option<NodeView>) -> Seq<int> {
    match node {
        Some(n) => Seq::new(n.inputs().len(), |k: int| n.inputs()[k].id as int),
        None => Seq::empty(),
    }
}

/// The order `seen` extended by a depth-first visit of `id`: nothing if
/// `id` is in it already; otherwise the visits of its parents, in their
/// order, and then `id` itself.
pub open spec fn visit(nodes: Seq<Option<NodeView>>, id: int, seen: Seq<int>) -> Seq<int>
    decreases id + 1, 0int,
{
    if id < 0 || id >= nodes.len() || seen.contains(id) {
        seen
    } else {
        let ps = parent_ids(nodes[id]);
        visit_parents(nodes, id, ps, ps.len() as int, seen).push(id)
    }
}

/// The order `seen` extended by the visits of the first `k` of the parents
/// `ps` of the tensor `child`. Only parents older than the child count.
pub open spec fn visit_parents(
    nodes: Seq<Option<NodeView>>,
    child: int,
    ps: Seq<int>,
    k: int,
    seen: Seq<int>,
) -> Seq<int>
    decreases child, k + 1,
{
    if k <= 0 || k > ps.len() || child < 0 {
        seen
    } else {
        let before = visit_parents(nodes, child, ps, k - 1, seen);
        if 0 <= ps[k - 1] < child {
            visit(nodes, ps[k - 1], before)
        } else {
            before
        }
    }
}

/// The order in which a backward pass from `root` finalizes the tensors:
/// depth first, every tensor once, after all of its parents.
pub open spec fn post_order(nodes: Seq<Option<NodeView>>, root: int) -> Seq<int> {
    visit(nodes, root, Seq::empty())
}

/// The identifiers of an order as integers.
pub open spec fn ints(order: Seq<usize>) -> Seq<int> {
    Seq::new(order.len(), |k: int| order[k] as int)
}

/// `visited` marks exactly the identifiers in `seen`.
pub open spec fn marks(visited: Seq<bool>, seen: Seq<int>) -> bool {
    forall|i: int| 0 <= i < visited.len() ==> (#[trigger] visited[i] <==> seen.contains(i))
}

/// What handing the gradient `grad` to `parent` does: it is accumulated
/// into the parent's slot if the parent tracks gradients, and dropped if
/// not.
pub open spec fn handed(
    prev: State,
    parent: TensorView,
    grad: TensorView,
    next: State,
    r: Result<(), TensorError>,
) -> bool {
    if parent.requires_grad {
        prev.accumulated(parent.id as int, grad, next, r)
    } else {
        next == prev && r is Ok
    }
}

/// Each state of `trace` but the last turns into the one after it by the
/// handing, without a rejection, of the next gradient to the next parent.
pub open spec fn is_delivery(
    parents: Seq<TensorView>,
    grads: Seq<TensorView>,
    trace: Seq<State>,
) -> bool {
    forall|j: int| 0 <= j < trace.len() - 1 ==> #[trigger] delivery_link(parents, grads, trace, j)
}

/// State `j` of `trace` turns into the next one by the handing, without a
/// rejection, of gradient `j` to parent `j`.
pub open spec fn delivery_link(
    parents: Seq<TensorView>,
    grads: Seq<TensorView>,
    trace: Seq<State>,
    j: int,
) -> bool {
    handed(trace[j], parents[j], grads[j], trace[j + 1], Ok(()))
}

/// `next` is `prev` after the first `k` gradients were handed, without a
/// rejection, to the first `k` parents, in order.
pub open spec fn delivered_ok(
    prev: State,
    parents: Seq<TensorView>,
    grads: Seq<TensorView>,
    k: int,
    next: State,
) -> bool {
    exists|trace: Seq<State>|
        {
            &&& #[trigger] is_delivery(parents, grads, trace)
            &&& trace.len() == k + 1
            &&& trace[0] == prev
            &&& trace[k] == next
        }
}

/// `next` is `prev` after the gradients were handed to the parents, in
/// order, up to and including the first rejection, if there is one; `r` is
/// that rejection.
pub open spec fn delivered(
    prev: State,
    parents: Seq<TensorView>,
    grads: Seq<TensorView>,
    next: State,
    r: Result<(), TensorError>,
) -> bool {
    if r is Ok {
        delivered_ok(prev, parents, grads, parents.len() as int, next)
    } else {
        exists|k: int, mid: State|
            0 <= k < parents.len() && #[trigger] delivered_ok(prev, parents, grads, k, mid)
                && handed(mid, parents[k], grads[k], next, r)
    }
}

/// What the backward pass does at the tensor `id`: nothing, unless the
/// tensor has both a gradient and a node; then the node turns the gradient
/// into gradients of the parents, which are handed to them.
pub open spec fn stepped(
    prev: State,
    id: int,
    next: State,
    r: Result<(), TensorError>,
) -> bool {
    match (prev.slots[id], prev.nodes[id]) {
        (Some(grad), Some(node)) => exists|
            mid: State,
            gs: Result<Seq<TensorView>, TensorError>,
        | #[trigger]
            propagated(prev, node, grad, mid, gs) && match gs {
                Ok(grads) => delivered(mid, node.inputs(), grads, next, r),
                Err(e) => next == mid && r == Err::<(), TensorError>(e),
            },
        _ => next == prev && r is Ok,
    }
}

/// Each state of `trace` but the last turns into the one after it by a
/// step, without a rejection, at the next tensor of `order`, last first.
pub open spec fn is_sweep(order: Seq<int>, trace: Seq<State>) -> bool {
    forall|j: int| 0 <= j < trace.len() - 1 ==> #[trigger] sweep_link(order, trace, j)
}

/// State `j` of `trace` turns into the next one by a step, without a
/// rejection, at the tensor `j` places from the end of `order`.
pub open spec fn sweep_link(
    order: Seq<int>,
    trace: Seq<State>,
    j: int,
) -> bool {
    stepped(trace[j], order[order.len() - 1 - j], trace[j + 1], Ok(()))
}

/// `next` is `prev` after the last `done` tensors of `order` were stepped
/// through, last first, without a rejection.
pub open spec fn swept_ok(
    prev: State,
    order: Seq<int>,
    done: int,
    next: State,
) -> bool {
    exists|trace: Seq<State>|
        {
            &&& #[trigger] is_sweep(order, trace)
            &&& trace.len() == done + 1
            &&& trace[0] == prev
            &&& trace[done] == next
        }
}

/// `next` is `prev` after the tensors of `order` were stepped through, last
/// first, up to and including the first rejection, if there is one; `r` is
/// that rejection.
pub open spec fn swept(
    prev: State,
    order: Seq<int>,
    next: State,
    r: Result<(), TensorError>,
) -> bool {
    if r is Ok {
        swept_ok(prev, order, order.len() as int, next)
    } else {
        exists|done: int, mid: State|
            0 <= done < order.len() && #[trigger] swept_ok(prev, order, done, mid) && stepped(
                mid,
                order[order.len() - 1 - done],
                next,
                r,
            )
    }
}

proof fn lemma_delivery_grows(
    parents: Seq<TensorView>,
    grads: Seq<TensorView>,
    trace: Seq<State>,
    next: State,
)
    requires
        trace.len() >= 1,
        is_delivery(parents, grads, trace),
        handed(
            trace[trace.len() - 1],
            parents[trace.len() - 1],
            grads[trace.len() - 1],
            next,
            Ok(()),
        ),
    ensures
        is_delivery(parents, grads, trace.push(next)),
{
    let longer = trace.push(next);
    assert forall|j: int| 0 <= j < longer.len() - 1 implies #[trigger] delivery_link(
        parents,
        grads,
        longer,
        j,
    ) by {
        if j < trace.len() - 1 {
            assert(delivery_link(parents, grads, trace, j));
        }
    }
}

proof fn lemma_delivery_fails(
    prev: State,
    parents: Seq<TensorView>,
    grads: Seq<TensorView>,
    trace: Seq<State>,
    next: State,
    r: Result<(), TensorError>,
)
    requires
        1 <= trace.len() <= parents.len(),
        trace[0] == prev,
        is_delivery(parents, grads, trace),
        r is Err,
        handed(trace[trace.len() - 1], parents[trace.len() - 1], grads[trace.len() - 1], next, r),
    ensures
        delivered(prev, parents, grads, next, r),
{
    let k = trace.len() - 1;
    let mid = trace[k];
    assert(delivered_ok(prev, parents, grads, k, mid));
}

proof fn lemma_sweep_grows(
    order: Seq<int>,
    trace: Seq<State>,
    next: State,
)
    requires
        trace.len() >= 1,
        is_sweep(order, trace),
        stepped(trace[trace.len() - 1], order[order.len() - trace.len()], next, Ok(())),
    ensures
        is_sweep(order, trace.push(next)),
{
    let longer = trace.push(next);
    assert forall|j: int| 0 <= j < longer.len() - 1 implies #[trigger] sweep_link(
        order,
        longer,
        j,
    ) by {
        if j < trace.len() - 1 {
            assert(sweep_link(order, trace, j));
        }
    }
}

proof fn lemma_sweep_fails(
    prev: State,
    order: Seq<int>,
    trace: Seq<State>,
    next: State,
    r: Result<(), TensorError>,
)
    requires
        1 <= trace.len() <= order.len(),
        trace[0] == prev,
        is_sweep(order, trace),
        r is Err,
        stepped(trace[trace.len() - 1], order[order.len() - trace.len()], next, r),
    ensures
        swept(prev, order, next, r),
{
    let done = trace.len() - 1;
    let mid = trace[done];
    assert(swept_ok(prev, order, done, mid));
}

/// Hands `grads` to `parents`, in order, until one is rejected.
fn deliver<A: Fn(ScalarOp) -> u32>(rt: &mut Runtime<A>, parents: &Vec<Tensor>, grads: &Vec<Tensor>) -> (r:
    Result<(), TensorError>)
    requires
        old(rt)@.wf(),
        parents.len() == grads.len(),
        forall|k: int| 0 <= k < parents.len() ==> (#[trigger] parents[k])@.id < old(rt)@.len(),
        forall|k: int| 0 <= k < grads.len() ==> old(rt)@.holds((#[trigger] grads[k])@),
    ensures
        delivered(old(rt)@, views(parents@), views(grads@), final(rt)@, r),
        final(rt)@.wf(),
        final(rt)@.extends(old(rt)@),
{
    let ghost before = rt@;
    let ghost ps = views(parents@);
    let ghost gs = views(grads@);
    let ghost mut trace: Seq<State> = seq![before];
    let mut k: usize = 0;
    while k < parents.len()
        invariant
            k <= parents.len(),
            before == old(rt)@,
            is_delivery(ps, gs, trace),
            trace.len() == k + 1,
            trace[0] == before,
            trace[k as int] == rt@,
            parents.len() == grads.len(),
            ps == views(parents@),
            gs == views(grads@),
            before.wf(),
            rt@.wf(),
            rt@.extends(before),
            forall|j: int| 0 <= j < parents.len() ==> (#[trigger] parents[j])@.id < before.len(),
            forall|j: int| 0 <= j < grads.len() ==> before.holds((#[trigger] grads[j])@),
        decreases parents.len() - k,
    {
        let ghost mid = rt@;
        if parents[k].requires_grad() {
            proof {
                lemma_extends_holds(before, mid, grads[k as int]@);
            }
            match parents[k].add_grad(rt, grads[k].duplicate()) {
                Ok(()) => {},
                Err(e) => {
                    proof {
                        lemma_extends_transitive(before, mid, rt@);
                        lemma_delivery_fails(before, ps, gs, trace, rt@, Err(e));
                    }
                    return Err(e);
                },
            }
        }
        proof {
            lemma_extends_transitive(before, mid, rt@);
            assert(handed(mid, ps[k as int], gs[k as int], rt@, Ok(())));
            lemma_delivery_grows(ps, gs, trace, rt@);
            trace = trace.push(rt@);
        }
        k = k + 1;
    }
    Ok(())
}

/// One step of the backward pass, at the tensor `id`.
pub fn backward_step<A: Fn(ScalarOp) -> u32>(rt: &mut Runtime<A>, id: usize) -> (r: Result<
    (),
    TensorError,
>)
    requires
        old(rt)@.wf(),
        id < old(rt)@.len(),
    ensures
        stepped(old(rt)@, id as int, final(rt)@, r),
        final(rt)@.wf(),
        final(rt)@.extends(old(rt)@),
{
    let ghost before = rt@;
    let grad: Tensor = match rt.slot(id) {
        Some(g) => g.duplicate(),
        None => {
            return Ok(());
        },
    };
    let op: Op = match rt.node(id) {
        Some(op) => op.duplicate(),
        None => {
            return Ok(());
        },
    };
    proof {
        assert(before.slots[id as int] == Some(grad@));
        assert(before.nodes[id as int] == Some(op@));
        assert(before.admits(op@, id as int));
        assert forall|k: int| 0 <= k < op@.operands().len() implies before.holds(
            #[trigger] op@.operands()[k],
        ) && op@.operands()[k].id < before.len() by {}
    }
    let grads: Vec<Tensor> = match op.backward(rt, &grad) {
        Ok(gs) => gs,
        Err(e) => {
            return Err(e);
        },
    };
    let ghost mid = rt@;
    let parents: Vec<Tensor> = op.parents();
    proof {
        assert forall|k: int| 0 <= k < parents.len() implies (#[trigger] parents[k])@.id
            < mid.len() by {
            assert(views(parents@)[k] == op@.inputs()[k]);
            lemma_inputs_are_operands(op@, k);
            assert(before.holds(op@.operands()[k]));
        }
    }
    let r = deliver(rt, &parents, &grads);
    proof {
        lemma_extends_transitive(before, mid, rt@);
        assert(propagated(before, op@, grad@, mid, Ok(views(grads@))));
    }
    r
}

/// Each parent of a node is one of its operands, at the same index.
pub proof fn lemma_inputs_are_operands(node: NodeView, k: int)
    requires
        0 <= k < node.inputs().len(),
    ensures
        k < node.operands().len(),
        node.inputs()[k] == node.operands()[k],
{
}

/// Extends `order` by the depth-first visit of the tensor `id`.
fn dfs<A: Fn(ScalarOp) -> u32>(
    rt: &Runtime<A>,
    id: usize,
    visited: &mut Vec<bool>,
    order: &mut Vec<usize>,
)
    requires
        rt@.wf(),
        id < rt@.len(),
        old(visited).len() == rt@.len(),
        marks(old(visited)@, ints(old(order)@)),
    ensures
        ints(final(order)@) == visit(rt@.nodes, id as int, ints(old(order)@)),
        final(visited).len() == rt@.len(),
        marks(final(visited)@, ints(final(order)@)),
    decreases id,
{
    let ghost seen = ints(order@);
    let ghost nodes = rt@.nodes;
    if visited[id] {
        return ;
    }
    let ghost pids = parent_ids(nodes[id as int]);
    match rt.node(id) {
        Some(op) => {
            let parents: Vec<Tensor> = op.parents();
            proof {
                assert(nodes[id as int] == Some(op@));
                assert(pids.len() == parents.len());
            }
            let mut k: usize = 0;
            while k < parents.len()
                invariant
                    k <= parents.len(),
                    rt@.wf(),
                    nodes == rt@.nodes,
                    id < rt@.len(),
                    nodes[id as int] == Some(op@),
                    views(parents@) == op@.inputs(),
                    pids == parent_ids(nodes[id as int]),
                    pids.len() == parents.len(),
                    visited.len() == rt@.len(),
                    marks(visited@, ints(order@)),
                    ints(order@) == visit_parents(nodes, id as int, pids, k as int, seen),
                decreases parents.len() - k,
            {
                let p: usize = parents[k].id();
                proof {
                    assert(views(parents@)[k as int] == op@.inputs()[k as int]);
                    lemma_inputs_are_operands(op@, k as int);
                    assert(rt@.admits(op@, id as int));
                    assert(rt@.holds(op@.operands()[k as int]) && op@.operands()[k as int].id < id);
                    assert(pids[k as int] == p);
                }
                dfs(rt, p, visited, order);
                k = k + 1;
            }
        },
        None => {
            proof {
                assert(pids.len() == 0);
            }
        },
    }
    let ghost before = ints(order@);
    visited[id] = true;
    order.push(id);
    proof {
        assert(ints(order@) =~= before.push(id as int));
        assert forall|i: int| 0 <= i < visited.len() implies (#[trigger] visited[i] <==> ints(
            order@,
        ).contains(i)) by {
            if i == id {
                assert(ints(order@)[before.len() as int] == id);
            } else {
                if before.contains(i) {
                    let q = choose|q: int| 0 <= q < before.len() && before[q] == i;
                    assert(ints(order@)[q] == i);
                }
                if ints(order@).contains(i) {
                    let q = choose|q: int| 0 <= q < ints(order@).len() && ints(order@)[q] == i;
                    assert(before[q] == i);
                }
            }
        }
    }
}

/// The order in which a backward pass from `root` finalizes the tensors:
/// depth first along the parents, every tensor once, after its parents.
pub fn topological_order<A: Fn(ScalarOp) -> u32>(rt: &Runtime<A>, root: &Tensor) -> (order: Vec<
    usize,
>)
    requires
        rt@.wf(),
        root@.id < rt@.len(),
    ensures
        ints(order@) == post_order(rt@.nodes, root@.id as int),
        topological(rt@.nodes, ints(order@)),
        order@.len() > 0,
        order@.last() == root@.id,
{
    proof {
        lemma_post_order_topological(rt@, root@.id as int);
    }
    let mut visited: Vec<bool> = vec![false; rt.len()];
    let mut order: Vec<usize> = Vec::new();
    proof {
        assert(ints(order@) =~= Seq::<int>::empty());
    }
    dfs(rt, root.id(), &mut visited, &mut order);
    order
}

/// Runs the backward pass from `root`: steps through the tensors of the
/// post-order of `root`, last first, and so hands to every tensor that
/// tracks gradients the gradients of its children. The order holds every
/// tensor that `root` depends on once, after its parents, so every tensor
/// is stepped through once and before any of its parents. The gradient of
/// `root` is not seeded: a tensor without a gradient is passed over. The
/// pass ends at the first rejection.
pub fn backward<A: Fn(ScalarOp) -> u32>(rt: &mut Runtime<A>, root: &Tensor) -> (r: Result<
    (),
    TensorError,
>)
    requires
        old(rt)@.wf(),
        root@.id < old(rt)@.len(),
    ensures
        swept(old(rt)@, post_order(old(rt)@.nodes, root@.id as int), final(rt)@, r),
        topological(old(rt)@.nodes, post_order(old(rt)@.nodes, root@.id as int)),
        final(rt)@.wf(),
        final(rt)@.extends(old(rt)@),
{
    let ghost before = rt@;
    let order: Vec<usize> = topological_order(rt, root);
    let ghost ids = ints(order@);
    proof {
        lemma_visit_in_range(before.nodes, root@.id as int, Seq::empty());
    }
    let n: usize = order.len();
    let ghost mut trace: Seq<State> = seq![before];
    let mut done: usize = 0;
    while done < n
        invariant
            done <= n,
            before == old(rt)@,
            ids == post_order(before.nodes, root@.id as int),
            topological(before.nodes, ids),
            is_sweep(ids, trace),
            trace.len() == done + 1,
            trace[0] == before,
            trace[done as int] == rt@,
            n == order.len(),
            ids == ints(order@),
            forall|q: int| 0 <= q < ids.len() ==> 0 <= #[trigger] ids[q] < before.len(),
            before.wf(),
            rt@.wf(),
            rt@.extends(before),
        decreases n - done,
    {
        let ghost mid = rt@;
        let id: usize = order[n - 1 - done];
        proof {
            assert(ids[n - 1 - done] == id);
        }
        match backward_step(rt, id) {
            Ok(()) => {},
            Err(e) => {
                proof {
                    lemma_extends_transitive(before, mid, rt@);
                    lemma_sweep_fails(before, ids, trace, rt@, Err(e));
                }
                return Err(e);
            },
        }
        proof {
            lemma_extends_transitive(before, mid, rt@);
            lemma_sweep_grows(ids, trace, rt@);
            trace = trace.push(rt@);
        }
        done = done + 1;
    }
    Ok(())
}

/// A visit adds only identifiers of the graph.
pub proof fn lemma_visit_in_range(nodes: Seq<Option<NodeView>>, id: int, seen: Seq<int>)
    requires
        forall|q: int| 0 <= q < seen.len() ==> 0 <= #[trigger] seen[q] < nodes.len(),
    ensures
        forall|q: int|
            0 <= q < visit(nodes, id, seen).len() ==> 0 <= #[trigger] visit(nodes, id, seen)[q]
                < nodes.len(),
    decreases id + 1, 0int,
{
    if id < 0 || id >= nodes.len() || seen.contains(id) {
    } else {
        let ps = parent_ids(nodes[id]);
        lemma_visit_parents_in_range(nodes, id, ps, ps.len() as int, seen);
        let inner = visit_parents(nodes, id, ps, ps.len() as int, seen);
        assert(visit(nodes, id, seen) == inner.push(id));
        assert forall|q: int| 0 <= q < inner.push(id).len() implies 0 <= #[trigger] inner.push(
            id,
        )[q] < nodes.len() by {
            if q < inner.len() {
                assert(inner.push(id)[q] == inner[q]);
            }
        }
    }
}

pub proof fn lemma_visit_parents_in_range(
    nodes: Seq<Option<NodeView>>,
    child: int,
    ps: Seq<int>,
    k: int,
    seen: Seq<int>,
)
    requires
        forall|q: int| 0 <= q < seen.len() ==> 0 <= #[trigger] seen[q] < nodes.len(),
    ensures
        forall|q: int|
            0 <= q < visit_parents(nodes, child, ps, k, seen).len() ==> 0 <= #[trigger] visit_parents(
                nodes,
                child,
                ps,
                k,
                seen,
            )[q] < nodes.len(),
    decreases child, k + 1,
{
    if k <= 0 || k > ps.len() || child < 0 {
        assert(visit_parents(nodes, child, ps, k, seen) == seen);
    } else {
        lemma_visit_parents_in_range(nodes, child, ps, k - 1, seen);
        let before = visit_parents(nodes, child, ps, k - 1, seen);
        if 0 <= ps[k - 1] < child {
            lemma_visit_in_range(nodes, ps[k - 1], before);
            assert(visit_parents(nodes, child, ps, k, seen) == visit(nodes, ps[k - 1], before));
        } else {
            assert(visit_parents(nodes, child, ps, k, seen) == before);
        }
    }
}

/// `x` stands in `order` at an index below `q`.
pub open spec fn stands_before(order: Seq<int>, x: int, q: int) -> bool {
    exists|p: int| 0 <= p < q && #[trigger] order[p] == x
}

/// An order of tensors of the graph in which nothing stands twice and
/// every parent of a tensor stands before the tensor.
pub open spec fn topological(nodes: Seq<Option<NodeView>>, order: Seq<int>) -> bool {
    &&& forall|q: int| 0 <= q < order.len() ==> 0 <= #[trigger] order[q] < nodes.len()
    &&& forall|p: int, q: int| 0 <= p < q < order.len() ==> order[p] != order[q]
    &&& forall|q: int, k: int|
        0 <= q < order.len() && 0 <= k < parent_ids(nodes[order[q]]).len() ==> stands_before(
            order,
            #[trigger] parent_ids(nodes[order[q]])[k],
            q,
        )
}

/// Every parent is older than its child.
pub open spec fn parents_older(nodes: Seq<Option<NodeView>>) -> bool {
    forall|i: int, k: int|
        0 <= i < nodes.len() && 0 <= k < parent_ids(nodes[i]).len() ==> 0 <= #[trigger] parent_ids(
            nodes[i],
        )[k] < i
}

/// `longer` starts with `seen`, and what it adds is no greater than `bound`.
pub open spec fn continues(longer: Seq<int>, seen: Seq<int>, bound: int) -> bool {
    &&& seen.len() <= longer.len()
    &&& forall|q: int| 0 <= q < seen.len() ==> #[trigger] longer[q] == seen[q]
    &&& forall|q: int| seen.len() <= q < longer.len() ==> #[trigger] longer[q] <= bound
}

/// In a well-formed state every parent is older than its child.
pub proof fn lemma_wf_parents_older(s: State)
    requires
        s.wf(),
    ensures
        parents_older(s.nodes),
{
    assert forall|i: int, k: int|
        0 <= i < s.nodes.len() && 0 <= k < parent_ids(s.nodes[i]).len() implies 0
        <= #[trigger] parent_ids(s.nodes[i])[k] < i by {
        let node = s.nodes[i]->Some_0;
        assert(s.admits(node, i));
        lemma_inputs_are_operands(node, k);
        assert(s.holds(node.operands()[k]) && node.operands()[k].id < i);
    }
}

/// A visit keeps an order topological, keeps what was there in place, adds
/// nothing greater than the visited tensor, and adds the visited tensor
/// unless it was there.
pub proof fn lemma_visit(nodes: Seq<Option<NodeView>>, id: int, seen: Seq<int>)
    requires
        parents_older(nodes),
        topological(nodes, seen),
    ensures
        topological(nodes, visit(nodes, id, seen)),
        continues(visit(nodes, id, seen), seen, id),
        0 <= id < nodes.len() ==> visit(nodes, id, seen).contains(id),
    decreases id + 1, 0int,
{
    if id < 0 || id >= nodes.len() || seen.contains(id) {
    } else {
        let ps = parent_ids(nodes[id]);
        let inner = visit_parents(nodes, id, ps, ps.len() as int, seen);
        lemma_visit_parents(nodes, id, ps, ps.len() as int, seen);
        let r = inner.push(id);
        assert(visit(nodes, id, seen) == r);
        assert(r[inner.len() as int] == id);
        assert forall|q: int| 0 <= q < inner.len() implies inner[q] != id by {
            if q < seen.len() {
                assert(inner[q] == seen[q]);
                assert(seen.contains(seen[q]));
            } else {
                assert(inner[q] <= id - 1);
            }
        }
        assert forall|q: int, k: int|
            0 <= q < r.len() && 0 <= k < parent_ids(nodes[r[q]]).len() implies stands_before(
            r,
            #[trigger] parent_ids(nodes[r[q]])[k],
            q,
        ) by {
            let x = parent_ids(nodes[r[q]])[k];
            if q < inner.len() {
                assert(r[q] == inner[q]);
                assert(stands_before(inner, parent_ids(nodes[inner[q]])[k], q));
                let p = choose|p: int| 0 <= p < q && #[trigger] inner[p] == x;
                assert(r[p] == x);
            } else {
                assert(r[q] == id);
                assert(0 <= ps[k] < id);
                assert(inner.contains(ps[k]));
                let p = choose|p: int| 0 <= p < inner.len() && inner[p] == x;
                assert(r[p] == x);
            }
        }
        assert forall|p: int, q: int| 0 <= p < q < r.len() implies r[p] != r[q] by {
            if q < inner.len() {
                assert(inner[p] != inner[q]);
            }
        }
    }
}

/// The visits of the first `k` parents do the same, and add each of those
/// parents that is older than the child.
pub proof fn lemma_visit_parents(
    nodes: Seq<Option<NodeView>>,
    child: int,
    ps: Seq<int>,
    k: int,
    seen: Seq<int>,
)
    requires
        parents_older(nodes),
        topological(nodes, seen),
        0 <= child <= nodes.len(),
        0 <= k <= ps.len(),
    ensures
        topological(nodes, visit_parents(nodes, child, ps, k, seen)),
        continues(visit_parents(nodes, child, ps, k, seen), seen, child - 1),
        forall|j: int|
            0 <= j < k && 0 <= ps[j] < child ==> visit_parents(nodes, child, ps, k, seen).contains(
                #[trigger] ps[j],
            ),
    decreases child, k + 1,
{
    if k <= 0 {
        assert(visit_parents(nodes, child, ps, k, seen) == seen);
    } else {
        let before = visit_parents(nodes, child, ps, k - 1, seen);
        lemma_visit_parents(nodes, child, ps, k - 1, seen);
        if 0 <= ps[k - 1] < child {
            let r = visit(nodes, ps[k - 1], before);
            assert(visit_parents(nodes, child, ps, k, seen) == r);
            lemma_visit(nodes, ps[k - 1], before);
            assert forall|q: int| 0 <= q < seen.len() implies #[trigger] r[q] == seen[q] by {
                assert(before[q] == seen[q]);
            }
            assert forall|q: int| seen.len() <= q < r.len() implies #[trigger] r[q] <= child
                - 1 by {
                if q < before.len() {
                    assert(r[q] == before[q]);
                }
            }
            assert forall|j: int| 0 <= j < k && 0 <= ps[j] < child implies r.contains(
                #[trigger] ps[j],
            ) by {
                if j < k - 1 {
                    assert(before.contains(ps[j]));
                    let p = choose|p: int| 0 <= p < before.len() && before[p] == ps[j];
                    assert(r[p] == ps[j]);
                }
            }
        } else {
            assert(visit_parents(nodes, child, ps, k, seen) == before);
        }
    }
}

/// The order of a backward pass is topological: no tensor stands in it
/// twice, every parent of a tensor in it stands before the tensor, and the
/// root stands last. Walked from the end, it therefore reaches every
/// tensor before any of the tensor's parents.
pub proof fn lemma_post_order_topological(s: State, root: int)
    requires
        s.wf(),
        0 <= root < s.len(),
    ensures
        topological(s.nodes, post_order(s.nodes, root)),
        post_order(s.nodes, root).len() > 0,
        post_order(s.nodes, root).last() == root,
{
    lemma_wf_parents_older(s);
    let empty = Seq::<int>::empty();
    lemma_visit(s.nodes, root, empty);
    let ps = parent_ids(s.nodes[root]);
    assert(!empty.contains(root));
    assert(post_order(s.nodes, root) == visit_parents(s.nodes, root, ps, ps.len() as int, empty).push(
        root,
    ));
}

/// A sum `z` of two distinct leaves `x` and `y`, both of which track
/// gradients and have none yet, where `z` has the gradient `g`.
pub open spec fn sum_of_leaves(
    s: State,
    x: TensorView,
    y: TensorView,
    z: int,
    g: TensorView,
) -> bool {
    &&& s.wf()
    &&& 0 <= z < s.len()
    &&& s.nodes[z] == Some(NodeView::Add(x, y))
    &&& s.slots[z] == Some(g)
    &&& x.requires_grad
    &&& y.requires_grad
    &&& x.id != y.id
    &&& s.nodes[x.id as int] is None
    &&& s.nodes[y.id as int] is None
    &&& s.slots[x.id as int] is None
    &&& s.slots[y.id as int] is None
}

/// The state after the gradient `g` of a sum has reached both operands:
/// two fresh views of `g`, one in the slot of each operand.
pub open spec fn sum_flowed(
    s: State,
    x: TensorView,
    y: TensorView,
    g: TensorView,
) -> State {
    s.with_entry(None).with_entry(None).with_slot(x.id as int, g.renamed(s.len())).with_slot(
        y.id as int,
        g.renamed(s.len() + 1),
    )
}

proof fn lemma_sum_operands(
    s: State,
    x: TensorView,
    y: TensorView,
    z: int,
    g: TensorView,
)
    requires
        sum_of_leaves(s, x, y, z, g),
    ensures
        x.id < z,
        y.id < z,
        s.holds(x),
        s.holds(y),
{
    let node = NodeView::Add(x, y);
    assert(s.admits(node, z));
    assert(node.operands()[0] == x);
    assert(node.operands()[1] == y);
    assert(s.holds(node.operands()[0]) && node.operands()[0].id < z);
    assert(s.holds(node.operands()[1]) && node.operands()[1].id < z);
}

proof fn lemma_sum_order(
    s: State,
    x: TensorView,
    y: TensorView,
    z: int,
    g: TensorView,
)
    requires
        sum_of_leaves(s, x, y, z, g),
    ensures
        post_order(s.nodes, z) == seq![x.id as int, y.id as int, z],
{
    lemma_sum_operands(s, x, y, z, g);
    let nodes = s.nodes;
    let e = Seq::<int>::empty();
    let xi = x.id as int;
    let yi = y.id as int;
    let px = parent_ids(nodes[xi]);
    let py = parent_ids(nodes[yi]);
    let ps = parent_ids(nodes[z]);
    assert(px.len() == 0);
    assert(py.len() == 0);
    assert(ps.len() == 2 && ps[0] == xi && ps[1] == yi);
    assert(visit_parents(nodes, xi, px, 0, e) == e);
    assert(!e.contains(xi));
    assert(visit(nodes, xi, e) == e.push(xi));
    let s1 = e.push(xi);
    assert(visit_parents(nodes, z, ps, 0, e) == e);
    assert(visit_parents(nodes, z, ps, 1, e) == s1);
    assert(!s1.contains(yi));
    assert(visit_parents(nodes, yi, py, 0, s1) == s1);
    assert(visit(nodes, yi, s1) == s1.push(yi));
    let s2 = s1.push(yi);
    assert(visit_parents(nodes, z, ps, 2, e) == s2);
    assert(visit(nodes, z, e) == s2.push(z));
    assert(s2.push(z) =~= seq![xi, yi, z]);
}

proof fn lemma_step_leaf(
    t: State,
    id: int,
    next: State,
    r: Result<(), TensorError>,
)
    requires
        t.nodes[id] is None,
        stepped(t, id, next, r),
    ensures
        next == t,
        r is Ok,
{
}

proof fn lemma_step_sum(
    s: State,
    x: TensorView,
    y: TensorView,
    z: int,
    g: TensorView,
    next: State,
    r: Result<(), TensorError>,
)
    requires
        sum_of_leaves(s, x, y, z, g),
        stepped(s, z, next, r),
    ensures
        r is Ok,
        next == sum_flowed(s, x, y, g),
{
    lemma_sum_operands(s, x, y, z, g);
    let node = NodeView::Add(x, y);
    let (mid, gs) = choose|mid: State, gs: Result<Seq<TensorView>, TensorError>| #[trigger]
        propagated(s, node, g, mid, gs) && match gs {
            Ok(grads) => delivered(mid, node.inputs(), grads, next, r),
            Err(e) => next == mid && r == Err::<(), TensorError>(e),
        };
    let g1 = g.renamed(s.len());
    let g2 = g.renamed(s.len() + 1);
    let grads = seq![g1, g2];
    let ps = node.inputs();
    assert(mid == s.with_entry(None).with_entry(None));
    assert(gs == Ok::<Seq<TensorView>, TensorError>(grads));
    assert(delivered(mid, ps, grads, next, r));
    assert(ps[0] == x && ps[1] == y);
    assert(mid.slots[x.id as int] is None);
    assert(mid.slots[y.id as int] is None);
    let after_x = mid.with_slot(x.id as int, g1);
    assert(after_x.slots[y.id as int] is None);
    if r is Ok {
        let trace = choose|trace: Seq<State>|
            {
                &&& #[trigger] is_delivery(ps, grads, trace)
                &&& trace.len() == 2 + 1
                &&& trace[0] == mid
                &&& trace[2] == next
            };
        assert(delivery_link(ps, grads, trace, 0));
        assert(delivery_link(ps, grads, trace, 1));
        assert(trace[1] == after_x);
    } else {
        let (k, dm) = choose|k: int, dm: State|
            0 <= k < ps.len() && #[trigger] delivered_ok(mid, ps, grads, k, dm) && handed(
                dm,
                ps[k],
                grads[k],
                next,
                r,
            );
        let trace = choose|trace: Seq<State>|
            {
                &&& #[trigger] is_delivery(ps, grads, trace)
                &&& trace.len() == k + 1
                &&& trace[0] == mid
                &&& trace[k] == dm
            };
        if k == 1 {
            assert(delivery_link(ps, grads, trace, 0));
            assert(dm == after_x);
        }
    }
}

proof fn lemma_sum_sweep(
    s: State,
    x: TensorView,
    y: TensorView,
    z: int,
    g: TensorView,
    done: int,
    mid: State,
)
    requires
        sum_of_leaves(s, x, y, z, g),
        0 <= done <= 3,
        swept_ok(s, seq![x.id as int, y.id as int, z], done, mid),
    ensures
        done == 0 ==> mid == s,
        done >= 1 ==> mid == sum_flowed(s, x, y, g),
{
    lemma_sum_operands(s, x, y, z, g);
    let order = seq![x.id as int, y.id as int, z];
    let trace = choose|trace: Seq<State>|
        {
            &&& #[trigger] is_sweep(order, trace)
            &&& trace.len() == done + 1
            &&& trace[0] == s
            &&& trace[done] == mid
        };
    if done >= 1 {
        assert(sweep_link(order, trace, 0));
        lemma_step_sum(s, x, y, z, g, trace[1], Ok(()));
        let flowed = sum_flowed(s, x, y, g);
        assert(flowed.nodes[y.id as int] is None);
        assert(flowed.nodes[x.id as int] is None);
        if done >= 2 {
            assert(sweep_link(order, trace, 1));
            lemma_step_leaf(trace[1], y.id as int, trace[2], Ok(()));
            if done >= 3 {
                assert(sweep_link(order, trace, 2));
                lemma_step_leaf(trace[2], x.id as int, trace[3], Ok(()));
            }
        }
    }
}

/// The gradient of a sum flows to both operands unchanged. Let `z` be the
/// sum of two distinct leaves `x` and `y` that track gradients and have
/// none yet, and let `z` have the gradient `g`. Then a backward pass from
/// `z` is not rejected, and it leaves in the slots of `x` and of `y` two
/// fresh views of `g`, whose elements are those of `g`; nothing else
/// changes.
pub proof fn lemma_sum_gradient_flow(
    s: State,
    x: TensorView,
    y: TensorView,
    z: int,
    g: TensorView,
    next: State,
    r: Result<(), TensorError>,
)
    requires
        sum_of_leaves(s, x, y, z, g),
        swept(s, post_order(s.nodes, z), next, r),
    ensures
        r is Ok,
        next == sum_flowed(s, x, y, g),
        next.slots[x.id as int] == Some(g.renamed(s.len())),
        next.slots[y.id as int] == Some(g.renamed(s.len() + 1)),
        next.values(g.renamed(s.len())) == s.values(g),
        next.values(g.renamed(s.len() + 1)) == s.values(g),
{
    lemma_sum_operands(s, x, y, z, g);
    lemma_sum_order(s, x, y, z, g);
    let order = seq![x.id as int, y.id as int, z];
    let flowed = sum_flowed(s, x, y, g);
    if r is Ok {
        lemma_sum_sweep(s, x, y, z, g, 3, next);
    } else {
        let (done, mid) = choose|done: int, mid: State|
            0 <= done < order.len() && #[trigger] swept_ok(s, order, done, mid) && stepped(
                mid,
                order[order.len() - 1 - done],
                next,
                r,
            );
        lemma_sum_sweep(s, x, y, z, g, done, mid);
        if done == 0 {
            lemma_step_sum(s, x, y, z, g, next, r);
        } else if done == 1 {
            assert(flowed.nodes[y.id as int] is None);
            lemma_step_leaf(mid, y.id as int, next, r);
        } else {
            assert(flowed.nodes[x.id as int] is None);
            lemma_step_leaf(mid, x.id as int, next, r);
        }
    }
    assert(flowed.values(g.renamed(s.len())) =~= s.values(g));
    assert(flowed.values(g.renamed(s.len() + 1)) =~= s.values(g));
}

} // verus!
