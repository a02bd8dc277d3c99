//! The runtime: the pool of buffers, the computation graph and the gradient
//! slots, together with the unit that does scalar arithmetic.
use vstd::prelude::*;
use crate::autograd::node::NodeView;
use crate::autograd::node::Op;
use crate::error::TensorError;
use crate::scalar::ScalarOp;
use crate::tensor::DType;
use crate::tensor::Storage;
use crate::tensor::Tensor;
use crate::tensor::TensorView;
use crate::tensor::layout::checked_span;
use crate::tensor::layout::count;
use crate::tensor::layout::fits;
use crate::tensor::layout::lemma_locate_bound;
use crate::tensor::layout::lemma_locate_contiguous;
use crate::tensor::layout::lemma_locate_matrix;
use crate::tensor::layout::lemma_positive_dims;
use crate::tensor::layout::lemma_span_contiguous;
use crate::tensor::layout::lemma_span_nonnegative;
use crate::tensor::layout::position;
use crate::tensor::layout::product;
use crate::tensor::layout::shape_fits;
use crate::tensor::storage::encode;
use crate::tensor::storage::lemma_encode;
use crate::tensor::storage::lemma_overwritten;
use crate::tensor::storage::lemma_overwritten_push;
use crate::tensor::storage::overwritten;
use crate::tensor::storage::word_at;

verus! {

/// What a runtime is, as plain data.
pub struct State {
    /// The answers of the scalar unit: `answers(op, r)` says that `r` is a
    /// possible answer to the request `op`.
    pub answers: spec_fn(ScalarOp, u32) -> bool,
    /// The requests that the scalar unit accepts.
    pub accepts: spec_fn(ScalarOp) -> bool,
    /// The bytes of each buffer, by handle.
    pub pool: Seq<Seq<u8>>,
    /// The node that produced each tensor, by identifier; `None` for a leaf.
    pub nodes: Seq<Option<NodeView>>,
    /// The gradient accumulated for each tensor, by identifier.
    pub slots: Seq<Option<TensorView>>,
}

impl State {
    /// The number of identifiers issued so far, which is the next one.
    pub open spec fn len(self) -> nat {
        self.nodes.len()
    }

    /// `r` is a possible answer of the scalar unit to `op`.
    pub open spec fn yields(self, op: ScalarOp, r: u32) -> bool {
        (self.answers)(op, r)
    }

    /// The scalar unit answers every request.
    pub open spec fn total(self) -> bool {
        forall|op: ScalarOp| #[trigger] (self.accepts)(op)
    }

    /// The scalar unit computes the function `f`: it has no other answer
    /// to a request `op` than `f(op)`.
    pub open spec fn computes(self, f: spec_fn(ScalarOp) -> u32) -> bool {
        forall|op: ScalarOp, r: u32| #[trigger] (self.answers)(op, r) ==> r == f(op)
    }

    /// The view is well formed and every element it addresses lies within
    /// its buffer.
    pub open spec fn covers(self, t: TensorView) -> bool {
        &&& t.wf()
        &&& t.storage < self.pool.len()
        &&& t.reach() * t.dtype.width() <= self.pool[t.storage as int].len()
    }

    /// The tensor was issued here and its view is covered.
    pub open spec fn holds(self, t: TensorView) -> bool {
        &&& self.covers(t)
        &&& t.id < self.nodes.len()
    }

    /// Every tensor a node refers to is held and older than `id`.
    pub open spec fn admits(self, n: NodeView, id: int) -> bool {
        forall|k: int|
            0 <= k < n.operands().len() ==> self.holds(#[trigger] n.operands()[k])
                && n.operands()[k].id < id
    }

    /// Every tensor has a gradient slot, the scalar unit answers every
    /// request, every node refers to older tensors that are held, and every
    /// gradient is held.
    pub open spec fn wf(self) -> bool {
        &&& self.slots.len() == self.nodes.len()
        &&& self.total()
        &&& forall|id: int|
            0 <= id < self.nodes.len() ==> (#[trigger] self.nodes[id] matches Some(n)
                ==> self.admits(n, id))
        &&& forall|id: int|
            0 <= id < self.slots.len() ==> (#[trigger] self.slots[id] matches Some(g)
                ==> self.holds(g))
    }

    /// The elements of a tensor of 32-bit elements, in row-major order of
    /// its logical indices.
    pub open spec fn values(self, t: TensorView) -> Seq<u32> {
        Seq::new(t.numel(), |i: int| word_at(self.pool[t.storage as int], t.position(i)))
    }

    /// The elements of a tensor of bytes, in row-major order.
    pub open spec fn octets(self, t: TensorView) -> Seq<u8> {
        Seq::new(t.numel(), |i: int| self.pool[t.storage as int][t.position(i)])
    }

    /// The state with one more buffer.
    pub open spec fn with_buffer(self, bytes: Seq<u8>) -> Self {
        State { pool: self.pool.push(bytes), ..self }
    }

    /// The state with one more identifier issued, for a tensor produced by
    /// `node`, with an empty gradient slot.
    pub open spec fn with_entry(self, node: Option<NodeView>) -> Self {
        State { nodes: self.nodes.push(node), slots: self.slots.push(None), ..self }
    }

    /// The state with the gradient slot of `id` holding `g`.
    pub open spec fn with_slot(self, id: int, g: TensorView) -> Self {
        State { slots: self.slots.update(id, Some(g)), ..self }
    }

    /// The state with the bytes of buffer `h` replaced.
    pub open spec fn with_bytes(self, h: int, bytes: Seq<u8>) -> Self {
        State { pool: self.pool.update(h, bytes), ..self }
    }

    /// What accumulating `grad` into the gradient slot of `id` does: an
    /// empty slot takes `grad` as it is; a filled slot has `grad` added,
    /// element by element, into the buffer of the gradient it holds, which
    /// every view of that buffer then sees. A filled slot rejects the
    /// gradient, with nothing changed, unless both gradients are contiguous,
    /// hold 32-bit elements and have one shape.
    pub open spec fn accumulated(
        self,
        id: int,
        grad: TensorView,
        next: Self,
        r: Result<(), TensorError>,
    ) -> bool {
        match self.slots[id] {
            None => r is Ok && next == self.with_slot(id, grad),
            Some(g) => {
                if !g.is_contiguous() || !grad.is_contiguous() {
                    r == Err::<(), TensorError>(TensorError::NonContiguous) && next == self
                } else if g.dtype != DType::F32 || grad.dtype != DType::F32 {
                    r == Err::<(), TensorError>(TensorError::DType) && next == self
                } else if g.shape != grad.shape {
                    r == Err::<(), TensorError>(TensorError::ShapeMismatch) && next == self
                } else {
                    &&& r is Ok
                    &&& next == self.with_bytes(
                        g.storage as int,
                        overwritten(self.pool[g.storage as int], g.offset as int, next.values(g)),
                    )
                    &&& next.values(g).len() == g.numel()
                    &&& forall|i: int|
                        0 <= i < g.numel() ==> self.yields(
                            ScalarOp::Add(self.values(g)[i], self.values(grad)[i]),
                            #[trigger] next.values(g)[i],
                        )
                }
            },
        }
    }

    /// Every identifier and buffer of `prev` is still there, buffers keep
    /// their sizes and nodes are as they were.
    pub open spec fn extends(self, prev: Self) -> bool {
        &&& self.answers == prev.answers
        &&& self.accepts == prev.accepts
        &&& prev.pool.len() <= self.pool.len()
        &&& forall|h: int| 0 <= h < prev.pool.len() ==> (#[trigger] self.pool[h]).len() == prev.pool[h].len()
        &&& prev.nodes.len() <= self.nodes.len()
        &&& forall|id: int| 0 <= id < prev.nodes.len() ==> #[trigger] self.nodes[id] == prev.nodes[id]
    }

    /// `self` extends `prev` and every buffer and gradient slot of `prev` is
    /// as it was.
    pub open spec fn grows_from(self, prev: Self) -> bool {
        &&& self.extends(prev)
        &&& forall|h: int| 0 <= h < prev.pool.len() ==> #[trigger] self.pool[h] == prev.pool[h]
        &&& prev.slots.len() <= self.slots.len()
        &&& forall|id: int| 0 <= id < prev.slots.len() ==> #[trigger] self.slots[id] == prev.slots[id]
    }
}

/// A covered view reads the same elements in every state that grew from
/// the one that covers it.
pub proof fn lemma_grows_values(prev: State, cur: State, t: TensorView)
    requires
        cur.grows_from(prev),
        prev.covers(t),
    ensures
        cur.covers(t),
        cur.values(t) == prev.values(t),
        cur.octets(t) == prev.octets(t),
{
    assert(cur.pool[t.storage as int] == prev.pool[t.storage as int]);
    assert(cur.values(t) =~= prev.values(t));
    assert(cur.octets(t) =~= prev.octets(t));
}

pub proof fn lemma_grows_refl(s: State)
    ensures
        s.grows_from(s),
{
}

pub proof fn lemma_grows_transitive(a: State, b: State, c: State)
    requires
        b.grows_from(a),
        c.grows_from(b),
    ensures
        c.grows_from(a),
{
    lemma_extends_transitive(a, b, c);
    assert forall|h: int| 0 <= h < a.pool.len() implies #[trigger] c.pool[h] == a.pool[h] by {
        assert(b.pool[h] == a.pool[h]);
    }
    assert forall|id: int| 0 <= id < a.slots.len() implies #[trigger] c.slots[id]
        == a.slots[id] by {
        assert(b.slots[id] == a.slots[id]);
    }
}

/// A dense view of a buffer that encodes `words` reads exactly `words`.
pub proof fn lemma_dense_values(s: State, t: TensorView, words: Seq<u32>)
    requires
        t.is_contiguous(),
        t.offset == 0,
        t.numel() == words.len(),
        t.storage < s.pool.len(),
        s.pool[t.storage as int] == encode(words),
    ensures
        s.values(t) == words,
{
    assert forall|i: int| 0 <= i < words.len() implies s.values(t)[i] == words[i] by {
        lemma_locate_contiguous(t.shape, t.strides, i);
        lemma_encode(words, i);
    }
    assert(s.values(t) =~= words);
}

/// A dense view of bytes over a buffer reads exactly the buffer.
pub proof fn lemma_dense_octets(s: State, t: TensorView, bytes: Seq<u8>)
    requires
        t.is_contiguous(),
        t.offset == 0,
        t.numel() == bytes.len(),
        t.storage < s.pool.len(),
        s.pool[t.storage as int] == bytes,
    ensures
        s.octets(t) == bytes,
{
    assert forall|i: int| 0 <= i < bytes.len() implies s.octets(t)[i] == bytes[i] by {
        lemma_locate_contiguous(t.shape, t.strides, i);
    }
    assert(s.octets(t) =~= bytes);
}

/// A dense view is covered by a buffer of exactly its size.
pub proof fn lemma_dense_covered(s: State, t: TensorView)
    requires
        shape_fits(t.shape),
        t.is_contiguous(),
        t.offset == 0,
        t.storage < s.pool.len(),
        s.pool[t.storage as int].len() == t.numel() * t.dtype.width(),
        s.pool[t.storage as int].len() <= usize::MAX,
    ensures
        s.covers(t),
{
    if product(t.shape) > 0 {
        lemma_span_contiguous(t.shape, t.strides);
    } else {
        assert(t.reach() * t.dtype.width() == 0) by (nonlinear_arith)
            requires
                t.reach() == 0,
        ;
    }
}

/// Replacing the bytes of a buffer by as many bytes keeps a state well
/// formed.
pub proof fn lemma_with_bytes(s: State, h: int, bytes: Seq<u8>)
    requires
        s.wf(),
        0 <= h < s.pool.len(),
        bytes.len() == s.pool[h].len(),
    ensures
        s.with_bytes(h, bytes).wf(),
        s.with_bytes(h, bytes).extends(s),
{
    let n = s.with_bytes(h, bytes);
    assert(n.extends(s));
    assert forall|id: int| 0 <= id < n.nodes.len() implies (#[trigger] n.nodes[id] matches Some(
        x,
    ) ==> n.admits(x, id)) by {
        if let Some(x) = n.nodes[id] {
            lemma_extends_admits(s, n, x, id);
        }
    }
    assert forall|id: int| 0 <= id < n.slots.len() implies (#[trigger] n.slots[id] matches Some(
        g,
    ) ==> n.holds(g)) by {
        if let Some(g) = n.slots[id] {
            lemma_extends_holds(s, n, g);
        }
    }
}

/// Storing a held gradient in a slot keeps a state well formed.
pub proof fn lemma_with_slot(s: State, id: int, g: TensorView)
    requires
        s.wf(),
        0 <= id < s.len(),
        s.holds(g),
    ensures
        s.with_slot(id, g).wf(),
        s.with_slot(id, g).extends(s),
{
    let n = s.with_slot(id, g);
    assert(n.extends(s));
    assert forall|j: int| 0 <= j < n.nodes.len() implies (#[trigger] n.nodes[j] matches Some(
        x,
    ) ==> n.admits(x, j)) by {
        if let Some(x) = n.nodes[j] {
            lemma_extends_admits(s, n, x, j);
        }
    }
    assert forall|j: int| 0 <= j < n.slots.len() implies (#[trigger] n.slots[j] matches Some(
        x,
    ) ==> n.holds(x)) by {
        if let Some(x) = n.slots[j] {
            if j != id {
                assert(s.slots[j] == Some(x));
            }
            lemma_extends_holds(s, n, x);
        }
    }
}

/// A tensor held by a state is held by every state that extends it.
pub proof fn lemma_extends_holds(prev: State, cur: State, t: TensorView)
    requires
        cur.extends(prev),
        prev.holds(t),
    ensures
        cur.holds(t),
{
    assert(cur.pool[t.storage as int].len() == prev.pool[t.storage as int].len());
}

pub proof fn lemma_extends_admits(
    prev: State,
    cur: State,
    n: NodeView,
    id: int,
)
    requires
        cur.extends(prev),
        prev.admits(n, id),
    ensures
        cur.admits(n, id),
{
    assert forall|k: int| 0 <= k < n.operands().len() implies cur.holds(#[trigger] n.operands()[k])
        && n.operands()[k].id < id by {
        lemma_extends_holds(prev, cur, n.operands()[k]);
    }
}

pub proof fn lemma_extends_transitive(a: State, b: State, c: State)
    requires
        b.extends(a),
        c.extends(b),
    ensures
        c.extends(a),
{
    assert forall|h: int| 0 <= h < a.pool.len() implies (#[trigger] c.pool[h]).len()
        == a.pool[h].len() by {
        assert(b.pool[h].len() == a.pool[h].len());
    }
    assert forall|id: int| 0 <= id < a.nodes.len() implies #[trigger] c.nodes[id]
        == a.nodes[id] by {
        assert(b.nodes[id] == a.nodes[id]);
    }
}

/// Adding a buffer keeps a state well formed and leaves every tensor as it
/// was.
pub proof fn lemma_with_buffer(s: State, bytes: Seq<u8>)
    requires
        s.wf(),
    ensures
        s.with_buffer(bytes).wf(),
        s.with_buffer(bytes).grows_from(s),
{
    let n = s.with_buffer(bytes);
    assert(n.grows_from(s));
    assert forall|id: int| 0 <= id < n.nodes.len() implies (#[trigger] n.nodes[id] matches Some(
        x,
    ) ==> n.admits(x, id)) by {
        if let Some(x) = n.nodes[id] {
            assert(s.nodes[id] == Some(x));
            lemma_extends_admits(s, n, x, id);
        }
    }
    assert forall|id: int| 0 <= id < n.slots.len() implies (#[trigger] n.slots[id] matches Some(
        g,
    ) ==> n.holds(g)) by {
        if let Some(g) = n.slots[id] {
            assert(s.slots[id] == Some(g));
            lemma_extends_holds(s, n, g);
        }
    }
}

/// Issuing an identifier, for a leaf or for a node whose operands are held
/// and older, keeps a state well formed and leaves every tensor as it was.
pub proof fn lemma_with_entry(s: State, node: Option<NodeView>)
    requires
        s.wf(),
        node matches Some(n) ==> s.admits(n, s.len() as int),
    ensures
        s.with_entry(node).wf(),
        s.with_entry(node).grows_from(s),
{
    let n = s.with_entry(node);
    assert(n.grows_from(s));
    assert forall|id: int| 0 <= id < n.nodes.len() implies (#[trigger] n.nodes[id] matches Some(
        x,
    ) ==> n.admits(x, id)) by {
        if let Some(x) = n.nodes[id] {
            if id < s.nodes.len() {
                assert(s.nodes[id] == Some(x));
            }
            lemma_extends_admits(s, n, x, id);
        }
    }
    assert forall|id: int| 0 <= id < n.slots.len() implies (#[trigger] n.slots[id] matches Some(
        g,
    ) ==> n.holds(g)) by {
        if let Some(g) = n.slots[id] {
            assert(s.slots[id] == Some(g));
            lemma_extends_holds(s, n, g);
        }
    }
}

/// The pool of buffers, the computation graph and the gradient slots of a
/// set of tensors, with the unit that does their scalar arithmetic.
pub struct Runtime<A: Fn(ScalarOp) -> u32> {
    alu: A,
    pool: Vec<Storage>,
    nodes: Vec<Option<Op>>,
    slots: Vec<Option<Tensor>>,
}

pub open spec fn node_view(node: Option<Op>) -> Option<NodeView> {
    match node {
        Some(op) => Some(op@),
        None => None,
    }
}

pub open spec fn slot_view(slot: Option<Tensor>) -> Option<TensorView> {
    match slot {
        Some(t) => Some(t@),
        None => None,
    }
}

impl<A: Fn(ScalarOp) -> u32> Runtime<A> {
    /// The runtime as plain data.
    pub closed spec fn view(&self) -> State {
        State {
            answers: |op: ScalarOp, r: u32| call_ensures(self.alu, (op,), r),
            accepts: |op: ScalarOp| call_requires(self.alu, (op,)),
            pool: Seq::new(self.pool@.len(), |h: int| self.pool@[h]@),
            nodes: Seq::new(self.nodes@.len(), |i: int| node_view(self.nodes@[i])),
            slots: Seq::new(self.slots@.len(), |i: int| slot_view(self.slots@[i])),
        }
    }
}

impl<A: Fn(ScalarOp) -> u32> Runtime<A> {
    /// An empty runtime around a scalar unit that answers every request.
    pub fn new(alu: A) -> (rt: Self)
        requires
            forall|op: ScalarOp| call_requires(alu, (op,)),
        ensures
            rt@.wf(),
            forall|op: ScalarOp, r: u32|
                #[trigger] (rt@.answers)(op, r) <==> call_ensures(alu, (op,), r),
            rt@.pool.len() == 0,
            rt@.nodes.len() == 0,
            rt@.slots.len() == 0,
    {
        Runtime { alu, pool: Vec::new(), nodes: Vec::new(), slots: Vec::new() }
    }

    /// The number of identifiers issued so far.
    pub fn len(&self) -> (n: usize)
        ensures
            n == self@.len(),
    {
        self.nodes.len()
    }

    /// The number of buffers in the pool.
    pub fn buffers(&self) -> (n: usize)
        ensures
            n == self@.pool.len(),
    {
        self.pool.len()
    }

    /// The buffer with the given handle.
    pub fn buffer(&self, handle: usize) -> (s: &Storage)
        requires
            handle < self@.pool.len(),
        ensures
            s@ == self@.pool[handle as int],
    {
        &self.pool[handle]
    }

    /// Asks the scalar unit.
    pub fn compute(&self, op: ScalarOp) -> (r: u32)
        requires
            self@.wf(),
        ensures
            self@.yields(op, r),
    {
        proof {
            assert((self@.accepts)(op));
        }
        (self.alu)(op)
    }

    /// Adds a buffer to the pool and returns its handle.
    pub(crate) fn push_buffer(&mut self, s: Storage) -> (handle: usize)
        ensures
            final(self)@ == old(self)@.with_buffer(s@),
            handle == old(self)@.pool.len(),
            final(self)@.pool[handle as int] == s@,
    {
        let handle: usize = self.pool.len();
        self.pool.push(s);
        proof {
            assert(final(self)@.pool =~= old(self)@.pool.push(s@));
            assert(final(self)@.nodes =~= old(self)@.nodes);
            assert(final(self)@.slots =~= old(self)@.slots);
        }
        handle
    }

    /// Issues the next identifier, for a tensor produced by `node`.
    pub(crate) fn push_entry(&mut self, node: Option<Op>) -> (id: usize)
        requires
            old(self)@.slots.len() == old(self)@.nodes.len(),
        ensures
            final(self)@ == old(self)@.with_entry(node_view(node)),
            id == old(self)@.len(),
    {
        let id: usize = self.nodes.len();
        let ghost view = node_view(node);
        self.nodes.push(node);
        self.slots.push(None);
        proof {
            assert(final(self)@.pool =~= old(self)@.pool);
            assert(final(self)@.nodes =~= old(self)@.nodes.push(view));
            assert(final(self)@.slots =~= old(self)@.slots.push(None));
        }
        id
    }

    /// Accumulates `grad` into the gradient slot of the tensor `id`.
    pub fn accumulate(&mut self, id: usize, grad: Tensor) -> (r: Result<(), TensorError>)
        requires
            old(self)@.wf(),
            id < old(self)@.len(),
            old(self)@.holds(grad@),
        ensures
            old(self)@.accumulated(id as int, grad@, final(self)@, r),
            final(self)@.wf(),
            final(self)@.extends(old(self)@),
    {
        let ghost before = self@;
        let held: Option<Tensor> = match self.slots[id].as_ref() {
            Some(t) => Some(t.duplicate()),
            None => None,
        };
        let g: Tensor = match held {
            Some(g) => g,
            None => {
                let ghost incoming = grad@;
                self.slots[id] = Some(grad);
                proof {
                    assert(self@.slots =~= before.slots.update(id as int, Some(incoming)));
                    assert(self@.pool =~= before.pool);
                    assert(self@.nodes =~= before.nodes);
                    assert(self@ == before.with_slot(id as int, incoming));
                    lemma_with_slot(before, id as int, incoming);
                }
                return Ok(());
            },
        };
        proof {
            assert(before.slots[id as int] == Some(g@));
            assert(before.holds(g@));
        }
        if !g.is_contiguous() || !grad.is_contiguous() {
            return Err(TensorError::NonContiguous);
        }
        if g.dtype() != DType::F32 || grad.dtype() != DType::F32 {
            return Err(TensorError::DType);
        }
        if !same_shape(g.shape(), grad.shape()) {
            return Err(TensorError::ShapeMismatch);
        }
        let incoming: Vec<u32> = self.to_vec(&grad);
        let n: usize = g.numel();
        let h: usize = g.storage();
        let start: usize = g.offset();
        let ghost bytes = before.pool[h as int];
        proof {
            self.pool@[h as int].lemma_bounded();
        }
        let ghost mut sums: Seq<u32> = Seq::empty();
        proof {
            if n > 0 {
                lemma_span_contiguous(g@.shape, g@.strides);
                assert(g@.reach() == start + n);
                assert(g@.dtype.width() == 4);
                assert(g@.reach() * 4 <= bytes.len());
            }
            assert(overwritten(bytes, start as int, sums) =~= bytes);
        }
        let mut i: usize = 0;
        while i < n
            invariant
                i <= n,
                n == g@.numel(),
                h == g@.storage,
                start == g@.offset,
                h < self.pool.len(),
                incoming@ == before.values(grad@),
                incoming.len() == n,
                before.wf(),
                before.holds(g@),
                g@.is_contiguous(),
                g@.dtype == DType::F32,
                n > 0 ==> 4 * (start + n) <= bytes.len(),
                bytes.len() <= usize::MAX,
                bytes == before.pool[h as int],
                sums.len() == i,
                self@.answers == before.answers,
                self@.accepts == before.accepts,
                self.pool@[h as int]@ == overwritten(bytes, start as int, sums),
                forall|k: int| 0 <= k < self.pool@.len() && k != h ==> (#[trigger] self.pool@[k])@ == before.pool[k],
                self.pool@.len() == before.pool.len(),
                self@.nodes == before.nodes,
                self@.slots == before.slots,
                forall|k: int|
                    0 <= k < i ==> before.yields(
                        ScalarOp::Add(before.values(g@)[k], before.values(grad@)[k]),
                        #[trigger] sums[k],
                    ),
            decreases n - i,
        {
            proof {
                lemma_overwritten(bytes, start as int, sums, start + i);
                lemma_locate_contiguous(g@.shape, g@.strides, i as int);
            }
            let a: u32 = self.pool[h].word(start + i);
            proof {
                assert((before.accepts)(ScalarOp::Add(a, incoming[i as int])));
            }
            let s: u32 = (self.alu)(ScalarOp::Add(a, incoming[i]));
            self.pool[h].set_word(start + i, s);
            proof {
                lemma_overwritten_push(bytes, start as int, sums, s);
                sums = sums.push(s);
                assert(self@.nodes =~= before.nodes);
                assert(self@.slots =~= before.slots);
            }
            i = i + 1;
        }
        proof {
            let after = before.with_bytes(h as int, overwritten(bytes, start as int, sums));
            assert(self@.pool =~= after.pool);
            assert(self@ == after);
            lemma_with_bytes(before, h as int, overwritten(bytes, start as int, sums));
            assert forall|k: int| 0 <= k < n implies self@.values(g@)[k] == sums[k] by {
                lemma_locate_contiguous(g@.shape, g@.strides, k);
                lemma_overwritten(bytes, start as int, sums, start + k);
            }
            assert(self@.values(g@) =~= sums);
        }
        Ok(())
    }

    /// Whether a view with this geometry is well formed and lies within the
    /// buffer `storage`: what `Tensor::new` asks of its arguments.
    pub fn admits_view(
        &self,
        storage: usize,
        shape: &[usize],
        strides: &[usize],
        offset: usize,
        dtype: DType,
    ) -> (b: bool)
        ensures
            b == self@.covers(
                TensorView {
                    id: 0,
                    shape: shape@,
                    strides: strides@,
                    storage: storage as nat,
                    offset: offset as nat,
                    dtype,
                    requires_grad: false,
                },
            ),
    {
        let ghost t = TensorView {
            id: 0,
            shape: shape@,
            strides: strides@,
            storage: storage as nat,
            offset: offset as nat,
            dtype,
            requires_grad: false,
        };
        if storage >= self.pool.len() {
            return false;
        }
        if shape.len() != strides.len() || !fits(shape) {
            return false;
        }
        let numel: usize = count(shape);
        let width: usize = dtype.size_of();
        if numel.checked_mul(width).is_none() {
            return false;
        }
        let size: usize = self.pool[storage].len();
        if numel == 0 || width == 0 {
            proof {
                assert(t.reach() * t.dtype.width() == 0) by (nonlinear_arith)
                    requires
                        t.reach() == 0 || t.dtype.width() == 0,
                ;
            }
            return true;
        }
        proof {
            lemma_positive_dims(t.shape);
            lemma_span_nonnegative(t.shape, t.strides);
        }
        let far: usize = match checked_span(shape, strides) {
            Some(v) => v,
            None => {
                proof {
                    assert(t.reach() * width > usize::MAX) by (nonlinear_arith)
                        requires
                            t.reach() > usize::MAX,
                            width >= 1,
                    ;
                }
                return false;
            },
        };
        let reach: usize = match offset.checked_add(far) {
            Some(v) => match v.checked_add(1) {
                Some(w) => w,
                None => {
                    proof {
                        assert(t.reach() * width > usize::MAX) by (nonlinear_arith)
                            requires
                                t.reach() > usize::MAX,
                                width >= 1,
                        ;
                    }
                    return false;
                },
            },
            None => {
                proof {
                    assert(t.reach() * width > usize::MAX) by (nonlinear_arith)
                        requires
                            t.reach() > usize::MAX,
                            width >= 1,
                    ;
                }
                return false;
            },
        };
        match reach.checked_mul(width) {
            Some(bytes) => bytes <= size,
            None => false,
        }
    }

    /// Whether the tensor was issued here and lies within its buffer.
    pub fn owns(&self, t: &Tensor) -> (b: bool)
        ensures
            b == self@.holds(t@),
    {
        t.id() < self.nodes.len() && self.admits_view(
            t.storage(),
            t.shape(),
            t.strides(),
            t.offset(),
            t.dtype(),
        )
    }

    /// Overwrites the 32-bit elements of a buffer from index `start` on
    /// with `words`. Every view of the buffer sees the change.
    pub fn write_words(&mut self, handle: usize, start: usize, words: &Vec<u32>)
        requires
            old(self)@.wf(),
            handle < old(self)@.pool.len(),
            4 * (start + words.len()) <= old(self)@.pool[handle as int].len(),
        ensures
            final(self)@ == old(self)@.with_bytes(
                handle as int,
                overwritten(old(self)@.pool[handle as int], start as int, words@),
            ),
            final(self)@.wf(),
            final(self)@.extends(old(self)@),
    {
        let ghost before = self@;
        let ghost bytes = before.pool[handle as int];
        proof {
            self.pool@[handle as int].lemma_bounded();
        }
        let n: usize = words.len();
        proof {
            assert(overwritten(bytes, start as int, words@.take(0)) =~= bytes);
        }
        let mut i: usize = 0;
        while i < n
            invariant
                i <= n,
                n == words.len(),
                handle < self.pool.len(),
                4 * (start + n) <= bytes.len(),
                bytes.len() <= usize::MAX,
                bytes == before.pool[handle as int],
                self@.answers == before.answers,
                self@.accepts == before.accepts,
                self.pool@[handle as int]@ == overwritten(bytes, start as int, words@.take(i as int)),
                forall|k: int|
                    0 <= k < self.pool@.len() && k != handle ==> (#[trigger] self.pool@[k])@
                        == before.pool[k],
                self.pool@.len() == before.pool.len(),
                self@.nodes == before.nodes,
                self@.slots == before.slots,
            decreases n - i,
        {
            self.pool[handle].set_word(start + i, words[i]);
            proof {
                lemma_overwritten_push(bytes, start as int, words@.take(i as int), words[i as int]);
                assert(words@.take(i as int).push(words[i as int]) =~= words@.take(i + 1));
                assert(self@.nodes =~= before.nodes);
                assert(self@.slots =~= before.slots);
            }
            i = i + 1;
        }
        proof {
            assert(words@.take(n as int) =~= words@);
            let after = before.with_bytes(handle as int, overwritten(bytes, start as int, words@));
            assert(self@.pool =~= after.pool);
            assert(self@.nodes =~= after.nodes);
            assert(self@.slots =~= after.slots);
            assert(self@ == after);
            lemma_with_bytes(before, handle as int, overwritten(bytes, start as int, words@));
        }
    }

    /// The gradient accumulated for the tensor `id`, if any.
    pub fn slot(&self, id: usize) -> (g: Option<&Tensor>)
        requires
            self@.wf(),
            id < self@.len(),
        ensures
            slot_view_ref(g) == self@.slots[id as int],
    {
        self.slots[id].as_ref()
    }

    /// The node that produced the tensor `id`; `None` for a leaf.
    pub fn node(&self, id: usize) -> (node: Option<&Op>)
        requires
            self@.wf(),
            id < self@.len(),
        ensures
            node_view_ref(node) == self@.nodes[id as int],
    {
        self.nodes[id].as_ref()
    }

    /// The gradient accumulated for a tensor, if any.
    pub fn grad(&self, t: &Tensor) -> (g: Option<&Tensor>)
        requires
            self@.wf(),
            t@.id < self@.len(),
        ensures
            slot_view_ref(g) == self@.slots[t@.id as int],
    {
        self.slot(t.id())
    }

    /// The node that produced a tensor; `None` for a leaf.
    pub fn ctx(&self, t: &Tensor) -> (node: Option<&Op>)
        requires
            self@.wf(),
            t@.id < self@.len(),
        ensures
            node_view_ref(node) == self@.nodes[t@.id as int],
    {
        self.node(t.id())
    }

    /// The `i`-th element, in row-major order, of a tensor of 32-bit
    /// elements with `numel` elements.
    pub(crate) fn word_of(&self, t: &Tensor, numel: usize, i: usize) -> (w: u32)
        requires
            self@.covers(t@),
            t@.dtype.width() == 4,
            numel == t@.numel(),
            i < numel,
        ensures
            w == self@.values(t@)[i as int],
    {
        let storage: &Storage = &self.pool[t.storage()];
        proof {
            storage.lemma_bounded();
        }
        let pos: usize = position(t.shape(), t.strides(), numel, i);
        storage.word(t.offset() + pos)
    }

    /// The `i`-th element, in row-major order, of a tensor of 32-bit elements.
    pub fn element(&self, t: &Tensor, i: usize) -> (w: u32)
        requires
            self@.covers(t@),
            t@.dtype.width() == 4,
            i < t@.numel(),
        ensures
            w == self@.values(t@)[i as int],
    {
        let numel: usize = t.numel();
        self.word_of(t, numel, i)
    }

    /// The elements, in row-major order, of a tensor of 32-bit elements.
    pub fn to_vec(&self, t: &Tensor) -> (values: Vec<u32>)
        requires
            self@.covers(t@),
            t@.dtype.width() == 4,
        ensures
            values@ == self@.values(t@),
    {
        let numel: usize = t.numel();
        let mut values: Vec<u32> = Vec::with_capacity(numel);
        let mut i: usize = 0;
        while i < numel
            invariant
                i <= numel,
                numel == t@.numel(),
                self@.covers(t@),
                t@.dtype.width() == 4,
                values@ == self@.values(t@).take(i as int),
            decreases numel - i,
        {
            let w: u32 = self.word_of(t, numel, i);
            values.push(w);
            proof {
                assert(values@ =~= self@.values(t@).take(i + 1));
            }
            i = i + 1;
        }
        proof {
            assert(values@ =~= self@.values(t@));
        }
        values
    }

    /// Element `(r, c)` of a matrix of 32-bit elements.
    pub(crate) fn entry(&self, t: &Tensor, r: usize, c: usize) -> (w: u32)
        requires
            self@.covers(t@),
            t@.dtype.width() == 4,
            t@.shape.len() == 2,
            r < t@.shape[0],
            c < t@.shape[1],
        ensures
            w == self@.values(t@)[r * t@.shape[1] + c],
    {
        let storage: &Storage = &self.pool[t.storage()];
        proof {
            storage.lemma_bounded();
        }
        let strides: &[usize] = t.strides();
        proof {
            lemma_locate_matrix(t@.shape, t@.strides, r as int, c as int);
            lemma_locate_bound(t@.shape, t@.strides, r * t@.shape[1] + c);
            assert(0 <= r * t@.strides[0]) by (nonlinear_arith)
                requires
                    r >= 0,
                    t@.strides[0] >= 0,
            ;
            assert(0 <= c * t@.strides[1]) by (nonlinear_arith)
                requires
                    c >= 0,
                    t@.strides[1] >= 0,
            ;
        }
        storage.word(t.offset() + (r * strides[0] + c * strides[1]))
    }

    /// Element `(r, c)` of a matrix of bytes.
    pub(crate) fn octet(&self, t: &Tensor, r: usize, c: usize) -> (b: u8)
        requires
            self@.covers(t@),
            t@.dtype.width() == 1,
            t@.shape.len() == 2,
            r < t@.shape[0],
            c < t@.shape[1],
        ensures
            b == self@.octets(t@)[r * t@.shape[1] + c],
    {
        let storage: &Storage = &self.pool[t.storage()];
        proof {
            storage.lemma_bounded();
        }
        let strides: &[usize] = t.strides();
        proof {
            lemma_locate_matrix(t@.shape, t@.strides, r as int, c as int);
            lemma_locate_bound(t@.shape, t@.strides, r * t@.shape[1] + c);
            assert(0 <= r * t@.strides[0]) by (nonlinear_arith)
                requires
                    r >= 0,
                    t@.strides[0] >= 0,
            ;
            assert(0 <= c * t@.strides[1]) by (nonlinear_arith)
                requires
                    c >= 0,
                    t@.strides[1] >= 0,
            ;
        }
        storage.byte(t.offset() + (r * strides[0] + c * strides[1]))
    }
}

/// Whether two shapes are the same.
pub fn same_shape(a: &[usize], b: &[usize]) -> (same: bool)
    ensures
        same == (a@ == b@),
{
    if a.len() != b.len() {
        return false;
    }
    let mut k: usize = 0;
    while k < a.len()
        invariant
            k <= a.len(),
            a.len() == b.len(),
            forall|j: int| 0 <= j < k ==> a[j] == b[j],
        decreases a.len() - k,
    {
        if a[k] != b[k] {
            return false;
        }
        k = k + 1;
    }
    proof {
        assert(a@ =~= b@);
    }
    true
}

pub open spec fn node_view_ref(node: Option<&Op>) -> Option<NodeView> {
    match node {
        Some(op) => Some(op@),
        None => None,
    }
}

pub open spec fn slot_view_ref(slot: Option<&Tensor>) -> Option<TensorView> {
    match slot {
        Some(t) => Some(t@),
        None => None,
    }
}

} // verus!
