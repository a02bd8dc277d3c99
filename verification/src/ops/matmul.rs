//! Matrix products.
use vstd::prelude::*;
use vstd::arithmetic::div_mod::lemma_fundamental_div_mod_converse;
use crate::autograd::node::Node;
use crate::autograd::node::NodeView;
use crate::autograd::node::Op;
use crate::autograd::node::outcome;
use crate::autograd::node::views;
use crate::error::TensorError;
use crate::ops::binary::recorded;
use crate::runtime::Runtime;
use crate::runtime::State;
use crate::runtime::lemma_dense_values;
use crate::runtime::lemma_extends_holds;
use crate::runtime::lemma_grows_transitive;
use crate::scalar::ScalarOp;
use crate::scalar::ZERO;
use crate::scalar::center;
use crate::scalar::centered;
use crate::scalar::high_nibble;
use crate::scalar::low_nibble;
use crate::tensor::DType;
use crate::tensor::Storage;
use crate::tensor::Tensor;
use crate::tensor::TensorView;
use crate::tensor::layout::lemma_matrix_index;
use crate::tensor::layout::lemma_matrix_shape;
use crate::tensor::layout::product;
use crate::tensor::storage::encode;

verus! {

/// Record of a matrix product: the two operands.
#[derive(Debug)]
pub struct MatmulNode {
    lhs: Tensor,
    rhs: Tensor,
}

impl View for MatmulNode {
    type V = NodeView;

    closed spec fn view(&self) -> NodeView {
        NodeView::Matmul(self.lhs@, self.rhs@)
    }
}

impl MatmulNode {
    /// A copy of the record.
    pub(crate) fn duplicate(&self) -> (n: MatmulNode)
        ensures
            n@ == self@,
    {
        MatmulNode { lhs: self.lhs.duplicate(), rhs: self.rhs.duplicate() }
    }
}

impl Node for MatmulNode {
    open spec fn describe(&self) -> NodeView {
        self@
    }

    fn parents(&self) -> (ps: Vec<Tensor>) {
        let ps: Vec<Tensor> = vec![self.lhs.duplicate(), self.rhs.duplicate()];
        proof {
            assert(views(ps@) =~= self@.inputs());
        }
        ps
    }

    fn backward<A: Fn(ScalarOp) -> u32>(&self, rt: &mut Runtime<A>, grad: &Tensor) -> (r: Result<
        Vec<Tensor>,
        TensorError,
    >) {
        let ghost before = rt@;
        proof {
            assert(self@.operands()[0] == self.lhs@);
            assert(self@.operands()[1] == self.rhs@);
            assert(before.holds(self@.operands()[0]));
            assert(before.holds(self@.operands()[1]));
        }
        let rhs_t = match self.rhs.t(rt) {
            Ok(t) => t,
            Err(e) => {
                return Err(e);
            },
        };
        let ghost s1 = rt@;
        proof {
            lemma_extends_holds(before, s1, grad@);
        }
        let dlhs = match matmul(rt, grad, &rhs_t) {
            Ok(t) => t,
            Err(e) => {
                return Err(e);
            },
        };
        let ghost s2 = rt@;
        proof {
            lemma_grows_transitive(before, s1, s2);
            lemma_extends_holds(before, s2, self.lhs@);
            lemma_extends_holds(before, s2, grad@);
        }
        let lhs_t = match self.lhs.t(rt) {
            Ok(t) => t,
            Err(e) => {
                proof {
                    assert(matmul_second(s2, self.lhs@, grad@, dlhs@, rt@, outcome(Err(e))));
                }
                return Err(e);
            },
        };
        let ghost s3 = rt@;
        proof {
            lemma_grows_transitive(before, s2, s3);
            lemma_extends_holds(before, s3, grad@);
        }
        let drhs = match matmul(rt, &lhs_t, grad) {
            Ok(t) => t,
            Err(e) => {
                proof {
                    lemma_grows_transitive(before, s3, rt@);
                    assert(matmul_second(s2, self.lhs@, grad@, dlhs@, rt@, outcome(Err(e))));
                }
                return Err(e);
            },
        };
        proof {
            lemma_grows_transitive(before, s3, rt@);
            lemma_extends_holds(s2, rt@, dlhs@);
        }
        let gs: Vec<Tensor> = vec![dlhs, drhs];
        proof {
            assert(views(gs@) =~= seq![dlhs@, drhs@]);
            assert(matmul_second(s2, self.lhs@, grad@, dlhs@, rt@, outcome(Ok(gs))));
        }
        Ok(gs)
    }
}

/// What a matrix product does with the gradient `grad` of its result: the
/// gradient of `lhs` is the product of `grad` and the transposed `rhs`;
/// that of `rhs` is the product of the transposed `lhs` and `grad`. The
/// four tensors are made in that order, and the first rejection ends it.
pub open spec fn matmul_propagated(
    prev: State,
    lhs: TensorView,
    rhs: TensorView,
    grad: TensorView,
    next: State,
    r: Result<Seq<TensorView>, TensorError>,
) -> bool {
    if rhs.shape.len() < 2 {
        next == prev && r == Err::<Seq<TensorView>, TensorError>(TensorError::Rank)
    } else {
        let rhs_t = rhs.transposed(prev.len());
        let s1 = prev.with_entry(None);
        match matmul_refusal(grad, rhs_t) {
            Some(e) => next == s1 && r == Err::<Seq<TensorView>, TensorError>(e),
            None => exists|s2: State, dlhs: TensorView| #[trigger]
                multiplied(s1, grad, rhs_t, s2, dlhs) && matmul_second(
                    s2,
                    lhs,
                    grad,
                    dlhs,
                    next,
                    r,
                ),
        }
    }
}

/// The second half of `matmul_propagated`, from the state `s2` in which the
/// gradient `dlhs` of the left operand exists.
pub open spec fn matmul_second(
    s2: State,
    lhs: TensorView,
    grad: TensorView,
    dlhs: TensorView,
    next: State,
    r: Result<Seq<TensorView>, TensorError>,
) -> bool {
    if lhs.shape.len() < 2 {
        next == s2 && r == Err::<Seq<TensorView>, TensorError>(TensorError::Rank)
    } else {
        let lhs_t = lhs.transposed(s2.len());
        let s3 = s2.with_entry(None);
        match matmul_refusal(lhs_t, grad) {
            Some(e) => next == s3 && r == Err::<Seq<TensorView>, TensorError>(e),
            None => exists|drhs: TensorView| #[trigger]
                multiplied(s3, lhs_t, grad, next, drhs) && r == Ok::<Seq<TensorView>, TensorError>(
                    seq![dlhs, drhs],
                ),
        }
    }
}

/// Row `i` of a matrix with `cols` columns, given by its elements in
/// row-major order.
pub open spec fn row(values: Seq<u32>, cols: int, i: int) -> Seq<u32> {
    Seq::new(cols as nat, |p: int| values[i * cols + p])
}

/// Column `j` of a matrix with `rows` rows and `cols` columns.
pub open spec fn column(values: Seq<u32>, rows: int, cols: int, j: int) -> Seq<u32> {
    Seq::new(rows as nat, |p: int| values[p * cols + j])
}

/// Element `(i, j)` of a matrix with `cols` columns.
pub open spec fn element(values: Seq<u32>, cols: int, i: int, j: int) -> u32 {
    values[i * cols + j]
}

/// `sums` are the partial sums, and `prods` the products, of a dot product
/// of `xs` and `ys` accumulated from positive zero in index order, each an
/// answer of the scalar unit.
pub open spec fn dot_trace(
    s: State,
    xs: Seq<u32>,
    ys: Seq<u32>,
    prods: Seq<u32>,
    sums: Seq<u32>,
) -> bool {
    &&& ys.len() == xs.len()
    &&& prods.len() == xs.len()
    &&& sums.len() == xs.len() + 1
    &&& sums[0] == ZERO
    &&& forall|p: int|
        0 <= p < xs.len() ==> s.yields(ScalarOp::Mul(xs[p], ys[p]), #[trigger] prods[p])
            && s.yields(ScalarOp::Add(sums[p], prods[p]), sums[p + 1])
}

/// `r` is a dot product of `xs` and `ys`: the sum, accumulated from
/// positive zero in index order, of the products of their elements.
pub open spec fn is_dot(s: State, xs: Seq<u32>, ys: Seq<u32>, r: u32) -> bool {
    exists|prods: Seq<u32>, sums: Seq<u32>|
        dot_trace(s, xs, ys, prods, sums) && sums[xs.len() as int] == r
}

/// The dot product of `xs` and `ys` as the function `f` computes it: the
/// sum, accumulated from positive zero in index order, of the products.
pub open spec fn dot_with(f: spec_fn(ScalarOp) -> u32, xs: Seq<u32>, ys: Seq<u32>) -> u32
    decreases xs.len(),
{
    if xs.len() == 0 {
        ZERO
    } else {
        f(
            ScalarOp::Add(
                dot_with(f, xs.drop_last(), ys.drop_last()),
                f(ScalarOp::Mul(xs.last(), ys.last())),
            ),
        )
    }
}

proof fn lemma_trace_functional(
    s: State,
    f: spec_fn(ScalarOp) -> u32,
    xs: Seq<u32>,
    ys: Seq<u32>,
    prods: Seq<u32>,
    sums: Seq<u32>,
    p: int,
)
    requires
        s.computes(f),
        dot_trace(s, xs, ys, prods, sums),
        0 <= p <= xs.len(),
    ensures
        sums[p] == dot_with(f, xs.take(p), ys.take(p)),
    decreases p,
{
    if p > 0 {
        lemma_trace_functional(s, f, xs, ys, prods, sums, p - 1);
        assert(s.yields(ScalarOp::Mul(xs[p - 1], ys[p - 1]), prods[p - 1]));
        assert(s.yields(ScalarOp::Add(sums[p - 1], prods[p - 1]), sums[p - 1 + 1]));
        assert(xs.take(p).drop_last() =~= xs.take(p - 1));
        assert(ys.take(p).drop_last() =~= ys.take(p - 1));
        assert(xs.take(p).last() == xs[p - 1]);
        assert(ys.take(p).last() == ys[p - 1]);
    }
}

/// Under a scalar unit that computes a function, a dot product is one
/// value: the one that the function gives.
pub proof fn lemma_dot_functional(
    s: State,
    f: spec_fn(ScalarOp) -> u32,
    xs: Seq<u32>,
    ys: Seq<u32>,
    r: u32,
)
    requires
        s.computes(f),
        is_dot(s, xs, ys, r),
    ensures
        r == dot_with(f, xs, ys),
{
    let (prods, sums) = choose|prods: Seq<u32>, sums: Seq<u32>|
        dot_trace(s, xs, ys, prods, sums) && sums[xs.len() as int] == r;
    lemma_trace_functional(s, f, xs, ys, prods, sums, xs.len() as int);
    assert(xs.take(xs.len() as int) =~= xs);
    assert(ys.take(xs.len() as int) =~= ys);
}

/// Why a matrix product of the two operands is rejected, if it is.
pub open spec fn matmul_refusal(lhs: TensorView, rhs: TensorView) -> Option<TensorError> {
    if lhs.dtype != DType::F32 || rhs.dtype != DType::F32 {
        Some(TensorError::DType)
    } else if lhs.shape.len() != 2 || rhs.shape.len() != 2 {
        Some(TensorError::Rank)
    } else if lhs.shape[1] != rhs.shape[0] {
        Some(TensorError::ShapeMismatch)
    } else if lhs.shape[0] * rhs.shape[1] * 4 > usize::MAX {
        Some(TensorError::TooLarge)
    } else {
        None
    }
}

/// `next` is `prev` after the matrix product `out` of `lhs` and `rhs` was
/// added to it: one new buffer in which the element of row `i` and column
/// `j` is a dot product of row `i` of `lhs` and column `j` of `rhs`, and one
/// new dense tensor over it, which tracks gradients and records its
/// operands if either operand tracks them.
pub open spec fn multiplied(
    prev: State,
    lhs: TensorView,
    rhs: TensorView,
    next: State,
    out: TensorView,
) -> bool {
    let m = lhs.shape[0] as int;
    let k = lhs.shape[1] as int;
    let n = rhs.shape[1] as int;
    let tracking = lhs.requires_grad || rhs.requires_grad;
    &&& out == TensorView::dense(
        prev.len(),
        seq![lhs.shape[0], rhs.shape[1]],
        prev.pool.len(),
        DType::F32,
        tracking,
    )
    &&& next == prev.with_buffer(encode(next.values(out))).with_entry(
        recorded(tracking, NodeView::Matmul(lhs, rhs)),
    )
    &&& next.values(out).len() == m * n
    &&& forall|i: int, j: int|
        0 <= i < m && 0 <= j < n ==> is_dot(
            prev,
            row(prev.values(lhs), k, i),
            column(prev.values(rhs), k, n, j),
            #[trigger] element(next.values(out), n, i, j),
        )
}

/// The product of two matrices, as a new dense tensor. Operands need not be
/// contiguous. Rejected, with nothing changed, as `matmul_refusal` says.
pub fn matmul<A: Fn(ScalarOp) -> u32>(rt: &mut Runtime<A>, lhs: &Tensor, rhs: &Tensor) -> (r:
    Result<Tensor, TensorError>)
    requires
        old(rt)@.wf(),
        old(rt)@.holds(lhs@),
        old(rt)@.holds(rhs@),
    ensures
        match matmul_refusal(lhs@, rhs@) {
            Some(e) => r == Err::<Tensor, TensorError>(e),
            None => r is Ok,
        },
        r is Err ==> final(rt)@ == old(rt)@,
        r matches Ok(out) ==> multiplied(old(rt)@, lhs@, rhs@, final(rt)@, out@),
        r matches Ok(out) ==> final(rt)@.holds(out@),
        final(rt)@.wf(),
        final(rt)@.grows_from(old(rt)@),
{
    if lhs.dtype() != DType::F32 || rhs.dtype() != DType::F32 {
        return Err(TensorError::DType);
    }
    if lhs.shape().len() != 2 || rhs.shape().len() != 2 {
        return Err(TensorError::Rank);
    }
    let m: usize = lhs.shape()[0];
    let k: usize = lhs.shape()[1];
    let n: usize = rhs.shape()[1];
    if k != rhs.shape()[0] {
        return Err(TensorError::ShapeMismatch);
    }
    let total: usize = match m.checked_mul(n) {
        Some(t) => t,
        None => {
            proof {
                assert(m * n * 4 > usize::MAX) by (nonlinear_arith)
                    requires
                        m * n > usize::MAX,
                ;
            }
            return Err(TensorError::TooLarge);
        },
    };
    if total.checked_mul(4).is_none() {
        return Err(TensorError::TooLarge);
    }
    let ghost before = rt@;
    let ghost a = before.values(lhs@);
    let ghost b = before.values(rhs@);
    let mut words: Vec<u32> = Vec::with_capacity(total);
    let mut i: usize = 0;
    while i < m
        invariant
            i <= m,
            rt@ == before,
            before.wf(),
            before.holds(lhs@),
            before.holds(rhs@),
            lhs@.dtype == DType::F32,
            rhs@.dtype == DType::F32,
            lhs@.shape.len() == 2,
            rhs@.shape.len() == 2,
            m == lhs@.shape[0],
            k == lhs@.shape[1],
            k == rhs@.shape[0],
            n == rhs@.shape[1],
            a == before.values(lhs@),
            b == before.values(rhs@),
            m * n <= usize::MAX,
            words.len() == i * n,
            forall|q: int|
                0 <= q < i * n ==> is_dot(
                    before,
                    row(a, k as int, q / (n as int)),
                    column(b, k as int, n as int, q % (n as int)),
                    #[trigger] words[q],
                ),
        decreases m - i,
    {
        let mut j: usize = 0;
        while j < n
            invariant
                i < m,
                j <= n,
                rt@ == before,
                before.wf(),
                before.holds(lhs@),
                before.holds(rhs@),
                lhs@.dtype == DType::F32,
                rhs@.dtype == DType::F32,
                lhs@.shape.len() == 2,
                rhs@.shape.len() == 2,
                m == lhs@.shape[0],
                k == lhs@.shape[1],
                k == rhs@.shape[0],
                n == rhs@.shape[1],
                a == before.values(lhs@),
                b == before.values(rhs@),
                m * n <= usize::MAX,
                words.len() == i * n + j,
                forall|q: int|
                    0 <= q < i * n + j ==> is_dot(
                        before,
                        row(a, k as int, q / (n as int)),
                        column(b, k as int, n as int, q % (n as int)),
                        #[trigger] words[q],
                    ),
            decreases n - j,
        {
            let ghost xs = row(a, k as int, i as int);
            let ghost ys = column(b, k as int, n as int, j as int);
            let ghost mut prods: Seq<u32> = Seq::empty();
            let ghost mut sums: Seq<u32> = seq![ZERO];
            let mut sum: u32 = ZERO;
            let mut p: usize = 0;
            while p < k
                invariant
                    i < m,
                    j < n,
                    p <= k,
                    rt@ == before,
                    before.wf(),
                    before.holds(lhs@),
                    before.holds(rhs@),
                    lhs@.dtype == DType::F32,
                    rhs@.dtype == DType::F32,
                    lhs@.shape.len() == 2,
                    rhs@.shape.len() == 2,
                    m == lhs@.shape[0],
                    k == lhs@.shape[1],
                    k == rhs@.shape[0],
                    n == rhs@.shape[1],
                    a == before.values(lhs@),
                    b == before.values(rhs@),
                    xs == row(a, k as int, i as int),
                    ys == column(b, k as int, n as int, j as int),
                    prods.len() == p,
                    sums.len() == p + 1,
                    sums[0] == ZERO,
                    sum == sums[p as int],
                    forall|t: int|
                        0 <= t < p ==> before.yields(ScalarOp::Mul(xs[t], ys[t]), #[trigger] prods[t])
                            && before.yields(ScalarOp::Add(sums[t], prods[t]), sums[t + 1]),
                decreases k - p,
            {
                let x: u32 = rt.entry(lhs, i, p);
                let y: u32 = rt.entry(rhs, p, j);
                let prod: u32 = rt.compute(ScalarOp::Mul(x, y));
                let next: u32 = rt.compute(ScalarOp::Add(sum, prod));
                proof {
                    prods = prods.push(prod);
                    sums = sums.push(next);
                }
                sum = next;
                p = p + 1;
            }
            proof {
                assert(dot_trace(before, xs, ys, prods, sums));
                assert(is_dot(before, xs, ys, sum));
                let q = i * n + j;
                assert(q == (n as int) * (i as int) + (j as int)) by (nonlinear_arith)
                    requires
                        q == i * n + j,
                ;
                lemma_fundamental_div_mod_converse(q, n as int, i as int, j as int);
                assert((i + 1) * n == i * n + n) by (nonlinear_arith);
                assert(i * n + n <= m * n) by (nonlinear_arith)
                    requires
                        i < m,
                ;
            }
            words.push(sum);
            j = j + 1;
        }
        proof {
            assert((i + 1) * n == i * n + n) by (nonlinear_arith);
        }
        i = i + 1;
    }
    let tracking: bool = lhs.requires_grad() || rhs.requires_grad();
    let node: Option<Op> = if tracking {
        Some(Op::Matmul(MatmulNode { lhs: lhs.duplicate(), rhs: rhs.duplicate() }))
    } else {
        None
    };
    let storage = Storage::from_words(&words);
    let shape: Vec<usize> = vec![m, n];
    proof {
        assert(shape@ =~= seq![m, n]);
        lemma_matrix_shape(m, n);
    }
    let out = Tensor::install(rt, storage, shape, DType::F32, tracking, node);
    proof {
        lemma_dense_values(rt@, out@, words@);
        assert forall|i: int, j: int| 0 <= i < m && 0 <= j < n implies is_dot(
            before,
            row(a, k as int, i),
            column(b, k as int, n as int, j),
            #[trigger] element(words@, n as int, i, j),
        ) by {
            lemma_matrix_index(m as int, n as int, i, j);
            assert(is_dot(
                before,
                row(a, k as int, (i * n + j) / (n as int)),
                column(b, k as int, n as int, (i * n + j) % (n as int)),
                words[i * n + j],
            ));
        }
    }
    Ok(out)
}

/// Whether `r` is a dot product depends on the state only through the
/// answers of its scalar unit.
pub proof fn lemma_dot_unit(
    s: State,
    t: State,
    xs: Seq<u32>,
    ys: Seq<u32>,
    r: u32,
)
    requires
        s.answers == t.answers,
        is_dot(s, xs, ys, r),
    ensures
        is_dot(t, xs, ys, r),
{
    let (prods, sums) = choose|prods: Seq<u32>, sums: Seq<u32>|
        dot_trace(s, xs, ys, prods, sums) && sums[xs.len() as int] == r;
    assert(dot_trace(t, xs, ys, prods, sums));
}

/// The gradients of a matrix product, element by element. Where a matrix
/// product with operands `lhs` and `rhs` turned the gradient `grad` of its
/// result into the gradients `gs`, the element `(i, p)` of the first is a
/// dot product of row `i` of `grad` and row `p` of `rhs`: it is `grad`
/// times the transposed `rhs`. The element `(p, j)` of the second is a dot
/// product of column `p` of `lhs` and column `j` of `grad`: it is the
/// transposed `lhs` times `grad`.
pub proof fn lemma_matmul_gradients(
    prev: State,
    lhs: TensorView,
    rhs: TensorView,
    grad: TensorView,
    next: State,
    gs: Seq<TensorView>,
)
    requires
        lhs.shape.len() == 2,
        rhs.shape.len() == 2,
        lhs.shape[1] == rhs.shape[0],
        lhs.strides.len() == 2,
        rhs.strides.len() == 2,
        grad.storage < prev.pool.len(),
        lhs.storage < prev.pool.len(),
        rhs.storage < prev.pool.len(),
        matmul_propagated(prev, lhs, rhs, grad, next, Ok(gs)),
    ensures
        gs.len() == 2,
        grad.shape =~= seq![lhs.shape[0], rhs.shape[1]],
        gs[0].shape == lhs.shape,
        gs[1].shape == rhs.shape,
        forall|i: int, p: int|
            0 <= i < lhs.shape[0] && 0 <= p < lhs.shape[1] ==> is_dot(
                prev,
                row(prev.values(grad), rhs.shape[1] as int, i),
                row(prev.values(rhs), rhs.shape[1] as int, p),
                #[trigger] element(next.values(gs[0]), lhs.shape[1] as int, i, p),
            ),
        forall|p: int, j: int|
            0 <= p < rhs.shape[0] && 0 <= j < rhs.shape[1] ==> is_dot(
                prev,
                column(prev.values(lhs), lhs.shape[0] as int, lhs.shape[1] as int, p),
                column(prev.values(grad), lhs.shape[0] as int, rhs.shape[1] as int, j),
                #[trigger] element(next.values(gs[1]), rhs.shape[1] as int, p, j),
            ),
{
    let result = Ok::<Seq<TensorView>, TensorError>(gs);
    let rhs_t = rhs.transposed(prev.len());
    let s1 = prev.with_entry(None);
    assert(matmul_refusal(grad, rhs_t) is None);
    let (s2, dlhs) = choose|s2: State, dlhs: TensorView| #[trigger]
        multiplied(s1, grad, rhs_t, s2, dlhs) && matmul_second(s2, lhs, grad, dlhs, next, result);
    let lhs_t = lhs.transposed(s2.len());
    let s3 = s2.with_entry(None);
    assert(matmul_refusal(lhs_t, grad) is None);
    let drhs = choose|drhs: TensorView| #[trigger]
        multiplied(s3, lhs_t, grad, next, drhs) && result == Ok::<Seq<TensorView>, TensorError>(
            seq![dlhs, drhs],
        );
    assert(gs == seq![dlhs, drhs]);
    let m = lhs.shape[0] as int;
    let k = lhs.shape[1] as int;
    let n = rhs.shape[1] as int;
    assert(rhs.shape[0] == k);
    assert(grad.shape[0] == m && grad.shape[1] == n);
    assert(dlhs.shape =~= lhs.shape);
    assert(drhs.shape =~= rhs.shape);
    assert(s1.values(grad) =~= prev.values(grad));
    assert(s1.values(rhs_t) =~= prev.values(rhs_t));
    assert(s2.pool =~= s1.pool.push(encode(s2.values(dlhs))));
    assert(s3.values(grad) =~= prev.values(grad)) by {
        assert(s3.pool[grad.storage as int] == prev.pool[grad.storage as int]);
    }
    assert(s3.values(lhs_t) =~= prev.values(lhs_t)) by {
        assert(s3.pool[lhs.storage as int] == prev.pool[lhs.storage as int]);
    }
    assert(next.values(dlhs) =~= s2.values(dlhs)) by {
        assert(next.pool[dlhs.storage as int] == s2.pool[dlhs.storage as int]);
    }
    assert forall|i: int, p: int| 0 <= i < m && 0 <= p < k implies is_dot(
        prev,
        row(prev.values(grad), n, i),
        row(prev.values(rhs), n, p),
        #[trigger] element(next.values(gs[0]), k, i, p),
    ) by {
        lemma_matrix_index(m, k, i, p);
        assert(is_dot(
            s1,
            row(s1.values(grad), n, i),
            column(s1.values(rhs_t), n, k, p),
            element(s2.values(dlhs), k, i, p),
        ));
        assert forall|j: int| 0 <= j < n implies column(prev.values(rhs_t), n, k, p)[j] == row(
            prev.values(rhs),
            n,
            p,
        )[j] by {
            crate::tensor::tensor_impl::lemma_transpose_values(prev, rhs, prev.len(), p, j);
        }
        assert(column(prev.values(rhs_t), n, k, p) =~= row(prev.values(rhs), n, p));
        lemma_dot_unit(
            s1,
            prev,
            row(prev.values(grad), n, i),
            row(prev.values(rhs), n, p),
            element(s2.values(dlhs), k, i, p),
        );
    }
    assert forall|p: int, j: int| 0 <= p < k && 0 <= j < n implies is_dot(
        prev,
        column(prev.values(lhs), m, k, p),
        column(prev.values(grad), m, n, j),
        #[trigger] element(next.values(gs[1]), n, p, j),
    ) by {
        lemma_matrix_index(k, n, p, j);
        assert(is_dot(
            s3,
            row(s3.values(lhs_t), m, p),
            column(s3.values(grad), m, n, j),
            element(next.values(drhs), n, p, j),
        ));
        assert forall|i: int| 0 <= i < m implies row(prev.values(lhs_t), m, p)[i] == column(
            prev.values(lhs),
            m,
            k,
            p,
        )[i] by {
            crate::tensor::tensor_impl::lemma_transpose_values(prev, lhs, s2.len(), i, p);
        }
        assert(row(prev.values(lhs_t), m, p) =~= column(prev.values(lhs), m, k, p));
        lemma_dot_unit(
            s3,
            prev,
            column(prev.values(lhs), m, k, p),
            column(prev.values(grad), m, n, j),
            element(next.values(drhs), n, p, j),
        );
    }
}

/// Row `j` of a byte matrix with `cols` columns.
pub open spec fn packed_row(octets: Seq<u8>, cols: int, j: int) -> Seq<u8> {
    Seq::new(cols as nat, |p: int| octets[j * cols + p])
}

/// One step of a quantized dot product: `next` is `acc` plus the sum of
/// `x0` times the low value of `packed` and `x1` times its high value. The
/// value of a 4-bit code is the code less 8, times `scale`. Every operation
/// is an answer of the scalar unit.
pub open spec fn packed_step(
    s: State,
    acc: u32,
    x0: u32,
    x1: u32,
    packed: u8,
    scale: u32,
    next: u32,
) -> bool {
    exists|lo: u32, hi: u32, t0: u32, t1: u32, pair: u32|
        {
            &&& s.yields(ScalarOp::Mul(centered(low_nibble(packed)), scale), lo)
            &&& s.yields(ScalarOp::Mul(centered(high_nibble(packed)), scale), hi)
            &&& s.yields(ScalarOp::Mul(x0, lo), t0)
            &&& s.yields(ScalarOp::Mul(x1, hi), t1)
            &&& s.yields(ScalarOp::Add(t0, t1), pair)
            &&& s.yields(ScalarOp::Add(acc, pair), next)
        }
}

/// `r` is a quantized dot product of the elements `xs` with the packed
/// codes `ws`, two codes to the byte, low one first: the steps run in index
/// order from positive zero over `sums`.
pub open spec fn is_packed_dot(
    s: State,
    xs: Seq<u32>,
    ws: Seq<u8>,
    scale: u32,
    r: u32,
) -> bool {
    exists|sums: Seq<u32>|
        {
            &&& sums.len() == ws.len() + 1
            &&& sums[0] == ZERO
            &&& sums[ws.len() as int] == r
            &&& forall|p: int|
                0 <= p < ws.len() ==> packed_step(
                    s,
                    sums[p],
                    xs[2 * p],
                    xs[2 * p + 1],
                    #[trigger] ws[p],
                    scale,
                    sums[p + 1],
                )
        }
}

/// One step of a quantized dot product as the function `f` computes it.
pub open spec fn packed_step_with(
    f: spec_fn(ScalarOp) -> u32,
    acc: u32,
    x0: u32,
    x1: u32,
    packed: u8,
    scale: u32,
) -> u32 {
    let lo = f(ScalarOp::Mul(centered(low_nibble(packed)), scale));
    let hi = f(ScalarOp::Mul(centered(high_nibble(packed)), scale));
    f(ScalarOp::Add(acc, f(ScalarOp::Add(f(ScalarOp::Mul(x0, lo)), f(ScalarOp::Mul(x1, hi))))))
}

/// The quantized dot product of `xs` with the packed codes `ws` as the
/// function `f` computes it.
pub open spec fn packed_dot_with(
    f: spec_fn(ScalarOp) -> u32,
    xs: Seq<u32>,
    ws: Seq<u8>,
    scale: u32,
) -> u32
    decreases ws.len(),
{
    if ws.len() == 0 {
        ZERO
    } else {
        let p = ws.len() - 1;
        packed_step_with(
            f,
            packed_dot_with(f, xs, ws.drop_last(), scale),
            xs[2 * p],
            xs[2 * p + 1],
            ws[p],
            scale,
        )
    }
}

proof fn lemma_packed_trace_functional(
    s: State,
    f: spec_fn(ScalarOp) -> u32,
    xs: Seq<u32>,
    ws: Seq<u8>,
    scale: u32,
    sums: Seq<u32>,
    p: int,
)
    requires
        s.computes(f),
        sums.len() == ws.len() + 1,
        sums[0] == ZERO,
        forall|q: int|
            0 <= q < ws.len() ==> packed_step(
                s,
                sums[q],
                xs[2 * q],
                xs[2 * q + 1],
                #[trigger] ws[q],
                scale,
                sums[q + 1],
            ),
        0 <= p <= ws.len(),
    ensures
        sums[p] == packed_dot_with(f, xs, ws.take(p), scale),
    decreases p,
{
    if p > 0 {
        lemma_packed_trace_functional(s, f, xs, ws, scale, sums, p - 1);
        let q = p - 1;
        assert(packed_step(s, sums[q], xs[2 * q], xs[2 * q + 1], ws[q], scale, sums[q + 1]));
        assert(ws.take(p).drop_last() =~= ws.take(q));
        assert(ws.take(p)[q] == ws[q]);
    }
}

/// Under a scalar unit that computes a function, a quantized dot product
/// is one value: the one that the function gives.
pub proof fn lemma_packed_dot_functional(
    s: State,
    f: spec_fn(ScalarOp) -> u32,
    xs: Seq<u32>,
    ws: Seq<u8>,
    scale: u32,
    r: u32,
)
    requires
        s.computes(f),
        is_packed_dot(s, xs, ws, scale, r),
    ensures
        r == packed_dot_with(f, xs, ws, scale),
{
    let sums = choose|sums: Seq<u32>|
        {
            &&& sums.len() == ws.len() + 1
            &&& sums[0] == ZERO
            &&& sums[ws.len() as int] == r
            &&& forall|p: int|
                0 <= p < ws.len() ==> packed_step(
                    s,
                    sums[p],
                    xs[2 * p],
                    xs[2 * p + 1],
                    #[trigger] ws[p],
                    scale,
                    sums[p + 1],
                )
        };
    lemma_packed_trace_functional(s, f, xs, ws, scale, sums, ws.len() as int);
    assert(ws.take(ws.len() as int) =~= ws);
}

/// `r` is `dot`, with the bias added by the scalar unit where there is one.
pub open spec fn biased(s: State, dot: u32, bias: Option<u32>, r: u32) -> bool {
    match bias {
        Some(b) => s.yields(ScalarOp::Add(dot, b), r),
        None => r == dot,
    }
}

/// `r` is a quantized dot product of `xs` and `ws` under `scale`, with the
/// bias added where there is one.
pub open spec fn is_channel_value(
    s: State,
    xs: Seq<u32>,
    ws: Seq<u8>,
    scale: u32,
    bias: Option<u32>,
    r: u32,
) -> bool {
    exists|dot: u32| #[trigger] is_packed_dot(s, xs, ws, scale, dot) && biased(s, dot, bias, r)
}

/// The bias of output channel `j`, where there is a bias.
pub open spec fn bias_at(s: State, bias: Option<TensorView>, j: int) -> Option<
    u32,
> {
    match bias {
        Some(b) => Some(s.values(b)[j]),
        None => None,
    }
}

pub open spec fn bias_view(bias: Option<Tensor>) -> Option<TensorView> {
    match bias {
        Some(b) => Some(b@),
        None => None,
    }
}

/// Why a quantized matrix product is rejected, if it is. The input is a
/// matrix of 32-bit floating-point elements with `k` columns; the weights
/// are a byte matrix with one row per output channel and `k / 2` columns;
/// the scales, and the bias if there is one, have one 32-bit floating-point
/// element per output channel.
pub open spec fn int4_refusal(
    input: TensorView,
    weight: TensorView,
    scales: TensorView,
    bias: Option<TensorView>,
) -> Option<TensorError> {
    if input.dtype != DType::F32 || weight.dtype != DType::I8 || scales.dtype != DType::F32 || (
    bias matches Some(b) && b.dtype != DType::F32) {
        Some(TensorError::DType)
    } else if input.shape.len() != 2 || weight.shape.len() != 2 {
        Some(TensorError::Rank)
    } else if weight.shape[1] != input.shape[1] / 2 || scales.numel() != weight.shape[0] || (
    bias matches Some(b) && b.numel() != weight.shape[0]) {
        Some(TensorError::ShapeMismatch)
    } else if input.shape[0] * weight.shape[0] * 4 > usize::MAX {
        Some(TensorError::TooLarge)
    } else {
        None
    }
}

/// `next` is `prev` after the quantized product `out` was added to it: one
/// new buffer in which the element of row `i` and column `j` is a quantized
/// dot product of row `i` of the input and row `j` of the weights under the
/// scale of channel `j`, plus the bias of channel `j` if there is a bias;
/// and one new dense tensor over it, a leaf that tracks no gradient.
pub open spec fn quantized(
    prev: State,
    input: TensorView,
    weight: TensorView,
    scales: TensorView,
    bias: Option<TensorView>,
    next: State,
    out: TensorView,
) -> bool {
    let m = input.shape[0] as int;
    let k = input.shape[1] as int;
    let n = weight.shape[0] as int;
    &&& out == TensorView::dense(
        prev.len(),
        seq![input.shape[0], weight.shape[0]],
        prev.pool.len(),
        DType::F32,
        false,
    )
    &&& next == prev.with_buffer(encode(next.values(out))).with_entry(None)
    &&& next.values(out).len() == m * n
    &&& forall|i: int, j: int|
        0 <= i < m && 0 <= j < n ==> is_channel_value(
            prev,
            row(prev.values(input), k, i),
            packed_row(prev.octets(weight), k / 2, j),
            prev.values(scales)[j],
            bias_at(prev, bias, j),
            #[trigger] element(next.values(out), n, i, j),
        )
}

/// The product of an input matrix with 4-bit quantized weights, as a new
/// dense tensor. It records no node. Rejected, with nothing changed, as
/// `int4_refusal` says.
pub fn matmul_int4<A: Fn(ScalarOp) -> u32>(
    rt: &mut Runtime<A>,
    input: &Tensor,
    weight_packed: &Tensor,
    scales: &Tensor,
    bias: &Option<Tensor>,
) -> (r: Result<Tensor, TensorError>)
    requires
        old(rt)@.wf(),
        old(rt)@.holds(input@),
        old(rt)@.holds(weight_packed@),
        old(rt)@.holds(scales@),
        bias matches Some(b) ==> old(rt)@.holds(b@),
    ensures
        match int4_refusal(input@, weight_packed@, scales@, bias_view(*bias)) {
            Some(e) => r == Err::<Tensor, TensorError>(e),
            None => r is Ok,
        },
        r is Err ==> final(rt)@ == old(rt)@,
        r matches Ok(out) ==> quantized(
            old(rt)@,
            input@,
            weight_packed@,
            scales@,
            bias_view(*bias),
            final(rt)@,
            out@,
        ),
        r matches Ok(out) ==> final(rt)@.holds(out@),
        final(rt)@.wf(),
        final(rt)@.grows_from(old(rt)@),
{
    let bias_is_f32: bool = match bias {
        Some(b) => b.dtype() == DType::F32,
        None => true,
    };
    if input.dtype() != DType::F32 || weight_packed.dtype() != DType::I8 || scales.dtype()
        != DType::F32 || !bias_is_f32 {
        return Err(TensorError::DType);
    }
    if input.shape().len() != 2 || weight_packed.shape().len() != 2 {
        return Err(TensorError::Rank);
    }
    let m: usize = input.shape()[0];
    let k: usize = input.shape()[1];
    let n: usize = weight_packed.shape()[0];
    let half: usize = k / 2;
    let bias_fits: bool = match bias {
        Some(b) => b.numel() == n,
        None => true,
    };
    if weight_packed.shape()[1] != half || scales.numel() != n || !bias_fits {
        return Err(TensorError::ShapeMismatch);
    }
    let total: usize = match m.checked_mul(n) {
        Some(t) => t,
        None => {
            proof {
                assert(m * n * 4 > usize::MAX) by (nonlinear_arith)
                    requires
                        m * n > usize::MAX,
                ;
            }
            return Err(TensorError::TooLarge);
        },
    };
    if total.checked_mul(4).is_none() {
        return Err(TensorError::TooLarge);
    }
    let ghost before = rt@;
    let ghost a = before.values(input@);
    let ghost w = before.octets(weight_packed@);
    let ghost sc = before.values(scales@);
    let ghost bv = bias_view(*bias);
    let mut words: Vec<u32> = Vec::with_capacity(total);
    let mut i: usize = 0;
    while i < m
        invariant
            i <= m,
            rt@ == before,
            before.wf(),
            before.holds(input@),
            before.holds(weight_packed@),
            before.holds(scales@),
            bias matches Some(b) ==> before.holds(b@) && b@.dtype == DType::F32 && b@.numel() == n,
            bv == bias_view(*bias),
            input@.dtype == DType::F32,
            weight_packed@.dtype == DType::I8,
            scales@.dtype == DType::F32,
            input@.shape.len() == 2,
            weight_packed@.shape.len() == 2,
            m == input@.shape[0],
            k == input@.shape[1],
            n == weight_packed@.shape[0],
            half == k / 2,
            half == weight_packed@.shape[1],
            scales@.numel() == n,
            a == before.values(input@),
            w == before.octets(weight_packed@),
            sc == before.values(scales@),
            m * n <= usize::MAX,
            words.len() == i * n,
            forall|q: int|
                0 <= q < i * n ==> is_channel_value(
                    before,
                    row(a, k as int, q / (n as int)),
                    packed_row(w, k as int / 2, q % (n as int)),
                    sc[q % (n as int)],
                    bias_at(before, bv, q % (n as int)),
                    #[trigger] words[q],
                ),
        decreases m - i,
    {
        let mut j: usize = 0;
        while j < n
            invariant
                i < m,
                j <= n,
                rt@ == before,
                before.wf(),
                before.holds(input@),
                before.holds(weight_packed@),
                before.holds(scales@),
                bias matches Some(b) ==> before.holds(b@) && b@.dtype == DType::F32 && b@.numel()
                    == n,
                bv == bias_view(*bias),
                input@.dtype == DType::F32,
                weight_packed@.dtype == DType::I8,
                scales@.dtype == DType::F32,
                input@.shape.len() == 2,
                weight_packed@.shape.len() == 2,
                m == input@.shape[0],
                k == input@.shape[1],
                n == weight_packed@.shape[0],
                half == k / 2,
                half == weight_packed@.shape[1],
                scales@.numel() == n,
                a == before.values(input@),
                w == before.octets(weight_packed@),
                sc == before.values(scales@),
                m * n <= usize::MAX,
                words.len() == i * n + j,
                forall|q: int|
                    0 <= q < i * n + j ==> is_channel_value(
                        before,
                        row(a, k as int, q / (n as int)),
                        packed_row(w, k as int / 2, q % (n as int)),
                        sc[q % (n as int)],
                        bias_at(before, bv, q % (n as int)),
                        #[trigger] words[q],
                    ),
            decreases n - j,
        {
            let scale: u32 = rt.word_of(scales, n, j);
            let ghost xs = row(a, k as int, i as int);
            let ghost ws = packed_row(w, half as int, j as int);
            let ghost mut sums: Seq<u32> = seq![ZERO];
            let mut sum: u32 = ZERO;
            let mut p: usize = 0;
            while p < half
                invariant
                    i < m,
                    j < n,
                    p <= half,
                    rt@ == before,
                    before.wf(),
                    before.holds(input@),
                    before.holds(weight_packed@),
                    input@.dtype == DType::F32,
                    weight_packed@.dtype == DType::I8,
                    input@.shape.len() == 2,
                    weight_packed@.shape.len() == 2,
                    m == input@.shape[0],
                    k == input@.shape[1],
                    n == weight_packed@.shape[0],
                    half == k / 2,
                    half == weight_packed@.shape[1],
                    a == before.values(input@),
                    w == before.octets(weight_packed@),
                    xs == row(a, k as int, i as int),
                    ws == packed_row(w, half as int, j as int),
                    sums.len() == p + 1,
                    sums[0] == ZERO,
                    sum == sums[p as int],
                    forall|t: int|
                        0 <= t < p ==> packed_step(
                            before,
                            sums[t],
                            xs[2 * t],
                            xs[2 * t + 1],
                            #[trigger] ws[t],
                            scale,
                            sums[t + 1],
                        ),
                decreases half - p,
            {
                let packed: u8 = rt.octet(weight_packed, j, p);
                let low: u8 = packed & 0x0f;
                let high: u8 = (packed >> 4) & 0x0f;
                proof {
                    assert(packed & 0x0f < 16) by (bit_vector);
                    assert((packed >> 4) & 0x0f < 16) by (bit_vector);
                }
                let lo: u32 = rt.compute(ScalarOp::Mul(center(low), scale));
                let hi: u32 = rt.compute(ScalarOp::Mul(center(high), scale));
                let x0: u32 = rt.entry(input, i, 2 * p);
                let x1: u32 = rt.entry(input, i, 2 * p + 1);
                let t0: u32 = rt.compute(ScalarOp::Mul(x0, lo));
                let t1: u32 = rt.compute(ScalarOp::Mul(x1, hi));
                let pair: u32 = rt.compute(ScalarOp::Add(t0, t1));
                let next: u32 = rt.compute(ScalarOp::Add(sum, pair));
                proof {
                    assert(packed_step(
                        before,
                        sum,
                        xs[2 * p],
                        xs[2 * p + 1],
                        ws[p as int],
                        scale,
                        next,
                    ));
                    sums = sums.push(next);
                }
                sum = next;
                p = p + 1;
            }
            let value: u32 = match bias {
                Some(b) => {
                    let c: u32 = rt.word_of(b, n, j);
                    rt.compute(ScalarOp::Add(sum, c))
                },
                None => sum,
            };
            proof {
                let q = i * n + j;
                assert(q == (n as int) * (i as int) + (j as int)) by (nonlinear_arith)
                    requires
                        q == i * n + j,
                ;
                lemma_fundamental_div_mod_converse(q, n as int, i as int, j as int);
                assert(is_packed_dot(before, xs, ws, scale, sum));
                assert(biased(before, sum, bias_at(before, bv, j as int), value));
                assert(is_channel_value(
                    before,
                    xs,
                    ws,
                    scale,
                    bias_at(before, bv, j as int),
                    value,
                ));
                assert((i + 1) * n == i * n + n) by (nonlinear_arith);
                assert(i * n + n <= m * n) by (nonlinear_arith)
                    requires
                        i < m,
                ;
            }
            words.push(value);
            j = j + 1;
        }
        proof {
            assert((i + 1) * n == i * n + n) by (nonlinear_arith);
        }
        i = i + 1;
    }
    let storage = Storage::from_words(&words);
    let shape: Vec<usize> = vec![m, n];
    proof {
        assert(shape@ =~= seq![m, n]);
        lemma_matrix_shape(m, n);
    }
    let out = Tensor::install(rt, storage, shape, DType::F32, false, None);
    proof {
        lemma_dense_values(rt@, out@, words@);
        assert forall|i: int, j: int| 0 <= i < m && 0 <= j < n implies is_channel_value(
            before,
            row(a, k as int, i),
            packed_row(w, k as int / 2, j),
            sc[j],
            bias_at(before, bv, j),
            #[trigger] element(words@, n as int, i, j),
        ) by {
            lemma_matrix_index(m as int, n as int, i, j);
            assert(is_channel_value(
                before,
                row(a, k as int, (i * n + j) / (n as int)),
                packed_row(w, k as int / 2, (i * n + j) % (n as int)),
                sc[(i * n + j) % (n as int)],
                bias_at(before, bv, (i * n + j) % (n as int)),
                words[i * n + j],
            ));
        }
    }
    Ok(out)
}

} // verus!
