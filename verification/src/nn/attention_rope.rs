//! Rotary position embedding.
use vstd::prelude::*;
use crate::error::TensorError;
use crate::runtime::Runtime;
use crate::runtime::State;
use crate::runtime::lemma_dense_values;
use crate::scalar::ScalarOp;
use crate::tensor::DType;
use crate::tensor::Storage;
use crate::tensor::Tensor;
use crate::tensor::TensorView;
use crate::tensor::storage::encode;

verus! {

/// `(o1, o2)` is the pair `(x1, x2)` rotated by the angle with cosine `c`
/// and sine `s`: `o1 = x1 c - x2 s` and `o2 = x1 s + x2 c`, every operation
/// an answer of the scalar unit.
pub open spec fn rotated(
    st: State,
    x1: u32,
    x2: u32,
    c: u32,
    s: u32,
    o1: u32,
    o2: u32,
) -> bool {
    exists|a: u32, b: u32, d: u32, e: u32|
        {
            &&& st.yields(ScalarOp::Mul(x1, c), a)
            &&& st.yields(ScalarOp::Mul(x2, s), b)
            &&& st.yields(ScalarOp::Sub(a, b), o1)
            &&& st.yields(ScalarOp::Mul(x1, s), d)
            &&& st.yields(ScalarOp::Mul(x2, c), e)
            &&& st.yields(ScalarOp::Add(d, e), o2)
        }
}

/// Why a rotation is rejected, if it is: a tensor does not hold 32-bit
/// floating-point elements; or else the elements do not pair up, or there
/// are fewer cosines or sines than pairs.
pub open spec fn rope_refusal(x: TensorView, cos: TensorView, sin: TensorView) -> Option<TensorError> {
    if x.dtype != DType::F32 || cos.dtype != DType::F32 || sin.dtype != DType::F32 {
        Some(TensorError::DType)
    } else if x.numel() % 2 != 0 || cos.numel() < x.numel() / 2 || sin.numel() < x.numel() / 2 {
        Some(TensorError::ShapeMismatch)
    } else {
        None
    }
}

/// `next` is `prev` after the rotation `out` of `x` was added to it: one
/// new buffer in which the `i`-th pair of elements is the `i`-th pair of
/// `x` rotated by the `i`-th cosine and sine, and one new dense leaf over
/// it, of the shape of `x`.
pub open spec fn embedded(
    prev: State,
    x: TensorView,
    cos: TensorView,
    sin: TensorView,
    next: State,
    out: TensorView,
) -> bool {
    &&& out == TensorView::dense(prev.len(), x.shape, prev.pool.len(), DType::F32, false)
    &&& next == prev.with_buffer(encode(next.values(out))).with_entry(None)
    &&& next.values(out).len() == x.numel()
    &&& forall|i: int|
        0 <= i < x.numel() / 2 ==> rotated(
            prev,
            prev.values(x)[2 * i],
            prev.values(x)[2 * i + 1],
            #[trigger] prev.values(cos)[i],
            prev.values(sin)[i],
            next.values(out)[2 * i],
            next.values(out)[2 * i + 1],
        )
}

/// Rotates the consecutive pairs of elements of `x` by the angles whose
/// cosines and sines are given, pair `i` by angle `i`. Rejected, with
/// nothing changed, as `rope_refusal` says.
pub fn rope<A: Fn(ScalarOp) -> u32>(
    rt: &mut Runtime<A>,
    x: &Tensor,
    freqs_cos: &Tensor,
    freqs_sin: &Tensor,
) -> (r: Result<Tensor, TensorError>)
    requires
        old(rt)@.wf(),
        old(rt)@.holds(x@),
        old(rt)@.holds(freqs_cos@),
        old(rt)@.holds(freqs_sin@),
    ensures
        match rope_refusal(x@, freqs_cos@, freqs_sin@) {
            Some(e) => r == Err::<Tensor, TensorError>(e),
            None => r is Ok,
        },
        r is Err ==> final(rt)@ == old(rt)@,
        r matches Ok(out) ==> embedded(old(rt)@, x@, freqs_cos@, freqs_sin@, final(rt)@, out@),
        r matches Ok(out) ==> final(rt)@.holds(out@),
        final(rt)@.wf(),
        final(rt)@.grows_from(old(rt)@),
{
    if x.dtype() != DType::F32 || freqs_cos.dtype() != DType::F32 || freqs_sin.dtype()
        != DType::F32 {
        return Err(TensorError::DType);
    }
    let n: usize = x.numel();
    let n_cos: usize = freqs_cos.numel();
    let n_sin: usize = freqs_sin.numel();
    let pairs: usize = n / 2;
    if n % 2 != 0 || n_cos < pairs || n_sin < pairs {
        return Err(TensorError::ShapeMismatch);
    }
    let ghost before = rt@;
    let ghost xs = before.values(x@);
    let ghost cs = before.values(freqs_cos@);
    let ghost ss = before.values(freqs_sin@);
    let mut words: Vec<u32> = Vec::with_capacity(n);
    let mut i: usize = 0;
    while i < pairs
        invariant
            i <= pairs,
            pairs == n / 2,
            n % 2 == 0,
            n == x@.numel(),
            n_cos == freqs_cos@.numel(),
            n_sin == freqs_sin@.numel(),
            pairs <= n_cos,
            pairs <= n_sin,
            rt@ == before,
            before.wf(),
            before.holds(x@),
            before.holds(freqs_cos@),
            before.holds(freqs_sin@),
            x@.dtype == DType::F32,
            freqs_cos@.dtype == DType::F32,
            freqs_sin@.dtype == DType::F32,
            xs == before.values(x@),
            cs == before.values(freqs_cos@),
            ss == before.values(freqs_sin@),
            words.len() == 2 * i,
            forall|k: int|
                0 <= k < i ==> rotated(
                    before,
                    xs[2 * k],
                    xs[2 * k + 1],
                    #[trigger] cs[k],
                    ss[k],
                    words[2 * k],
                    words[2 * k + 1],
                ),
        decreases pairs - i,
    {
        let x1: u32 = rt.word_of(x, n, 2 * i);
        let x2: u32 = rt.word_of(x, n, 2 * i + 1);
        let c: u32 = rt.word_of(freqs_cos, n_cos, i);
        let s: u32 = rt.word_of(freqs_sin, n_sin, i);
        let a: u32 = rt.compute(ScalarOp::Mul(x1, c));
        let b: u32 = rt.compute(ScalarOp::Mul(x2, s));
        let o1: u32 = rt.compute(ScalarOp::Sub(a, b));
        let d: u32 = rt.compute(ScalarOp::Mul(x1, s));
        let e: u32 = rt.compute(ScalarOp::Mul(x2, c));
        let o2: u32 = rt.compute(ScalarOp::Add(d, e));
        let ghost earlier = words@;
        words.push(o1);
        words.push(o2);
        proof {
            assert(rotated(before, x1, x2, c, s, o1, o2));
            assert forall|k: int| 0 <= k < i + 1 implies rotated(
                before,
                xs[2 * k],
                xs[2 * k + 1],
                #[trigger] cs[k],
                ss[k],
                words[2 * k],
                words[2 * k + 1],
            ) by {
                if k < i {
                    assert(words[2 * k] == earlier[2 * k]);
                    assert(words[2 * k + 1] == earlier[2 * k + 1]);
                }
            }
        }
        i = i + 1;
    }
    let storage = Storage::from_words(&words);
    let out = Tensor::install(rt, storage, x.shape_copy(), DType::F32, false, None);
    proof {
        lemma_dense_values(rt@, out@, words@);
    }
    Ok(out)
}

/// Tables of cosines and sines, kept to rotate many tensors by the same
/// angles.
pub struct SimpleRoPE {
    cos: Tensor,
    sin: Tensor,
}

impl SimpleRoPE {
    pub closed spec fn cos(&self) -> TensorView {
        self.cos@
    }

    pub closed spec fn sin(&self) -> TensorView {
        self.sin@
    }

    /// Keeps the two tables.
    pub fn new(cos: Tensor, sin: Tensor) -> (tables: SimpleRoPE)
        ensures
            tables.cos() == cos@,
            tables.sin() == sin@,
    {
        SimpleRoPE { cos, sin }
    }

    /// Rotates `x` by the angles of the tables, as `rope` does.
    pub fn apply<A: Fn(ScalarOp) -> u32>(&self, rt: &mut Runtime<A>, x: &Tensor) -> (r: Result<
        Tensor,
        TensorError,
    >)
        requires
            old(rt)@.wf(),
            old(rt)@.holds(x@),
            old(rt)@.holds(self.cos()),
            old(rt)@.holds(self.sin()),
        ensures
            match rope_refusal(x@, self.cos(), self.sin()) {
                Some(e) => r == Err::<Tensor, TensorError>(e),
                None => r is Ok,
            },
            r is Err ==> final(rt)@ == old(rt)@,
            r matches Ok(out) ==> embedded(old(rt)@, x@, self.cos(), self.sin(), final(rt)@, out@),
            r matches Ok(out) ==> final(rt)@.holds(out@),
            final(rt)@.wf(),
            final(rt)@.grows_from(old(rt)@),
    {
        rope(rt, x, &self.cos, &self.sin)
    }
}

} // verus!
