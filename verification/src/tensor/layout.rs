//! Index arithmetic of shaped, strided views.
use vstd::prelude::*;
use vstd::arithmetic::div_mod::lemma_fundamental_div_mod;
use vstd::arithmetic::div_mod::lemma_fundamental_div_mod_converse;
use vstd::arithmetic::div_mod::lemma_mod_bound;

verus! {

/// The product of the dimension sizes; 1 for the empty shape.
pub open spec fn product(dims: Seq<usize>) -> nat
    decreases dims.len(),
{
    if dims.len() == 0 {
        1
    } else {
        dims[0] as nat * product(dims.skip(1))
    }
}

/// Every suffix of the shape has a product that fits a machine word, so that
/// element counts and row-major strides are representable.
pub open spec fn shape_fits(shape: Seq<usize>) -> bool {
    forall|k: int| 0 <= k <= shape.len() ==> #[trigger] product(shape.skip(k)) <= usize::MAX
}

/// The row-major stride of dimension `k`: the number of elements spanned by
/// one step along it, which is the product of all later dimensions.
pub open spec fn row_major_stride(shape: Seq<usize>, k: int) -> nat {
    product(shape.skip(k + 1))
}

/// The default strides of a shape.
pub open spec fn row_major(shape: Seq<usize>) -> Seq<usize> {
    Seq::new(shape.len(), |k: int| row_major_stride(shape, k) as usize)
}

/// A layout is contiguous when every stride is the row-major one.
pub open spec fn contiguous(shape: Seq<usize>, strides: Seq<usize>) -> bool {
    &&& strides.len() == shape.len()
    &&& forall|k: int| 0 <= k < shape.len() ==> #[trigger] strides[k] == row_major_stride(shape, k)
}

/// Distance, in elements, from the start of a view to the `i`-th element in
/// row-major order of its logical indices.
pub open spec fn locate(shape: Seq<usize>, strides: Seq<usize>, i: int) -> int
    decreases shape.len(),
{
    if shape.len() == 0 || strides.len() == 0 {
        0
    } else {
        let inner = product(shape.skip(1)) as int;
        if inner == 0 {
            0
        } else {
            (i / inner) * strides[0] + locate(shape.skip(1), strides.skip(1), i % inner)
        }
    }
}

/// Distance from the start of a view to its farthest element, for a view
/// without empty dimensions.
pub open spec fn span(shape: Seq<usize>, strides: Seq<usize>) -> int
    decreases shape.len(),
{
    if shape.len() == 0 || strides.len() == 0 {
        0
    } else {
        (shape[0] - 1) * strides[0] + span(shape.skip(1), strides.skip(1))
    }
}

/// Swaps the last two entries of a sequence of at least two.
pub open spec fn swap_last_two(s: Seq<usize>) -> Seq<usize> {
    let n = s.len() as int;
    s.update(n - 2, s[n - 1]).update(n - 1, s[n - 2])
}

pub proof fn lemma_product_unfold(s: Seq<usize>, k: int)
    requires
        0 <= k < s.len(),
    ensures
        product(s.skip(k)) == s[k] as nat * product(s.skip(k + 1)),
{
    assert(s.skip(k).skip(1) =~= s.skip(k + 1));
}

/// A non-zero product has only non-zero factors, and every suffix product
/// is non-zero and bounded by the whole.
pub proof fn lemma_product_positive(s: Seq<usize>, k: int)
    requires
        product(s) > 0,
        0 <= k <= s.len(),
    ensures
        0 < product(s.skip(k)) <= product(s),
        k < s.len() ==> s[k] > 0,
    decreases k,
{
    if k == 0 {
        assert(s.skip(0) =~= s);
        if s.len() > 0 {
            assert(s[0] > 0) by (nonlinear_arith)
                requires
                    s[0] as nat * product(s.skip(1)) > 0,
            ;
        }
    } else {
        lemma_product_positive(s, k - 1);
        lemma_product_unfold(s, k - 1);
        let a = s[k - 1] as nat;
        let b = product(s.skip(k));
        assert(0 < b <= a * b) by (nonlinear_arith)
            requires
                a * b > 0,
        ;
        if k < s.len() {
            lemma_product_unfold(s, k);
            let c = s[k] as nat;
            let d = product(s.skip(k + 1));
            assert(c > 0) by (nonlinear_arith)
                requires
                    c * d > 0,
            ;
        }
    }
}

/// A non-zero product has no empty dimension.
pub proof fn lemma_positive_dims(s: Seq<usize>)
    requires
        product(s) > 0,
    ensures
        forall|k: int| 0 <= k < s.len() ==> #[trigger] s[k] > 0,
{
    assert forall|k: int| 0 <= k < s.len() implies #[trigger] s[k] > 0 by {
        lemma_product_positive(s, k);
    }
}

pub proof fn lemma_contiguous_suffix(shape: Seq<usize>, strides: Seq<usize>)
    requires
        contiguous(shape, strides),
        shape.len() > 0,
    ensures
        contiguous(shape.skip(1), strides.skip(1)),
{
    assert forall|k: int| 0 <= k < shape.skip(1).len() implies #[trigger] strides.skip(1)[k]
        == row_major_stride(shape.skip(1), k) by {
        assert(strides[k + 1] == row_major_stride(shape, k + 1));
        assert(shape.skip(1).skip(k + 1) =~= shape.skip(k + 2));
    }
}

/// Within a view no element lies farther from the start than the span.
pub proof fn lemma_locate_bound(shape: Seq<usize>, strides: Seq<usize>, i: int)
    requires
        shape.len() == strides.len(),
        0 <= i < product(shape),
    ensures
        0 <= locate(shape, strides, i) <= span(shape, strides),
    decreases shape.len(),
{
    if shape.len() > 0 {
        let inner = product(shape.skip(1)) as int;
        let d = shape[0] as int;
        let s0 = strides[0] as int;
        assert(inner > 0 && d > 0) by (nonlinear_arith)
            requires
                0 <= i < d * inner,
                d >= 0,
                inner >= 0,
        ;
        lemma_fundamental_div_mod(i, inner);
        lemma_mod_bound(i, inner);
        let q = i / inner;
        assert(0 <= q <= d - 1) by (nonlinear_arith)
            requires
                0 <= i < d * inner,
                inner > 0,
                i == inner * q + i % inner,
                0 <= i % inner < inner,
        ;
        lemma_locate_bound(shape.skip(1), strides.skip(1), i % inner);
        assert(0 <= q * s0 <= (d - 1) * s0) by (nonlinear_arith)
            requires
                0 <= q <= d - 1,
                s0 >= 0,
        ;
    }
}

/// In a contiguous view the `i`-th element lies `i` elements from the start.
pub proof fn lemma_locate_contiguous(shape: Seq<usize>, strides: Seq<usize>, i: int)
    requires
        contiguous(shape, strides),
        0 <= i < product(shape),
    ensures
        locate(shape, strides, i) == i,
    decreases shape.len(),
{
    if shape.len() > 0 {
        let inner = product(shape.skip(1)) as int;
        let d = shape[0] as int;
        assert(inner > 0) by (nonlinear_arith)
            requires
                0 <= i < d * inner,
                d >= 0,
                inner >= 0,
        ;
        assert(strides[0] == row_major_stride(shape, 0));
        lemma_contiguous_suffix(shape, strides);
        lemma_mod_bound(i, inner);
        lemma_locate_contiguous(shape.skip(1), strides.skip(1), i % inner);
        lemma_fundamental_div_mod(i, inner);
        assert((i / inner) * inner == inner * (i / inner)) by (nonlinear_arith);
    } else {
        assert(product(shape) == 1);
    }
}

/// In a matrix view, element `(r, c)` lies `r` row strides and `c` column
/// strides from the start.
pub proof fn lemma_locate_matrix(shape: Seq<usize>, strides: Seq<usize>, r: int, c: int)
    requires
        shape.len() == 2,
        strides.len() == 2,
        0 <= r < shape[0],
        0 <= c < shape[1],
    ensures
        product(shape) == shape[0] * shape[1],
        0 <= r * shape[1] + c < product(shape),
        locate(shape, strides, r * shape[1] + c) == r * strides[0] + c * strides[1],
{
    let n = shape[1] as int;
    let m = shape[0] as int;
    let tail = shape.skip(1);
    assert(tail.len() == 1 && tail[0] == shape[1]);
    assert(tail.skip(1).len() == 0);
    assert(product(tail.skip(1)) == 1);
    assert(product(tail) == n) by {
        assert(product(tail) == tail[0] as nat * product(tail.skip(1)));
    }
    assert(product(shape) == m * n) by {
        assert(product(shape) == shape[0] as nat * product(shape.skip(1)));
    }
    let i = r * n + c;
    assert(0 <= i < m * n) by (nonlinear_arith)
        requires
            0 <= r < m,
            0 <= c < n,
            i == r * n + c,
    ;
    assert(i == n * r + c) by (nonlinear_arith)
        requires
            i == r * n + c,
    ;
    lemma_fundamental_div_mod_converse(i, n, r, c);
    assert(i / n == r && i % n == c);
    let st = strides.skip(1);
    assert(st[0] == strides[1]);
    assert(locate(tail.skip(1), st.skip(1), 0) == 0);
    assert(locate(tail, st, c) == (c / 1) * st[0] + locate(tail.skip(1), st.skip(1), c % 1));
    assert(locate(shape, strides, i) == (i / n) * strides[0] + locate(tail, st, i % n));
}

/// Whether every suffix product of `shape` fits a machine word.
pub fn fits(shape: &[usize]) -> (ok: bool)
    ensures
        ok == shape_fits(shape@),
{
    let mut acc: usize = 1;
    let mut k: usize = shape.len();
    proof {
        assert(shape@.skip(k as int).len() == 0);
    }
    while k > 0
        invariant
            k <= shape.len(),
            acc == product(shape@.skip(k as int)),
            forall|j: int| k <= j <= shape.len() ==> #[trigger] product(shape@.skip(j)) <= usize::MAX,
        decreases k,
    {
        k = k - 1;
        proof {
            lemma_product_unfold(shape@, k as int);
            assert(acc * shape[k as int] == shape[k as int] * acc) by (nonlinear_arith);
        }
        match acc.checked_mul(shape[k]) {
            Some(next) => {
                acc = next;
            },
            None => {
                return false;
            },
        }
    }
    true
}

/// The number of elements of a shape.
pub fn count(shape: &[usize]) -> (n: usize)
    requires
        shape_fits(shape@),
    ensures
        n == product(shape@),
{
    let mut acc: usize = 1;
    let mut k: usize = shape.len();
    proof {
        assert(shape@.skip(k as int).len() == 0);
    }
    while k > 0
        invariant
            k <= shape.len(),
            shape_fits(shape@),
            acc == product(shape@.skip(k as int)),
        decreases k,
    {
        k = k - 1;
        proof {
            lemma_product_unfold(shape@, k as int);
            assert(product(shape@.skip(k as int)) <= usize::MAX);
        }
        acc = shape[k] * acc;
    }
    proof {
        assert(shape@.skip(0) =~= shape@);
    }
    acc
}

/// The row-major strides of a shape.
pub fn row_major_strides(shape: &[usize]) -> (strides: Vec<usize>)
    requires
        shape_fits(shape@),
    ensures
        strides@ == row_major(shape@),
        contiguous(shape@, strides@),
{
    let n: usize = shape.len();
    let mut strides: Vec<usize> = vec![0usize; n];
    let mut acc: usize = 1;
    let mut k: usize = n;
    proof {
        assert(shape@.skip(k as int).len() == 0);
    }
    while k > 0
        invariant
            k <= n,
            n == shape.len(),
            strides.len() == n,
            shape_fits(shape@),
            acc == product(shape@.skip(k as int)),
            forall|j: int| k <= j < n ==> #[trigger] strides[j] == row_major_stride(shape@, j),
        decreases k,
    {
        k = k - 1;
        strides[k] = acc;
        proof {
            lemma_product_unfold(shape@, k as int);
            assert(product(shape@.skip(k as int)) <= usize::MAX);
        }
        acc = shape[k] * acc;
    }
    proof {
        assert(strides@ =~= row_major(shape@));
    }
    strides
}

/// Whether `strides` are the row-major strides of `shape`.
pub fn is_row_major(shape: &[usize], strides: &[usize]) -> (ok: bool)
    requires
        shape_fits(shape@),
    ensures
        ok == contiguous(shape@, strides@),
{
    if shape.len() != strides.len() {
        return false;
    }
    let n: usize = shape.len();
    let mut acc: usize = 1;
    let mut k: usize = n;
    proof {
        assert(shape@.skip(k as int).len() == 0);
    }
    while k > 0
        invariant
            k <= n,
            n == shape.len(),
            n == strides.len(),
            shape_fits(shape@),
            acc == product(shape@.skip(k as int)),
            forall|j: int| k <= j < n ==> #[trigger] strides[j] == row_major_stride(shape@, j),
        decreases k,
    {
        k = k - 1;
        if strides[k] != acc {
            return false;
        }
        proof {
            lemma_product_unfold(shape@, k as int);
            assert(product(shape@.skip(k as int)) <= usize::MAX);
        }
        acc = shape[k] * acc;
    }
    true
}

/// The span of a view without empty dimensions, or `None` when it does not
/// fit a machine word.
pub fn checked_span(shape: &[usize], strides: &[usize]) -> (r: Option<usize>)
    requires
        shape.len() == strides.len(),
        forall|k: int| 0 <= k < shape.len() ==> #[trigger] shape[k] > 0,
    ensures
        r matches Some(s) ==> s == span(shape@, strides@),
        r is None ==> span(shape@, strides@) > usize::MAX,
{
    let n: usize = shape.len();
    let mut acc: usize = 0;
    let mut k: usize = n;
    proof {
        assert(shape@.skip(k as int).len() == 0);
    }
    while k > 0
        invariant
            k <= n,
            n == shape.len(),
            n == strides.len(),
            forall|j: int| 0 <= j < shape.len() ==> #[trigger] shape[j] > 0,
            acc == span(shape@.skip(k as int), strides@.skip(k as int)),
        decreases k,
    {
        k = k - 1;
        proof {
            lemma_span_unfold(shape@, strides@, k as int);
            lemma_span_nonnegative(shape@.skip(k + 1), strides@.skip(k + 1));
            assert(shape[k as int] > 0);
            assert((shape[k as int] - 1) * strides[k as int] >= 0) by (nonlinear_arith)
                requires
                    shape[k as int] - 1 >= 0,
                    strides[k as int] >= 0,
            ;
        }
        let step = match (shape[k] - 1).checked_mul(strides[k]) {
            Some(v) => v,
            None => {
                proof {
                    lemma_span_prefix(shape@, strides@, k as int);
                }
                return None;
            },
        };
        acc = match acc.checked_add(step) {
            Some(v) => v,
            None => {
                proof {
                    lemma_span_prefix(shape@, strides@, k as int);
                }
                return None;
            },
        };
    }
    proof {
        assert(shape@.skip(0) =~= shape@);
        assert(strides@.skip(0) =~= strides@);
    }
    Some(acc)
}

/// The distance from the start of a view to its `i`-th element.
pub fn position(shape: &[usize], strides: &[usize], numel: usize, i: usize) -> (pos: usize)
    requires
        shape.len() == strides.len(),
        numel == product(shape@),
        i < numel,
        span(shape@, strides@) <= usize::MAX,
    ensures
        pos == locate(shape@, strides@, i as int),
        pos <= span(shape@, strides@),
{
    let n: usize = shape.len();
    let mut inner: usize = numel;
    let mut rem: usize = i;
    let mut pos: usize = 0;
    let mut k: usize = 0;
    proof {
        assert(shape@.skip(0) =~= shape@);
        assert(strides@.skip(0) =~= strides@);
    }
    while k < n
        invariant
            k <= n,
            n == shape.len(),
            n == strides.len(),
            product(shape@) > 0,
            inner == product(shape@.skip(k as int)),
            rem < inner,
            pos + locate(shape@.skip(k as int), strides@.skip(k as int), rem as int) == locate(
                shape@,
                strides@,
                i as int,
            ),
            pos + span(shape@.skip(k as int), strides@.skip(k as int)) <= span(shape@, strides@),
            span(shape@, strides@) <= usize::MAX,
        decreases n - k,
    {
        let d: usize = shape[k];
        let ghost tail = shape@.skip(k + 1);
        let ghost rest = strides@.skip(k + 1);
        proof {
            lemma_product_unfold(shape@, k as int);
            lemma_product_positive(shape@, k as int);
            lemma_product_positive(shape@, k + 1);
            assert(shape@.skip(k as int).skip(1) =~= tail);
            assert(strides@.skip(k as int).skip(1) =~= rest);
            lemma_positive_dims(shape@);
            lemma_span_prefix(shape@, strides@, k + 1);
        }
        let below: usize = inner / d;
        proof {
            let t = product(tail) as int;
            assert(inner == d * t);
            assert((d * t) / (d as int) == t) by (nonlinear_arith)
                requires
                    d > 0,
                    t >= 0,
            ;
            assert(below == t);
            lemma_fundamental_div_mod(rem as int, t);
            lemma_mod_bound(rem as int, t);
        }
        let q: usize = rem / below;
        let r: usize = rem % below;
        proof {
            let t = below as int;
            assert(0 <= q <= d - 1) by (nonlinear_arith)
                requires
                    0 <= rem < d * t,
                    t > 0,
                    rem == t * q + r,
                    0 <= r < t,
            ;
            assert(0 <= q * strides[k as int] <= (d - 1) * strides[k as int]) by (nonlinear_arith)
                requires
                    0 <= q <= d - 1,
                    strides[k as int] >= 0,
            ;
            lemma_locate_bound(tail, rest, r as int);
        }
        pos = pos + q * strides[k];
        rem = r;
        inner = below;
        k = k + 1;
    }
    proof {
        assert(shape@.skip(n as int).len() == 0);
    }
    pos
}

pub proof fn lemma_span_unfold(shape: Seq<usize>, strides: Seq<usize>, k: int)
    requires
        shape.len() == strides.len(),
        0 <= k < shape.len(),
    ensures
        span(shape.skip(k), strides.skip(k)) == (shape[k] - 1) * strides[k] + span(
            shape.skip(k + 1),
            strides.skip(k + 1),
        ),
{
    assert(shape.skip(k).skip(1) =~= shape.skip(k + 1));
    assert(strides.skip(k).skip(1) =~= strides.skip(k + 1));
}

pub proof fn lemma_span_nonnegative(shape: Seq<usize>, strides: Seq<usize>)
    requires
        shape.len() == strides.len(),
        forall|k: int| 0 <= k < shape.len() ==> #[trigger] shape[k] > 0,
    ensures
        span(shape, strides) >= 0,
    decreases shape.len(),
{
    if shape.len() > 0 {
        assert forall|k: int| 0 <= k < shape.skip(1).len() implies #[trigger] shape.skip(1)[k]
            > 0 by {
            assert(shape[k + 1] > 0);
        }
        lemma_span_nonnegative(shape.skip(1), strides.skip(1));
        assert(shape[0] > 0);
        assert((shape[0] - 1) * strides[0] >= 0) by (nonlinear_arith)
            requires
                shape[0] - 1 >= 0,
                strides[0] >= 0,
        ;
    }
}

/// The span of a suffix never exceeds the span of the whole view.
pub proof fn lemma_span_prefix(shape: Seq<usize>, strides: Seq<usize>, k: int)
    requires
        shape.len() == strides.len(),
        forall|j: int| 0 <= j < shape.len() ==> #[trigger] shape[j] > 0,
        0 <= k <= shape.len(),
    ensures
        0 <= span(shape.skip(k), strides.skip(k)) <= span(shape, strides),
    decreases k,
{
    assert forall|j: int| 0 <= j < shape.skip(k).len() implies #[trigger] shape.skip(k)[j]
        > 0 by {
        assert(shape[k + j] > 0);
    }
    lemma_span_nonnegative(shape.skip(k), strides.skip(k));
    if k == 0 {
        assert(shape.skip(0) =~= shape);
        assert(strides.skip(0) =~= strides);
    } else {
        lemma_span_prefix(shape, strides, k - 1);
        lemma_span_unfold(shape, strides, k - 1);
        assert(shape[k - 1] > 0);
        assert((shape[k - 1] - 1) * strides[k - 1] >= 0) by (nonlinear_arith)
            requires
                shape[k - 1] - 1 >= 0,
                strides[k - 1] >= 0,
        ;
    }
}

/// Exchanging the last two dimensions changes no suffix product that
/// contains both.
pub proof fn lemma_swap_product(s: Seq<usize>, k: int)
    requires
        s.len() >= 2,
        0 <= k <= s.len() - 2,
    ensures
        product(swap_last_two(s).skip(k)) == product(s.skip(k)),
    decreases s.len() - k,
{
    let n = s.len() as int;
    let t = swap_last_two(s);
    lemma_product_unfold(s, k);
    lemma_product_unfold(t, k);
    if k == n - 2 {
        lemma_product_unfold(s, k + 1);
        lemma_product_unfold(t, k + 1);
        assert(s.skip(n).len() == 0);
        assert(t.skip(n).len() == 0);
        assert(product(s.skip(n)) == 1);
        assert(product(t.skip(n)) == 1);
        assert(s[n - 2] as nat * (s[n - 1] as nat * 1) == s[n - 1] as nat * (s[n - 2] as nat * 1))
            by (nonlinear_arith);
    } else {
        lemma_swap_product(s, k + 1);
    }
}

pub proof fn lemma_swap_fits(s: Seq<usize>)
    requires
        s.len() >= 2,
        shape_fits(s),
    ensures
        shape_fits(swap_last_two(s)),
        product(swap_last_two(s)) == product(s),
{
    let n = s.len() as int;
    let t = swap_last_two(s);
    assert forall|k: int| 0 <= k <= t.len() implies #[trigger] product(t.skip(k))
        <= usize::MAX by {
        if k <= n - 2 {
            lemma_swap_product(s, k);
            assert(product(s.skip(k)) <= usize::MAX);
        } else if k == n - 1 {
            lemma_product_unfold(t, k);
            assert(t.skip(n).len() == 0);
            assert(product(t.skip(n)) == 1);
            assert(t[k] as nat * 1 == t[k] as nat) by (nonlinear_arith);
            assert(product(t.skip(k)) == t[k] as nat);
        } else {
            assert(k == n);
            assert(t.skip(k).len() == 0);
            assert(product(t.skip(k)) == 1);
        }
    }
    lemma_swap_product(s, 0);
    assert(s.skip(0) =~= s);
    assert(t.skip(0) =~= t);
}

/// Exchanging the last two dimensions together with their strides does not
/// change the span.
pub proof fn lemma_swap_span(shape: Seq<usize>, strides: Seq<usize>, k: int)
    requires
        shape.len() >= 2,
        shape.len() == strides.len(),
        0 <= k <= shape.len() - 2,
    ensures
        span(swap_last_two(shape).skip(k), swap_last_two(strides).skip(k)) == span(
            shape.skip(k),
            strides.skip(k),
        ),
    decreases shape.len() - k,
{
    let n = shape.len() as int;
    let sh = swap_last_two(shape);
    let st = swap_last_two(strides);
    lemma_span_unfold(shape, strides, k);
    lemma_span_unfold(sh, st, k);
    if k == n - 2 {
        lemma_span_unfold(shape, strides, k + 1);
        lemma_span_unfold(sh, st, k + 1);
        assert(shape.skip(n).len() == 0);
        assert(sh.skip(n).len() == 0);
    } else {
        lemma_swap_span(shape, strides, k + 1);
    }
}

/// A contiguous view without empty dimensions spans all its elements but
/// the first.
pub proof fn lemma_span_contiguous(shape: Seq<usize>, strides: Seq<usize>)
    requires
        contiguous(shape, strides),
        product(shape) > 0,
    ensures
        span(shape, strides) == product(shape) - 1,
    decreases shape.len(),
{
    if shape.len() > 0 {
        let inner = product(shape.skip(1)) as int;
        let d = shape[0] as int;
        assert(strides[0] == row_major_stride(shape, 0));
        assert(inner > 0 && d > 0) by (nonlinear_arith)
            requires
                d * inner > 0,
                d >= 0,
                inner >= 0,
        ;
        lemma_contiguous_suffix(shape, strides);
        lemma_span_contiguous(shape.skip(1), strides.skip(1));
        assert((d - 1) * inner + (inner - 1) == d * inner - 1) by (nonlinear_arith);
    }
}

/// The row-major index of element `(i, j)` of a matrix with `n` columns
/// lies within the matrix and gives `i` and `j` back.
pub proof fn lemma_matrix_index(m: int, n: int, i: int, j: int)
    requires
        0 <= i < m,
        0 <= j < n,
    ensures
        0 <= i * n + j < m * n,
        (i * n + j) / n == i,
        (i * n + j) % n == j,
{
    let q = i * n + j;
    assert(0 <= q < m * n) by (nonlinear_arith)
        requires
            0 <= i < m,
            0 <= j < n,
            q == i * n + j,
    ;
    assert(q == n * i + j) by (nonlinear_arith)
        requires
            q == i * n + j,
    ;
    lemma_fundamental_div_mod_converse(q, n, i, j);
}

/// The shape of a matrix whose element count fits a machine word is
/// representable.
pub proof fn lemma_matrix_shape(m: usize, n: usize)
    requires
        m * n <= usize::MAX,
    ensures
        shape_fits(seq![m, n]),
        product(seq![m, n]) == m * n,
{
    let s = seq![m, n];
    assert(s.skip(2).len() == 0);
    assert(product(s.skip(2)) == 1);
    lemma_product_unfold(s, 1);
    lemma_product_unfold(s, 0);
    assert(product(s.skip(1)) == n) by (nonlinear_arith)
        requires
            product(s.skip(1)) == n as nat * 1,
    ;
    assert(s.skip(0) =~= s);
    assert forall|k: int| 0 <= k <= s.len() implies #[trigger] product(s.skip(k))
        <= usize::MAX by {
        if k == 0 {
        } else if k == 1 {
        } else {
            assert(k == 2);
        }
    }
}

/// The shape of a vector of `n` elements is representable.
pub proof fn lemma_vector_shape(n: usize)
    ensures
        shape_fits(seq![n]),
        product(seq![n]) == n,
{
    let s = seq![n];
    assert(s.skip(1).len() == 0);
    assert(product(s.skip(1)) == 1);
    lemma_product_unfold(s, 0);
    assert(product(s.skip(0)) == n) by (nonlinear_arith)
        requires
            product(s.skip(0)) == n as nat * 1,
    ;
    assert(s.skip(0) =~= s);
    assert forall|k: int| 0 <= k <= s.len() implies #[trigger] product(s.skip(k))
        <= usize::MAX by {
        if k == 0 {
        } else {
            assert(k == 1);
        }
    }
}

} // verus!
