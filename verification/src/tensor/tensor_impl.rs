//! Tensors: shaped, strided views onto a buffer of the runtime's pool.
use vstd::prelude::*;
use crate::autograd::node::Op;
use crate::error::TensorError;
use crate::runtime::Runtime;
use crate::runtime::State;
use crate::runtime::lemma_dense_covered;
use crate::runtime::lemma_dense_values;
use crate::runtime::lemma_grows_transitive;
use crate::runtime::lemma_with_buffer;
use crate::runtime::lemma_with_entry;
use crate::runtime::node_view;
use crate::scalar::ONE;
use crate::scalar::ScalarOp;
use crate::tensor::layout::contiguous;
use crate::tensor::layout::lemma_swap_fits;
use crate::tensor::layout::lemma_swap_span;
use crate::tensor::layout::locate;
use crate::tensor::layout::product;
use crate::tensor::layout::row_major;
use crate::tensor::layout::shape_fits;
use crate::tensor::layout::span;
use crate::tensor::layout::swap_last_two;
use crate::tensor::storage::Storage;
use crate::tensor::storage::byte_of;
use crate::tensor::storage::encode;
use crate::tensor::storage::lemma_compose_bytes;
use crate::tensor::storage::lemma_zeroed;
use crate::tensor::storage::zeroed;

verus! {

/// The element type of a tensor.
#[derive(Debug, Clone, Copy, PartialEq, Eq, Structural)]
pub enum DType {
    F32,
    F16,
    I8,
    /// Two 4-bit values per byte; an element has no width of its own.
    I4,
}

impl DType {
    /// The width of one element in bytes; 0 for the packed 4-bit type.
    pub open spec fn width(self) -> nat {
        match self {
            DType::F32 => 4,
            DType::F16 => 2,
            DType::I8 => 1,
            DType::I4 => 0,
        }
    }

    /// The element type that a numeric code stands for. Unknown codes stand
    /// for `F32`.
    pub open spec fn of_code(code: i32) -> DType {
        if code == 1 {
            DType::F16
        } else if code == 2 {
            DType::I8
        } else if code == 3 {
            DType::I4
        } else {
            DType::F32
        }
    }

    pub fn size_of(&self) -> (n: usize)
        ensures
            n == self.width(),
    {
        match self {
            DType::F32 => 4,
            DType::F16 => 2,
            DType::I8 => 1,
            DType::I4 => 0,
        }
    }

    pub fn from_code(code: i32) -> (dtype: DType)
        ensures
            dtype == DType::of_code(code),
    {
        match code {
            1 => DType::F16,
            2 => DType::I8,
            3 => DType::I4,
            _ => DType::F32,
        }
    }
}

/// The byte of rank `k` of the element of value one of an element type.
pub open spec fn unit_byte(dtype: DType, k: int) -> u8 {
    match dtype {
        DType::F32 => byte_of(ONE, k),
        DType::F16 => if k == 1 {
            0x3c
        } else {
            0
        },
        DType::I8 => 1,
        DType::I4 => 0,
    }
}

/// A buffer of `n` elements of value one.
pub open spec fn ones_bytes(dtype: DType, n: nat) -> Seq<u8> {
    Seq::new(n * dtype.width(), |k: int| unit_byte(dtype, k % (dtype.width() as int)))
}

/// What a tensor is, as plain data.
pub struct TensorView {
    /// Identifier, unique within the runtime that issued it.
    pub id: nat,
    pub shape: Seq<usize>,
    /// Per dimension, the number of elements to advance for one step.
    pub strides: Seq<usize>,
    /// Handle of the buffer in the runtime's pool.
    pub storage: nat,
    /// Index of the first element within the buffer.
    pub offset: nat,
    pub dtype: DType,
    pub requires_grad: bool,
}

impl TensorView {
    /// Shape and strides agree in length, and the shape and the size in
    /// bytes of its elements are representable.
    pub open spec fn wf(self) -> bool {
        &&& self.shape.len() == self.strides.len()
        &&& shape_fits(self.shape)
        &&& product(self.shape) * self.dtype.width() <= usize::MAX
    }

    pub open spec fn numel(self) -> nat {
        product(self.shape)
    }

    pub open spec fn is_contiguous(self) -> bool {
        contiguous(self.shape, self.strides)
    }

    /// Index within the buffer of the `i`-th element in row-major order.
    pub open spec fn position(self, i: int) -> int {
        self.offset + locate(self.shape, self.strides, i)
    }

    /// The number of leading elements of the buffer that the view needs:
    /// one more than the index of its farthest element, or 0 when empty.
    pub open spec fn reach(self) -> int {
        if product(self.shape) == 0 {
            0
        } else {
            self.offset + span(self.shape, self.strides) + 1
        }
    }

    /// The same view under another identifier.
    pub open spec fn renamed(self, id: nat) -> TensorView {
        TensorView { id, ..self }
    }

    /// The view with its last two axes exchanged, under another identifier.
    pub open spec fn transposed(self, id: nat) -> TensorView {
        TensorView {
            id,
            shape: swap_last_two(self.shape),
            strides: swap_last_two(self.strides),
            ..self
        }
    }

    /// A fresh contiguous view of a whole buffer.
    pub open spec fn dense(
        id: nat,
        shape: Seq<usize>,
        storage: nat,
        dtype: DType,
        requires_grad: bool,
    ) -> TensorView {
        TensorView { id, shape, strides: row_major(shape), storage, offset: 0, dtype, requires_grad }
    }
}

/// A shaped, strided view onto a buffer of a runtime's pool. A tensor is a
/// small record; the bytes, the gradient slot and the producing node of the
/// tensor are held by the runtime under the tensor's identifier.
#[derive(Debug)]
pub struct Tensor {
    id: usize,
    shape: Vec<usize>,
    strides: Vec<usize>,
    storage: usize,
    offset: usize,
    dtype: DType,
    requires_grad: bool,
}

impl View for Tensor {
    type V = TensorView;

    closed spec fn view(&self) -> TensorView {
        TensorView {
            id: self.id as nat,
            shape: self.shape@,
            strides: self.strides@,
            storage: self.storage as nat,
            offset: self.offset as nat,
            dtype: self.dtype,
            requires_grad: self.requires_grad,
        }
    }
}

impl Tensor {
    /// Puts a record together. Nothing is registered with a runtime.
    pub(crate) fn assemble(
        id: usize,
        shape: Vec<usize>,
        strides: Vec<usize>,
        storage: usize,
        offset: usize,
        dtype: DType,
        requires_grad: bool,
    ) -> (t: Tensor)
        ensures
            t@ == (TensorView {
                id: id as nat,
                shape: shape@,
                strides: strides@,
                storage: storage as nat,
                offset: offset as nat,
                dtype,
                requires_grad,
            }),
    {
        Tensor { id, shape, strides, storage, offset, dtype, requires_grad }
    }

    /// A copy of the record, identifier included.
    pub(crate) fn duplicate(&self) -> (t: Tensor)
        ensures
            t@ == self@,
    {
        let shape = self.shape.clone();
        let strides = self.strides.clone();
        proof {
            assert(shape@ =~= self.shape@);
            assert(strides@ =~= self.strides@);
        }
        Tensor {
            id: self.id,
            shape,
            strides,
            storage: self.storage,
            offset: self.offset,
            dtype: self.dtype,
            requires_grad: self.requires_grad,
        }
    }

    /// A copy of the record under another identifier and gradient flag.
    pub(crate) fn relabel(&self, id: usize, requires_grad: bool) -> (t: Tensor)
        ensures
            t@ == (TensorView { id: id as nat, requires_grad, ..self@ }),
    {
        let shape = self.shape.clone();
        let strides = self.strides.clone();
        proof {
            assert(shape@ =~= self.shape@);
            assert(strides@ =~= self.strides@);
        }
        Tensor {
            id,
            shape,
            strides,
            storage: self.storage,
            offset: self.offset,
            dtype: self.dtype,
            requires_grad,
        }
    }

    /// A copy of the shape.
    pub(crate) fn shape_copy(&self) -> (shape: Vec<usize>)
        ensures
            shape@ == self@.shape,
    {
        let shape = self.shape.clone();
        proof {
            assert(shape@ =~= self.shape@);
        }
        shape
    }

    pub fn id(&self) -> (id: usize)
        ensures
            id == self@.id,
    {
        self.id
    }

    pub fn shape(&self) -> (shape: &[usize])
        ensures
            shape@ == self@.shape,
    {
        self.shape.as_slice()
    }

    pub fn strides(&self) -> (strides: &[usize])
        ensures
            strides@ == self@.strides,
    {
        self.strides.as_slice()
    }

    pub fn dtype(&self) -> (dtype: DType)
        ensures
            dtype == self@.dtype,
    {
        self.dtype
    }

    /// Handle of the buffer that the tensor views.
    pub fn storage(&self) -> (handle: usize)
        ensures
            handle == self@.storage,
    {
        self.storage
    }

    /// Index of the tensor's first element within its buffer.
    pub fn offset(&self) -> (offset: usize)
        ensures
            offset == self@.offset,
    {
        self.offset
    }

    pub fn requires_grad(&self) -> (flag: bool)
        ensures
            flag == self@.requires_grad,
    {
        self.requires_grad
    }

    /// Marks the tensor as tracking gradients, or not. Nothing else changes.
    pub fn set_requires_grad(&mut self, flag: bool)
        ensures
            final(self)@ == (TensorView { requires_grad: flag, ..old(self)@ }),
    {
        self.requires_grad = flag;
    }

    /// Whether the strides are the row-major strides of the shape.
    pub fn is_contiguous(&self) -> (b: bool)
        requires
            self@.wf(),
        ensures
            b == self@.is_contiguous(),
    {
        crate::tensor::layout::is_row_major(self.shape.as_slice(), self.strides.as_slice())
    }

    /// The row-major strides of a shape.
    pub fn default_strides(shape: &[usize]) -> (strides: Vec<usize>)
        requires
            shape_fits(shape@),
        ensures
            strides@ == row_major(shape@),
            contiguous(shape@, strides@),
    {
        crate::tensor::layout::row_major_strides(shape)
    }

    /// The number of elements: the product of the shape.
    pub fn numel(&self) -> (n: usize)
        requires
            self@.wf(),
        ensures
            n == self@.numel(),
            n == product(self@.shape),
    {
        crate::tensor::layout::count(self.shape.as_slice())
    }
}

/// Transposing twice restores the shape and the strides: the result is the
/// same view under another identifier.
pub proof fn lemma_transpose_twice(t: TensorView, first: nat, second: nat)
    requires
        t.shape.len() >= 2,
        t.strides.len() == t.shape.len(),
    ensures
        t.transposed(first).transposed(second).shape == t.shape,
        t.transposed(first).transposed(second).strides == t.strides,
        t.transposed(first).transposed(second) == t.renamed(second),
{
    assert(swap_last_two(swap_last_two(t.shape)) =~= t.shape);
    assert(swap_last_two(swap_last_two(t.strides)) =~= t.strides);
}

/// The transpose of a matrix holds at `(c, r)` what the matrix holds at
/// `(r, c)`.
pub proof fn lemma_transpose_values(
    s: State,
    t: TensorView,
    id: nat,
    r: int,
    c: int,
)
    requires
        t.shape.len() == 2,
        t.strides.len() == 2,
        0 <= r < t.shape[0],
        0 <= c < t.shape[1],
    ensures
        s.values(t.transposed(id)).len() == s.values(t).len(),
        s.values(t.transposed(id))[c * t.shape[0] + r] == s.values(t)[r * t.shape[1] + c],
{
    let u = t.transposed(id);
    crate::tensor::layout::lemma_locate_matrix(t.shape, t.strides, r, c);
    crate::tensor::layout::lemma_locate_matrix(u.shape, u.strides, c, r);
    assert(product(u.shape) == product(t.shape)) by (nonlinear_arith)
        requires
            product(u.shape) == u.shape[0] * u.shape[1],
            product(t.shape) == t.shape[0] * t.shape[1],
            u.shape[0] == t.shape[1],
            u.shape[1] == t.shape[0],
    ;
}

pub proof fn lemma_one_bytes()
    ensures
        byte_of(ONE, 0) == 0x00,
        byte_of(ONE, 1) == 0x00,
        byte_of(ONE, 2) == 0x80,
        byte_of(ONE, 3) == 0x3f,
{
    assert((0x3f80_0000u32 & 0xff) as u8 == 0x00u8) by (bit_vector);
    assert(((0x3f80_0000u32 >> 8) & 0xff) as u8 == 0x00u8) by (bit_vector);
    assert(((0x3f80_0000u32 >> 16) & 0xff) as u8 == 0x80u8) by (bit_vector);
    assert(((0x3f80_0000u32 >> 24) & 0xff) as u8 == 0x3fu8) by (bit_vector);
}

impl Tensor {
    /// Registers a dense tensor over a new buffer, produced by `node`.
    pub(crate) fn install<A: Fn(ScalarOp) -> u32>(
        rt: &mut Runtime<A>,
        storage: Storage,
        shape: Vec<usize>,
        dtype: DType,
        requires_grad: bool,
        node: Option<Op>,
    ) -> (t: Tensor)
        requires
            old(rt)@.wf(),
            shape_fits(shape@),
            storage@.len() == product(shape@) * dtype.width(),
            node matches Some(op) ==> old(rt)@.admits(op@, old(rt)@.len() as int),
        ensures
            t@ == TensorView::dense(
                old(rt)@.len(),
                shape@,
                old(rt)@.pool.len(),
                dtype,
                requires_grad,
            ),
            final(rt)@ == old(rt)@.with_buffer(storage@).with_entry(node_view(node)),
            final(rt)@.pool[t@.storage as int] == storage@,
            final(rt)@.wf(),
            final(rt)@.holds(t@),
            final(rt)@.grows_from(old(rt)@),
    {
        let ghost before = rt@;
        let ghost bytes = storage@;
        let ghost made = node_view(node);
        proof {
            storage.lemma_bounded();
        }
        let strides = crate::tensor::layout::row_major_strides(shape.as_slice());
        let handle = rt.push_buffer(storage);
        proof {
            lemma_with_buffer(before, bytes);
            if let Some(n) = made {
                crate::runtime::lemma_extends_admits(before, rt@, n, before.len() as int);
            }
            lemma_with_entry(rt@, made);
            lemma_grows_transitive(before, rt@, rt@.with_entry(made));
        }
        let id = rt.push_entry(node);
        let t = Tensor::assemble(id, shape, strides, handle, 0, dtype, requires_grad);
        proof {
            lemma_dense_covered(rt@, t@);
        }
        t
    }

    /// A tensor over an existing buffer of the pool, with a fresh
    /// identifier, an empty gradient slot and no producing node. The view
    /// must lie within the buffer.
    pub fn new<A: Fn(ScalarOp) -> u32>(
        rt: &mut Runtime<A>,
        storage: usize,
        shape: Vec<usize>,
        strides: Vec<usize>,
        offset: usize,
        dtype: DType,
        requires_grad: bool,
    ) -> (t: Tensor)
        requires
            old(rt)@.wf(),
            old(rt)@.covers(
                TensorView {
                    id: old(rt)@.len(),
                    shape: shape@,
                    strides: strides@,
                    storage: storage as nat,
                    offset: offset as nat,
                    dtype,
                    requires_grad,
                },
            ),
        ensures
            t@ == (TensorView {
                id: old(rt)@.len(),
                shape: shape@,
                strides: strides@,
                storage: storage as nat,
                offset: offset as nat,
                dtype,
                requires_grad,
            }),
            final(rt)@ == old(rt)@.with_entry(None),
            final(rt)@.wf(),
            final(rt)@.holds(t@),
            final(rt)@.grows_from(old(rt)@),
    {
        proof {
            lemma_with_entry(rt@, None);
        }
        let id = rt.push_entry(None);
        Tensor::assemble(id, shape, strides, storage, offset, dtype, requires_grad)
    }

    /// Whether a dense tensor of this shape and element type is
    /// representable: every suffix product of the shape, and the size of
    /// the elements in bytes, fit a machine word.
    pub fn representable(shape: &[usize], dtype: DType) -> (ok: bool)
        ensures
            ok == (shape_fits(shape@) && product(shape@) * dtype.width() <= usize::MAX),
    {
        if !crate::tensor::layout::fits(shape) {
            return false;
        }
        let numel: usize = crate::tensor::layout::count(shape);
        numel.checked_mul(dtype.size_of()).is_some()
    }

    /// A new tensor of the given shape, dense over a new buffer of zero
    /// bytes.
    pub fn zeros<A: Fn(ScalarOp) -> u32>(rt: &mut Runtime<A>, shape: Vec<usize>, dtype: DType) -> (t:
        Tensor)
        requires
            old(rt)@.wf(),
            shape_fits(shape@),
            product(shape@) * dtype.width() <= usize::MAX,
        ensures
            t@ == TensorView::dense(
                old(rt)@.len(),
                shape@,
                old(rt)@.pool.len(),
                dtype,
                false,
            ),
            final(rt)@ == old(rt)@.with_buffer(zeroed(product(shape@) * dtype.width())).with_entry(
                None,
            ),
            final(rt)@.wf(),
            final(rt)@.holds(t@),
            final(rt)@.grows_from(old(rt)@),
            dtype == DType::F32 ==> final(rt)@.values(t@) == Seq::new(
                product(shape@),
                |i: int| 0u32,
            ),
    {
        let numel: usize = crate::tensor::layout::count(shape.as_slice());
        proof {
            assert(dtype.width() * numel == numel * dtype.width()) by (nonlinear_arith);
        }
        let storage = Storage::new(dtype.size_of() * numel);
        let t = Tensor::install(rt, storage, shape, dtype, false, None);
        proof {
            if dtype == DType::F32 {
                let zeros = Seq::new(product(shape@), |i: int| 0u32);
                assert forall|i: int| 0 <= i < numel implies rt@.values(t@)[i] == 0u32 by {
                    crate::tensor::layout::lemma_locate_contiguous(t@.shape, t@.strides, i);
                    lemma_zeroed((4 * numel) as nat, i);
                }
                assert(rt@.values(t@) =~= zeros);
            }
        }
        t
    }

    /// A new tensor of the given shape, dense over a new buffer in which
    /// every element has the value one.
    pub fn ones<A: Fn(ScalarOp) -> u32>(rt: &mut Runtime<A>, shape: Vec<usize>, dtype: DType) -> (t:
        Tensor)
        requires
            old(rt)@.wf(),
            shape_fits(shape@),
            product(shape@) * dtype.width() <= usize::MAX,
        ensures
            t@ == TensorView::dense(old(rt)@.len(), shape@, old(rt)@.pool.len(), dtype, false),
            final(rt)@ == old(rt)@.with_buffer(ones_bytes(dtype, product(shape@))).with_entry(None),
            final(rt)@.wf(),
            final(rt)@.holds(t@),
            final(rt)@.grows_from(old(rt)@),
            dtype == DType::F32 ==> final(rt)@.values(t@) == Seq::new(
                product(shape@),
                |i: int| ONE,
            ),
    {
        let numel: usize = crate::tensor::layout::count(shape.as_slice());
        let width: usize = dtype.size_of();
        proof {
            assert(width * numel == numel * width) by (nonlinear_arith);
        }
        let size: usize = numel * width;
        let mut bytes: Vec<u8> = Vec::with_capacity(size);
        let mut i: usize = if width == 0 {
            numel
        } else {
            0
        };
        proof {
            assert(i * width == 0) by (nonlinear_arith)
                requires
                    i == 0 || width == 0,
            ;
            assert(bytes@ =~= ones_bytes(dtype, i as nat));
        }
        while i < numel
            invariant
                i <= numel,
                width == dtype.width(),
                numel * width <= usize::MAX,
                bytes@ == ones_bytes(dtype, i as nat),
            decreases numel - i,
        {
            proof {
                assert((i + 1) * width == i * width + width) by (nonlinear_arith);
                assert((i + 1) * width <= numel * width) by (nonlinear_arith)
                    requires
                        i + 1 <= numel,
                ;
            }
            let ghost before = bytes@;
            match dtype {
                DType::F32 => {
                    bytes.push(0x00);
                    bytes.push(0x00);
                    bytes.push(0x80);
                    bytes.push(0x3f);
                    proof {
                        lemma_one_bytes();
                    }
                },
                DType::F16 => {
                    bytes.push(0x00);
                    bytes.push(0x3c);
                },
                DType::I8 => {
                    bytes.push(1);
                },
                DType::I4 => {},
            }
            proof {
                let after = ones_bytes(dtype, (i + 1) as nat);
                assert(bytes@.len() == after.len());
                assert forall|k: int| 0 <= k < after.len() implies bytes@[k] == after[k] by {
                    if k < i * width {
                        assert(bytes@[k] == before[k]);
                    } else {
                        let w = width as int;
                        let d = k - i * w;
                        assert(k == w * (i as int) + d) by (nonlinear_arith)
                            requires
                                d == k - i * w,
                        ;
                        vstd::arithmetic::div_mod::lemma_fundamental_div_mod_converse(
                            k,
                            w,
                            i as int,
                            d,
                        );
                    }
                }
                assert(bytes@ =~= after);
            }
            i = i + 1;
        }
        let storage = Storage::from_bytes(bytes);
        let t = Tensor::install(rt, storage, shape, dtype, false, None);
        proof {
            if dtype == DType::F32 {
                let ones = Seq::new(product(shape@), |i: int| ONE);
                assert forall|i: int| 0 <= i < numel implies rt@.values(t@)[i] == ONE by {
                    crate::tensor::layout::lemma_locate_contiguous(t@.shape, t@.strides, i);
                    lemma_compose_bytes(ONE);
                    let b = ones_bytes(dtype, numel as nat);
                    assert(b[4 * i] == byte_of(ONE, 0));
                    assert(b[4 * i + 1] == byte_of(ONE, 1));
                    assert(b[4 * i + 2] == byte_of(ONE, 2));
                    assert(b[4 * i + 3] == byte_of(ONE, 3));
                }
                assert(rt@.values(t@) =~= ones);
            }
        }
        t
    }

    /// A new dense tensor that holds the given 32-bit elements in row-major
    /// order. Rejected, with nothing changed, unless the data fills the
    /// shape exactly.
    pub fn from_vec_f32<A: Fn(ScalarOp) -> u32>(
        rt: &mut Runtime<A>,
        data: Vec<u32>,
        shape: Vec<usize>,
    ) -> (r: Result<Tensor, TensorError>)
        requires
            old(rt)@.wf(),
            shape_fits(shape@),
            4 * data.len() <= usize::MAX,
        ensures
            r is Ok <==> data.len() == product(shape@),
            r matches Err(e) ==> e == TensorError::ShapeMismatch && final(rt)@ == old(rt)@,
            r matches Ok(t) ==> {
                &&& t@ == TensorView::dense(
                    old(rt)@.len(),
                    shape@,
                    old(rt)@.pool.len(),
                    DType::F32,
                    false,
                )
                &&& final(rt)@ == old(rt)@.with_buffer(encode(data@)).with_entry(None)
                &&& final(rt)@.wf()
                &&& final(rt)@.holds(t@)
                &&& final(rt)@.grows_from(old(rt)@)
                &&& final(rt)@.values(t@) == data@
            },
    {
        let numel: usize = crate::tensor::layout::count(shape.as_slice());
        if data.len() != numel {
            return Err(TensorError::ShapeMismatch);
        }
        let storage = Storage::from_words(&data);
        let t = Tensor::install(rt, storage, shape, DType::F32, false, None);
        proof {
            lemma_dense_values(rt@, t@, data@);
        }
        Ok(t)
    }

    /// A new dense tensor of single bytes that holds the given bytes in
    /// row-major order. Rejected, with nothing changed, unless the data
    /// fills the shape exactly.
    pub fn from_bytes<A: Fn(ScalarOp) -> u32>(rt: &mut Runtime<A>, data: Vec<u8>, shape: Vec<usize>) -> (r:
        Result<Tensor, TensorError>)
        requires
            old(rt)@.wf(),
            shape_fits(shape@),
        ensures
            r is Ok <==> data.len() == product(shape@),
            r matches Err(e) ==> e == TensorError::ShapeMismatch && final(rt)@ == old(rt)@,
            r matches Ok(t) ==> {
                &&& t@ == TensorView::dense(
                    old(rt)@.len(),
                    shape@,
                    old(rt)@.pool.len(),
                    DType::I8,
                    false,
                )
                &&& final(rt)@ == old(rt)@.with_buffer(data@).with_entry(None)
                &&& final(rt)@.wf()
                &&& final(rt)@.holds(t@)
                &&& final(rt)@.grows_from(old(rt)@)
                &&& final(rt)@.octets(t@) == data@
            },
    {
        let numel: usize = crate::tensor::layout::count(shape.as_slice());
        if data.len() != numel {
            return Err(TensorError::ShapeMismatch);
        }
        let ghost bytes = data@;
        proof {
            assert(product(shape@) * 1 == product(shape@)) by (nonlinear_arith);
        }
        let storage = Storage::from_bytes(data);
        let t = Tensor::install(rt, storage, shape, DType::I8, false, None);
        proof {
            crate::runtime::lemma_dense_octets(rt@, t@, bytes);
        }
        Ok(t)
    }

    /// A view of the same buffer with the last two axes exchanged, under a
    /// fresh identifier, with an empty gradient slot and no producing node.
    /// Rejected, with nothing changed, for a tensor of fewer than two axes.
    pub fn t<A: Fn(ScalarOp) -> u32>(&self, rt: &mut Runtime<A>) -> (r: Result<Tensor, TensorError>)
        requires
            old(rt)@.wf(),
            old(rt)@.holds(self@),
        ensures
            r is Ok <==> self@.shape.len() >= 2,
            r matches Err(e) ==> e == TensorError::Rank && final(rt)@ == old(rt)@,
            r matches Ok(t) ==> {
                &&& t@ == self@.transposed(old(rt)@.len())
                &&& final(rt)@ == old(rt)@.with_entry(None)
                &&& final(rt)@.wf()
                &&& final(rt)@.holds(t@)
                &&& final(rt)@.holds(self@)
                &&& final(rt)@.grows_from(old(rt)@)
            },
    {
        let ndim: usize = self.shape.len();
        if ndim < 2 {
            return Err(TensorError::Rank);
        }
        let mut shape = self.shape.clone();
        let mut strides = self.strides.clone();
        proof {
            assert(shape@ =~= self.shape@);
            assert(strides@ =~= self.strides@);
        }
        let a: usize = shape[ndim - 2];
        let b: usize = shape[ndim - 1];
        shape[ndim - 2] = b;
        shape[ndim - 1] = a;
        let c: usize = strides[ndim - 2];
        let d: usize = strides[ndim - 1];
        strides[ndim - 2] = d;
        strides[ndim - 1] = c;
        proof {
            assert(shape@ =~= swap_last_two(self@.shape));
            assert(strides@ =~= swap_last_two(self@.strides));
            lemma_swap_fits(self@.shape);
            lemma_swap_span(self@.shape, self@.strides, 0);
            assert(self@.shape.skip(0) =~= self@.shape);
            assert(self@.strides.skip(0) =~= self@.strides);
            assert(shape@.skip(0) =~= shape@);
            assert(strides@.skip(0) =~= strides@);
        }
        Ok(Tensor::new(rt, self.storage, shape, strides, self.offset, self.dtype, self.requires_grad))
    }

    /// Accumulates `grad` into the gradient slot of this tensor.
    pub fn add_grad<A: Fn(ScalarOp) -> u32>(&self, rt: &mut Runtime<A>, grad: Tensor) -> (r: Result<
        (),
        TensorError,
    >)
        requires
            old(rt)@.wf(),
            self@.id < old(rt)@.len(),
            old(rt)@.holds(grad@),
        ensures
            old(rt)@.accumulated(self@.id as int, grad@, final(rt)@, r),
            final(rt)@.wf(),
            final(rt)@.extends(old(rt)@),
    {
        rt.accumulate(self.id, grad)
    }

    /// A tensor that views the same elements under a fresh identifier, with
    /// an empty gradient slot and no producing node.
    pub fn clone<A: Fn(ScalarOp) -> u32>(&self, rt: &mut Runtime<A>) -> (t: Tensor)
        requires
            old(rt)@.wf(),
            old(rt)@.holds(self@),
        ensures
            t@ == self@.renamed(old(rt)@.len()),
            final(rt)@ == old(rt)@.with_entry(None),
            final(rt)@.wf(),
            final(rt)@.holds(t@),
            final(rt)@.holds(self@),
            final(rt)@.values(t@) == old(rt)@.values(self@),
            final(rt)@.values(self@) == old(rt)@.values(self@),
            final(rt)@.grows_from(old(rt)@),
    {
        let shape = self.shape.clone();
        let strides = self.strides.clone();
        proof {
            assert(shape@ =~= self.shape@);
            assert(strides@ =~= self.strides@);
        }
        let ghost before = rt@;
        let t = Tensor::new(
            rt,
            self.storage,
            shape,
            strides,
            self.offset,
            self.dtype,
            self.requires_grad,
        );
        proof {
            crate::runtime::lemma_grows_values(before, rt@, self@);
            assert(rt@.values(t@) =~= rt@.values(self@));
        }
        t
    }
}

impl<A: Fn(ScalarOp) -> u32> Runtime<A> {
    /// A fresh view of the gradient accumulated for a tensor, or `None`,
    /// with nothing changed, if there is none.
    pub fn grad_view(&mut self, t: &Tensor) -> (view: Option<Tensor>)
        requires
            old(self)@.wf(),
            t@.id < old(self)@.len(),
        ensures
            view is Some <==> old(self)@.slots[t@.id as int] is Some,
            view is None ==> final(self)@ == old(self)@,
            view matches Some(v) ==> {
                &&& v@ == old(self)@.slots[t@.id as int]->Some_0.renamed(old(self)@.len())
                &&& final(self)@ == old(self)@.with_entry(None)
                &&& final(self)@.holds(v@)
                &&& final(self)@.values(v@) == old(self)@.values(
                    old(self)@.slots[t@.id as int]->Some_0,
                )
            },
            final(self)@.wf(),
            final(self)@.grows_from(old(self)@),
    {
        let ghost before = self@;
        let held: Option<Tensor> = match self.slot(t.id()) {
            Some(g) => Some(g.duplicate()),
            None => None,
        };
        match held {
            Some(g) => {
                proof {
                    assert(before.slots[t@.id as int] == Some(g@));
                    assert(before.holds(g@));
                }
                let v = g.clone(self);
                proof {
                    crate::runtime::lemma_grows_values(before, self@, g@);
                    assert(self@.values(v@) =~= self@.values(g@));
                }
                Some(v)
            },
            None => {
                proof {
                    crate::runtime::lemma_grows_refl(before);
                }
                None
            },
        }
    }
}

} // verus!
