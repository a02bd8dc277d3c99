//! A cache of keys and values, one row per position.
use vstd::prelude::*;
use crate::error::TensorError;
use crate::runtime::Runtime;
use crate::runtime::lemma_extends_holds;
use crate::runtime::lemma_grows_transitive;
use crate::runtime::same_shape;
use crate::scalar::ScalarOp;
use crate::tensor::DType;
use crate::tensor::Tensor;
use crate::tensor::TensorView;
use crate::tensor::layout::product;
use crate::tensor::layout::shape_fits;
use crate::tensor::storage::overwritten;
use crate::tensor::storage::zeroed;

verus! {

/// Keys and values of the positions seen so far. Both tensors have one row
/// of heads by dimensions for each of `max_seq_len` positions.
pub struct KVCache {
    pub k: Tensor,
    pub v: Tensor,
    pub max_seq_len: usize,
    pub current_pos: usize,
}

/// The shape of a cache: positions, heads, dimensions.
pub open spec fn cache_shape(max_seq_len: usize, head: usize, dim: usize) -> Seq<usize> {
    seq![max_seq_len, head, dim]
}

/// Index within its buffer of the first element of row `pos` of a cache
/// tensor.
pub open spec fn row_start(cache: TensorView, pos: int) -> int {
    cache.offset + pos * cache.strides[0]
}

/// Why an update of a cache is rejected, if it is. `k_size` and `v_size`
/// are the sizes in bytes of the buffers of the two cache tensors.
pub open spec fn update_refusal(
    k: TensorView,
    v: TensorView,
    max_seq_len: int,
    new_k: TensorView,
    new_v: TensorView,
    pos: int,
    k_size: int,
    v_size: int,
) -> Option<TensorError> {
    if k.dtype != DType::F32 || v.dtype != DType::F32 || new_k.dtype != DType::F32 || new_v.dtype
        != DType::F32 {
        Some(TensorError::DType)
    } else if k.shape.len() == 0 || v.shape.len() == 0 || new_k.shape.len() == 0 {
        Some(TensorError::Rank)
    } else if new_v.shape != new_k.shape {
        Some(TensorError::ShapeMismatch)
    } else if pos + new_k.shape[0] > max_seq_len || 4 * (row_start(k, pos) + new_k.numel())
        > k_size || 4 * (row_start(v, pos) + new_k.numel()) > v_size {
        Some(TensorError::CacheOverflow)
    } else {
        None
    }
}

impl KVCache {
    /// An empty cache of zeros for `max_seq_len` positions.
    pub fn new<A: Fn(ScalarOp) -> u32>(rt: &mut Runtime<A>, max_seq_len: usize, head: usize, dim: usize) -> (cache:
        KVCache)
        requires
            old(rt)@.wf(),
            shape_fits(cache_shape(max_seq_len, head, dim)),
            product(cache_shape(max_seq_len, head, dim)) * 4 <= usize::MAX,
        ensures
            cache.k@ == TensorView::dense(
                old(rt)@.len(),
                cache_shape(max_seq_len, head, dim),
                old(rt)@.pool.len(),
                DType::F32,
                false,
            ),
            cache.v@ == TensorView::dense(
                old(rt)@.len() + 1,
                cache_shape(max_seq_len, head, dim),
                old(rt)@.pool.len() + 1,
                DType::F32,
                false,
            ),
            cache.max_seq_len == max_seq_len,
            cache.current_pos == 0,
            final(rt)@ == old(rt)@.with_buffer(
                zeroed(product(cache_shape(max_seq_len, head, dim)) * 4),
            ).with_entry(None).with_buffer(
                zeroed(product(cache_shape(max_seq_len, head, dim)) * 4),
            ).with_entry(None),
            final(rt)@.wf(),
            final(rt)@.holds(cache.k@),
            final(rt)@.holds(cache.v@),
            final(rt)@.grows_from(old(rt)@),
    {
        let ghost before = rt@;
        let k_shape: Vec<usize> = vec![max_seq_len, head, dim];
        let v_shape: Vec<usize> = vec![max_seq_len, head, dim];
        proof {
            assert(k_shape@ =~= cache_shape(max_seq_len, head, dim));
            assert(v_shape@ =~= cache_shape(max_seq_len, head, dim));
        }
        let k = Tensor::zeros(rt, k_shape, DType::F32);
        let ghost mid = rt@;
        let v = Tensor::zeros(rt, v_shape, DType::F32);
        proof {
            lemma_grows_transitive(before, mid, rt@);
            lemma_extends_holds(mid, rt@, k@);
        }
        KVCache { k, v, max_seq_len, current_pos: 0 }
    }

    /// Writes the elements of `new_k` and `new_v`, in row-major order, over
    /// the rows of the cache from position `pos` on, and moves the current
    /// position behind them. Rejected, with nothing changed, as
    /// `update_refusal` says.
    pub fn update<A: Fn(ScalarOp) -> u32>(
        &mut self,
        rt: &mut Runtime<A>,
        new_k: &Tensor,
        new_v: &Tensor,
        pos: usize,
    ) -> (r: Result<(), TensorError>)
        requires
            old(rt)@.wf(),
            old(rt)@.holds(old(self).k@),
            old(rt)@.holds(old(self).v@),
            old(rt)@.holds(new_k@),
            old(rt)@.holds(new_v@),
        ensures
            match update_refusal(
                old(self).k@,
                old(self).v@,
                old(self).max_seq_len as int,
                new_k@,
                new_v@,
                pos as int,
                old(rt)@.pool[old(self).k@.storage as int].len() as int,
                old(rt)@.pool[old(self).v@.storage as int].len() as int,
            ) {
                Some(e) => r == Err::<(), TensorError>(e),
                None => r is Ok,
            },
            final(self).k@ == old(self).k@,
            final(self).v@ == old(self).v@,
            final(self).max_seq_len == old(self).max_seq_len,
            r is Err ==> final(rt)@ == old(rt)@ && final(self).current_pos == old(self).current_pos,
            r is Ok ==> {
                let k = old(self).k@;
                let v = old(self).v@;
                let keyed = old(rt)@.with_bytes(
                    k.storage as int,
                    overwritten(
                        old(rt)@.pool[k.storage as int],
                        row_start(k, pos as int),
                        old(rt)@.values(new_k@),
                    ),
                );
                &&& final(self).current_pos == pos + new_k@.shape[0]
                &&& final(rt)@ == keyed.with_bytes(
                    v.storage as int,
                    overwritten(
                        keyed.pool[v.storage as int],
                        row_start(v, pos as int),
                        old(rt)@.values(new_v@),
                    ),
                )
            },
            final(rt)@.wf(),
            final(rt)@.extends(old(rt)@),
    {
        if self.k.dtype() != DType::F32 || self.v.dtype() != DType::F32 || new_k.dtype()
            != DType::F32 || new_v.dtype() != DType::F32 {
            return Err(TensorError::DType);
        }
        if self.k.shape().len() == 0 || self.v.shape().len() == 0 || new_k.shape().len() == 0 {
            return Err(TensorError::Rank);
        }
        if !same_shape(new_v.shape(), new_k.shape()) {
            return Err(TensorError::ShapeMismatch);
        }
        let rows: usize = new_k.shape()[0];
        let n: usize = new_k.numel();
        let k_size: usize = rt.buffer(self.k.storage()).len();
        let v_size: usize = rt.buffer(self.v.storage()).len();
        let end: usize = match pos.checked_add(rows) {
            Some(e) => e,
            None => {
                return Err(TensorError::CacheOverflow);
            },
        };
        if end > self.max_seq_len {
            return Err(TensorError::CacheOverflow);
        }
        let k_start: usize = match region(self.k.offset(), pos, self.k.strides()[0], n, k_size) {
            Some(s) => s,
            None => {
                return Err(TensorError::CacheOverflow);
            },
        };
        let v_start: usize = match region(self.v.offset(), pos, self.v.strides()[0], n, v_size) {
            Some(s) => s,
            None => {
                return Err(TensorError::CacheOverflow);
            },
        };
        let ghost before = rt@;
        let keys: Vec<u32> = rt.to_vec(new_k);
        let values: Vec<u32> = rt.to_vec(new_v);
        let k_handle: usize = self.k.storage();
        let v_handle: usize = self.v.storage();
        rt.write_words(k_handle, k_start, &keys);
        let ghost keyed = rt@;
        proof {
            assert(keyed.pool[v_handle as int].len() == before.pool[v_handle as int].len());
        }
        rt.write_words(v_handle, v_start, &values);
        proof {
            crate::runtime::lemma_extends_transitive(before, keyed, rt@);
        }
        self.current_pos = end;
        Ok(())
    }

    /// Fresh views of the keys and of the values. The whole cache is
    /// viewed, whatever `_len` is.
    pub fn get_view<A: Fn(ScalarOp) -> u32>(&self, rt: &mut Runtime<A>, _len: usize) -> (views: (
        Tensor,
        Tensor,
    ))
        requires
            old(rt)@.wf(),
            old(rt)@.holds(self.k@),
            old(rt)@.holds(self.v@),
        ensures
            views.0@ == self.k@.renamed(old(rt)@.len()),
            views.1@ == self.v@.renamed(old(rt)@.len() + 1),
            final(rt)@ == old(rt)@.with_entry(None).with_entry(None),
            final(rt)@.wf(),
            final(rt)@.holds(views.0@),
            final(rt)@.holds(views.1@),
            final(rt)@.grows_from(old(rt)@),
    {
        let ghost before = rt@;
        let k = self.k.clone(rt);
        let ghost mid = rt@;
        proof {
            lemma_extends_holds(before, mid, self.v@);
        }
        let v = self.v.clone(rt);
        proof {
            lemma_grows_transitive(before, mid, rt@);
            lemma_extends_holds(mid, rt@, k@);
        }
        (k, v)
    }
}

/// The index `offset + pos * stride` of the first element of a region of
/// `n` 32-bit elements, if the region lies within a buffer of `size` bytes.
pub fn region(offset: usize, pos: usize, stride: usize, n: usize, size: usize) -> (start: Option<
    usize,
>)
    ensures
        start matches Some(s) ==> s == offset + pos * stride && 4 * (s + n) <= size,
        start is None ==> 4 * (offset + pos * stride + n) > size,
{
    let step: usize = match pos.checked_mul(stride) {
        Some(v) => v,
        None => {
            return None;
        },
    };
    let first: usize = match offset.checked_add(step) {
        Some(v) => v,
        None => {
            return None;
        },
    };
    let last: usize = match first.checked_add(n) {
        Some(v) => v,
        None => {
            return None;
        },
    };
    match last.checked_mul(4) {
        Some(bytes) => {
            if bytes <= size {
                Some(first)
            } else {
                None
            }
        },
        None => None,
    }
}

} // verus!
