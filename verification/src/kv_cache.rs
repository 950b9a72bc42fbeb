use crate::array;
use crate::array::NdArray;
use crate::autograd;
use crate::autograd::{Tensor, TensorStorage};
use crate::dims;
use crate::dims::same_extents;
use crate::fpu;
use crate::fpu::Fpu;
use crate::models::LlamaConfig;
use crate::ops::shape;
use crate::precision::{DType, PrecisionConfig};
use std::sync::Arc;
use vstd::prelude::*;

verus! {

/// Keys and values of the positions that a model has seen, as `[B, H, S, D]`.
pub struct LlamaKVCache {
    pub k_cache: Tensor,
    pub v_cache: Tensor,
    pub max_seq_len: usize,
    pub dim: usize,
    pub head_num: usize,
    pub batch_size: usize,
    pub dtype: DType,
    pub follows_global_dtype: bool,
}

/// Why a cache refuses a request.
#[derive(Clone, Copy, Debug, PartialEq, Eq, Structural)]
pub enum KvCacheError {
    NoAttentionHeads,
    NoKeyValueHeads,
    NoPositions,
    NotFloat,
    HeadSplit,
    GroupSplit,
    KeysNotFourDimensional,
    ValuesNotFourDimensional,
    ShapeMismatch,
    BatchMismatch,
    HeadMismatch,
    DimMismatch,
    StartOutOfBounds,
    EndOverflow,
    Overflow,
    ViewOutOfBounds,
}

/// The axis of positions.
pub const POSITIONS: usize = 2;

/// An array of zeros.
pub open spec fn is_zeros(shape: Seq<usize>, a: NdArray<u32>) -> bool {
    &&& a.wf()
    &&& a.shape@ == shape
    &&& forall|k: int| 0 <= k < a.data@.len() ==> #[trigger] a.data@[k] == fpu::ZERO
}

/// Zeros, held in a precision.
pub open spec fn is_blank<F: Fpu>(f: &F, shape: Seq<usize>, dtype: DType, s: TensorStorage) -> bool {
    exists|z: NdArray<u32>| #[trigger] is_zeros(shape, z) && autograd::stored_as(f, z, dtype, s)
}

/// A constant of zeros, held in a precision.
pub fn blank<F: Fpu>(shape: Vec<usize>, dtype: DType, f: &F) -> (t: Tensor)
    requires
        dims::fits(shape@),
    ensures
        t.wf(),
        t.is_leaf(t.storage, false),
        is_blank(f, shape@, dtype, t.storage),
{
    let z = NdArray::filled(shape, fpu::ZERO);
    assert(is_zeros(shape@, z));
    Tensor::from_single_no_grad(f, Arc::new(z), dtype)
}

/// Storage whose positions from `start` on are those of `part`, in the same precision.
pub open spec fn storage_overwritten(before: TensorStorage, part: TensorStorage, start: int, after: TensorStorage) -> bool {
    match (before, part, after) {
        (TensorStorage::F32(a), TensorStorage::F32(p), TensorStorage::F32(r)) => array::is_overwritten(
            &*a,
            &*p,
            POSITIONS as int,
            start,
            &*r,
        ),
        (TensorStorage::F16(a), TensorStorage::F16(p), TensorStorage::F16(r)) => array::is_overwritten(
            &*a,
            &*p,
            POSITIONS as int,
            start,
            &*r,
        ),
        (TensorStorage::BF16(a), TensorStorage::BF16(p), TensorStorage::BF16(r)) => array::is_overwritten(
            &*a,
            &*p,
            POSITIONS as int,
            start,
            &*r,
        ),
        _ => false,
    }
}

/// The values of `src` stand in the cache from a position on, in the precision of the
/// cache; all other positions are as before.
pub open spec fn range_written<F: Fpu>(f: &F, before: TensorStorage, src: NdArray<u32>, start: int, after: TensorStorage) -> bool {
    exists|part: TensorStorage| #[trigger]
        autograd::stored_as(f, src, before.spec_dtype(), part) && storage_overwritten(before, part, start, after)
}

/// Writes values into the cache from a position on.
pub fn write_cache_range<F: Fpu>(cache: &mut Tensor, start: usize, src: &Arc<NdArray<u32>>, f: &F)
    requires
        old(cache).wf(),
        old(cache).spec_dtype().float(),
        old(cache).spec_shape().len() == 4,
        src.wf(),
        src.shape@.len() == 4,
        src.shape@ == old(cache).spec_shape().update(POSITIONS as int, src.shape@[POSITIONS as int]),
        start + src.shape@[POSITIONS as int] <= old(cache).spec_shape()[POSITIONS as int],
    ensures
        range_written(f, old(cache).storage, **src, start as int, final(cache).storage),
        *final(cache) == (Tensor { storage: final(cache).storage, ..*old(cache) }),
        final(cache).wf(),
        final(cache).spec_shape() == old(cache).spec_shape(),
        final(cache).spec_dtype() == old(cache).spec_dtype(),
{
    let part = TensorStorage::from_single(f, src.clone(), cache.dtype());
    let ghost before = cache.storage;
    assert(autograd::stored_as(f, **src, before.spec_dtype(), part));
    let after = match (&cache.storage, &part) {
        (TensorStorage::F32(a), TensorStorage::F32(p)) => TensorStorage::F32(
            Arc::new(a.overwritten(p, POSITIONS, start)),
        ),
        (TensorStorage::F16(a), TensorStorage::F16(p)) => TensorStorage::F16(
            Arc::new(a.overwritten(p, POSITIONS, start)),
        ),
        (TensorStorage::BF16(a), TensorStorage::BF16(p)) => TensorStorage::BF16(
            Arc::new(a.overwritten(p, POSITIONS, start)),
        ),
        _ => cache.storage.clone(),
    };
    assert(storage_overwritten(before, part, start as int, after));
    cache.storage = after;
}

/// The first positions of a cache, in its own precision.
pub fn native_cache_prefix(cache: &Tensor, current_len: usize) -> (t: Tensor)
    requires
        cache.wf(),
        cache.spec_shape().len() == 4,
        current_len <= cache.spec_shape()[POSITIONS as int],
    ensures
        t.wf(),
        t.is_leaf(t.storage, false),
        shape::storage_sliced(cache.storage, POSITIONS as int, 0, current_len as int, t.storage),
{
    let storage = match &cache.storage {
        TensorStorage::F32(a) => TensorStorage::F32(Arc::new(a.slice_axis(POSITIONS, 0, current_len))),
        TensorStorage::F16(a) => TensorStorage::F16(Arc::new(a.slice_axis(POSITIONS, 0, current_len))),
        TensorStorage::BF16(a) => TensorStorage::BF16(Arc::new(a.slice_axis(POSITIONS, 0, current_len))),
        TensorStorage::I8(a, step) => TensorStorage::I8(Arc::new(a.slice_axis(POSITIONS, 0, current_len)), *step),
    };
    Tensor::from_storage_no_grad(storage)
}

/// What is wrong with a configuration, for caches in a precision.
pub open spec fn config_error(config: LlamaConfig, dtype: DType) -> Option<KvCacheError> {
    if config.num_attention_heads == 0 {
        Some(KvCacheError::NoAttentionHeads)
    } else if config.num_key_value_heads == 0 {
        Some(KvCacheError::NoKeyValueHeads)
    } else if config.max_seq_len == 0 {
        Some(KvCacheError::NoPositions)
    } else if !dtype.float() {
        Some(KvCacheError::NotFloat)
    } else if config.hidden_size % config.num_attention_heads != 0 {
        Some(KvCacheError::HeadSplit)
    } else if config.num_attention_heads % config.num_key_value_heads != 0 {
        Some(KvCacheError::GroupSplit)
    } else {
        None
    }
}

/// Extents of the caches of a model.
pub open spec fn config_shape(config: LlamaConfig) -> Seq<usize> {
    seq![
        1usize,
        config.num_key_value_heads,
        config.max_seq_len,
        (config.hidden_size as int / config.num_attention_heads as int) as usize,
    ]
}

impl LlamaKVCache {
    /// Extents of both caches.
    pub open spec fn spec_shape(&self) -> Seq<usize> {
        seq![self.batch_size, self.head_num, self.max_seq_len, self.dim]
    }

    /// Both caches have the extents and the precision that are recorded beside them.
    pub open spec fn wf(&self) -> bool {
        &&& self.k_cache.wf()
        &&& self.v_cache.wf()
        &&& self.k_cache.spec_shape() == self.spec_shape()
        &&& self.v_cache.spec_shape() == self.spec_shape()
        &&& self.k_cache.spec_dtype() == self.dtype
        &&& self.v_cache.spec_dtype() == self.dtype
        &&& self.dtype.float()
    }

    /// An empty cache for a model.
    pub open spec fn is_new<F: Fpu>(&self, f: &F, config: LlamaConfig, dtype: DType, follows: bool) -> bool {
        &&& self.wf()
        &&& self.spec_shape() == config_shape(config)
        &&& self.dtype == dtype
        &&& self.follows_global_dtype == follows
        &&& self.k_cache.is_leaf(self.k_cache.storage, false)
        &&& self.v_cache.is_leaf(self.v_cache.storage, false)
        &&& is_blank(f, config_shape(config), dtype, self.k_cache.storage)
        &&& is_blank(f, config_shape(config), dtype, self.v_cache.storage)
    }

    /// A cache in the precision of runtime buffers.
    pub fn new<F: Fpu>(config: &LlamaConfig, precision: &PrecisionConfig, f: &F) -> (r: Result<LlamaKVCache, KvCacheError>)
        requires
            config_error(*config, precision.runtime_dtype) is None ==> dims::fits(config_shape(*config)),
        ensures
            match config_error(*config, precision.runtime_dtype) {
                Some(e) => r == Err::<LlamaKVCache, KvCacheError>(e),
                None => r matches Ok(c) && c.is_new(f, *config, precision.runtime_dtype, true),
            },
    {
        LlamaKVCache::new_impl(config, precision.runtime_dtype, true, f)
    }

    fn new_impl<F: Fpu>(config: &LlamaConfig, dtype: DType, follows_global_dtype: bool, f: &F) -> (r: Result<
        LlamaKVCache,
        KvCacheError,
    >)
        requires
            config_error(*config, dtype) is None ==> dims::fits(config_shape(*config)),
        ensures
            match config_error(*config, dtype) {
                Some(e) => r == Err::<LlamaKVCache, KvCacheError>(e),
                None => r matches Ok(c) && c.is_new(f, *config, dtype, follows_global_dtype),
            },
    {
        if config.num_attention_heads == 0 {
            return Err(KvCacheError::NoAttentionHeads);
        }
        if config.num_key_value_heads == 0 {
            return Err(KvCacheError::NoKeyValueHeads);
        }
        if config.max_seq_len == 0 {
            return Err(KvCacheError::NoPositions);
        }
        if !dtype.is_float() {
            return Err(KvCacheError::NotFloat);
        }
        if config.hidden_size % config.num_attention_heads != 0 {
            return Err(KvCacheError::HeadSplit);
        }
        if config.num_attention_heads % config.num_key_value_heads != 0 {
            return Err(KvCacheError::GroupSplit);
        }
        let max_seq_len: usize = config.max_seq_len;
        let head_num: usize = config.num_key_value_heads;
        let dim: usize = config.hidden_size / config.num_attention_heads;
        let k_shape: Vec<usize> = vec![1, head_num, max_seq_len, dim];
        let v_shape: Vec<usize> = vec![1, head_num, max_seq_len, dim];
        proof {
            assert(k_shape@ =~= config_shape(*config));
            assert(v_shape@ =~= config_shape(*config));
        }
        let k_cache = blank(k_shape, dtype, f);
        let v_cache = blank(v_shape, dtype, f);
        Ok(LlamaKVCache { k_cache, v_cache, max_seq_len, dim, head_num, batch_size: 1, dtype, follows_global_dtype })
    }

    /// A cache in the given precision.
    pub fn new_with_dtype<F: Fpu>(config: &LlamaConfig, dtype: DType, f: &F) -> (r: Result<LlamaKVCache, KvCacheError>)
        requires
            config_error(*config, dtype) is None ==> dims::fits(config_shape(*config)),
        ensures
            match config_error(*config, dtype) {
                Some(e) => r == Err::<LlamaKVCache, KvCacheError>(e),
                None => r matches Ok(c) && c.is_new(f, *config, dtype, false),
            },
    {
        LlamaKVCache::new_impl(config, dtype, false, f)
    }

    /// Holds keys and values in another precision, and no longer follows the default.
    pub fn cast_inplace<F: Fpu>(&mut self, dtype: DType, f: &F) -> (r: Result<(), KvCacheError>)
        requires
            old(self).wf(),
        ensures
            r is Ok <==> dtype.float(),
            r matches Err(e) ==> e == KvCacheError::NotFloat && *final(self) == *old(self),
            r is Ok ==> {
                &&& final(self).wf()
                &&& cast_to(f, old(self).k_cache, dtype, final(self).k_cache)
                &&& cast_to(f, old(self).v_cache, dtype, final(self).v_cache)
                &&& *final(self) == (LlamaKVCache {
                    k_cache: final(self).k_cache,
                    v_cache: final(self).v_cache,
                    dtype,
                    follows_global_dtype: false,
                    ..*old(self)
                })
            },
    {
        if !dtype.is_float() {
            return Err(KvCacheError::NotFloat);
        }
        self.k_cache.cast_inplace(f, dtype);
        self.v_cache.cast_inplace(f, dtype);
        self.dtype = dtype;
        self.follows_global_dtype = false;
        Ok(())
    }

    /// What is wrong with writing keys and values of these extents.
    pub open spec fn update_error(&self, k: Seq<usize>, v: Seq<usize>, start_pos: int) -> Option<KvCacheError> {
        if k.len() != 4 {
            Some(KvCacheError::KeysNotFourDimensional)
        } else if v.len() != 4 {
            Some(KvCacheError::ValuesNotFourDimensional)
        } else if k != v {
            Some(KvCacheError::ShapeMismatch)
        } else if k[0] != self.batch_size {
            Some(KvCacheError::BatchMismatch)
        } else if k[1] != self.head_num {
            Some(KvCacheError::HeadMismatch)
        } else if k[3] != self.dim {
            Some(KvCacheError::DimMismatch)
        } else if start_pos > self.max_seq_len {
            Some(KvCacheError::StartOutOfBounds)
        } else if start_pos + k[2] > usize::MAX {
            Some(KvCacheError::EndOverflow)
        } else if start_pos + k[2] > self.max_seq_len {
            Some(KvCacheError::Overflow)
        } else {
            None
        }
    }

    /// Writes keys and values from a position on.
    pub fn update<F: Fpu>(&mut self, k: &Tensor, v: &Tensor, start_pos: usize, f: &F) -> (r: Result<(), KvCacheError>)
        requires
            old(self).wf(),
            k.wf(),
            v.wf(),
        ensures
            final(self).wf(),
            match old(self).update_error(k.spec_shape(), v.spec_shape(), start_pos as int) {
                Some(e) => r == Err::<(), KvCacheError>(e) && *final(self) == *old(self),
                None => {
                    &&& r is Ok
                    &&& tensor_written(f, old(self).k_cache, *k, start_pos as int, final(self).k_cache)
                    &&& tensor_written(f, old(self).v_cache, *v, start_pos as int, final(self).v_cache)
                    &&& *final(self) == (LlamaKVCache {
                        k_cache: final(self).k_cache,
                        v_cache: final(self).v_cache,
                        ..*old(self)
                    })
                },
            },
    {
        let k_shape: Vec<usize> = k.shape_vec();
        let v_shape: Vec<usize> = v.shape_vec();
        if k_shape.len() != 4 {
            return Err(KvCacheError::KeysNotFourDimensional);
        }
        if v_shape.len() != 4 {
            return Err(KvCacheError::ValuesNotFourDimensional);
        }
        if !same_extents(&k_shape, &v_shape) {
            return Err(KvCacheError::ShapeMismatch);
        }
        if k_shape[0] != self.batch_size {
            return Err(KvCacheError::BatchMismatch);
        }
        if k_shape[1] != self.head_num {
            return Err(KvCacheError::HeadMismatch);
        }
        if k_shape[3] != self.dim {
            return Err(KvCacheError::DimMismatch);
        }
        if start_pos > self.max_seq_len {
            return Err(KvCacheError::StartOutOfBounds);
        }
        match start_pos.checked_add(k_shape[2]) {
            None => {
                return Err(KvCacheError::EndOverflow);
            },
            Some(end_pos) => {
                if end_pos > self.max_seq_len {
                    return Err(KvCacheError::Overflow);
                }
            },
        }
        let ks = k.data_arc(f);
        let vs = v.data_arc(f);
        assert(ks.shape@ =~= self.spec_shape().update(2, ks.shape@[2]));
        assert(vs.shape@ =~= self.spec_shape().update(2, vs.shape@[2]));
        write_cache_range(&mut self.k_cache, start_pos, &ks, f);
        write_cache_range(&mut self.v_cache, start_pos, &vs, f);
        assert(autograd::reads_as(f, k.storage, *ks) && autograd::reads_as(f, v.storage, *vs));
        Ok(())
    }

    /// The first positions of both caches, in their own precision.
    pub fn get_view(&self, current_len: usize) -> (r: Result<(Tensor, Tensor), KvCacheError>)
        requires
            self.wf(),
        ensures
            r is Ok <==> current_len <= self.max_seq_len,
            r matches Err(e) ==> e == KvCacheError::ViewOutOfBounds,
            r matches Ok(kv) ==> is_prefix_of(self.k_cache, current_len as int, kv.0) && is_prefix_of(
                self.v_cache,
                current_len as int,
                kv.1,
            ),
    {
        if current_len > self.max_seq_len {
            return Err(KvCacheError::ViewOutOfBounds);
        }
        Ok((native_cache_prefix(&self.k_cache, current_len), native_cache_prefix(&self.v_cache, current_len)))
    }
}

/// `t` is a constant with the first positions of a cache.
pub open spec fn is_prefix_of(cache: Tensor, len: int, t: Tensor) -> bool {
    &&& t.wf()
    &&& t.is_leaf(t.storage, false)
    &&& shape::storage_sliced(cache.storage, POSITIONS as int, 0, len, t.storage)
}

/// `after` holds the elements of `before` in a precision.
pub open spec fn cast_to<F: Fpu>(f: &F, before: Tensor, dtype: DType, after: Tensor) -> bool {
    &&& after == (Tensor { storage: after.storage, ..before })
    &&& if before.spec_dtype() == dtype {
        after.storage == before.storage
    } else {
        autograd::recast(f, before.storage, dtype, after.storage)
    }
}

/// `after` is the cache `before` with the elements of `src` from a position on.
pub open spec fn tensor_written<F: Fpu>(f: &F, before: Tensor, src: Tensor, start: int, after: Tensor) -> bool {
    &&& after == (Tensor { storage: after.storage, ..before })
    &&& exists|a: NdArray<u32>| #[trigger]
        autograd::reads_as(f, src.storage, a) && range_written(f, before.storage, a, start, after.storage)
}

} // verus!
