use crate::autograd::Tensor;
use crate::dims;
use crate::dims::same_extents;
use crate::fpu::Fpu;
use crate::kv_cache;
use crate::kv_cache::blank;
use crate::precision::{DType, PrecisionConfig};
use vstd::prelude::*;

verus! {

/// Keys and values of one attention layer, as `[B, H, S, D]`, and how many positions
/// have been written.
pub struct KVCacheInner {
    pub k: Tensor,
    pub v: Tensor,
    pub len: usize,
    pub dtype: DType,
    pub follows_global_dtype: bool,
}

pub type KVCache = KVCacheInner;

/// Why a cache cannot be made or used.
#[derive(Clone, Copy, Debug, PartialEq, Eq, Structural)]
pub enum CacheError {
    NoBatch,
    NoHeads,
    NoPositions,
    NoFeatures,
    NotFloat,
    KeysNotFourDimensional,
    ValuesNotFourDimensional,
    KeyShape,
    ValueShape,
    KeyDtype,
    ValueDtype,
    LengthOutOfBounds,
}

/// What is wrong with the extents and the precision of a new cache.
pub open spec fn new_error(b: int, h_kv: int, max_seq: int, d: int, dtype: DType) -> Option<CacheError> {
    if b == 0 {
        Some(CacheError::NoBatch)
    } else if h_kv == 0 {
        Some(CacheError::NoHeads)
    } else if max_seq == 0 {
        Some(CacheError::NoPositions)
    } else if d == 0 {
        Some(CacheError::NoFeatures)
    } else if !dtype.float() {
        Some(CacheError::NotFloat)
    } else {
        None
    }
}

impl KVCacheInner {
    pub open spec fn wf(&self) -> bool {
        &&& self.k.wf()
        &&& self.v.wf()
    }

    /// A cache of zeros with nothing written.
    pub open spec fn is_new<F: Fpu>(&self, f: &F, shape: Seq<usize>, dtype: DType, follows: bool) -> bool {
        &&& self.wf()
        &&& self.k.spec_shape() == shape
        &&& self.v.spec_shape() == shape
        &&& self.len == 0
        &&& self.dtype == dtype
        &&& self.k.spec_dtype() == dtype
        &&& self.v.spec_dtype() == dtype
        &&& self.follows_global_dtype == follows
        &&& self.k.is_leaf(self.k.storage, false)
        &&& self.v.is_leaf(self.v.storage, false)
        &&& kv_cache::is_blank(f, shape, dtype, self.k.storage)
        &&& kv_cache::is_blank(f, shape, dtype, self.v.storage)
    }

    /// A cache in the precision of runtime buffers.
    pub fn new<F: Fpu>(b: usize, h_kv: usize, max_seq: usize, d: usize, precision: &PrecisionConfig, f: &F) -> (r: Result<
        KVCacheInner,
        CacheError,
    >)
        requires
            dims::fits(seq![b, h_kv, max_seq, d]),
        ensures
            match new_error(b as int, h_kv as int, max_seq as int, d as int, precision.runtime_dtype) {
                Some(e) => r == Err::<KVCacheInner, CacheError>(e),
                None => r matches Ok(c) && c.is_new(f, seq![b, h_kv, max_seq, d], precision.runtime_dtype, true),
            },
    {
        KVCacheInner::new_impl(b, h_kv, max_seq, d, precision.runtime_dtype, true, f)
    }

    fn new_impl<F: Fpu>(
        b: usize,
        h_kv: usize,
        max_seq: usize,
        d: usize,
        dtype: DType,
        follows_global_dtype: bool,
        f: &F,
    ) -> (r: Result<KVCacheInner, CacheError>)
        requires
            dims::fits(seq![b, h_kv, max_seq, d]),
        ensures
            match new_error(b as int, h_kv as int, max_seq as int, d as int, dtype) {
                Some(e) => r == Err::<KVCacheInner, CacheError>(e),
                None => r matches Ok(c) && c.is_new(f, seq![b, h_kv, max_seq, d], dtype, follows_global_dtype),
            },
    {
        if b == 0 {
            return Err(CacheError::NoBatch);
        }
        if h_kv == 0 {
            return Err(CacheError::NoHeads);
        }
        if max_seq == 0 {
            return Err(CacheError::NoPositions);
        }
        if d == 0 {
            return Err(CacheError::NoFeatures);
        }
        if !dtype.is_float() {
            return Err(CacheError::NotFloat);
        }
        let k_shape: Vec<usize> = vec![b, h_kv, max_seq, d];
        let v_shape: Vec<usize> = vec![b, h_kv, max_seq, d];
        proof {
            assert(k_shape@ =~= seq![b, h_kv, max_seq, d]);
            assert(v_shape@ =~= seq![b, h_kv, max_seq, d]);
        }
        let k = blank(k_shape, dtype, f);
        let v = blank(v_shape, dtype, f);
        Ok(KVCacheInner { k, v, len: 0, dtype, follows_global_dtype })
    }

    /// A cache in the given precision.
    pub fn new_with_dtype<F: Fpu>(b: usize, h_kv: usize, max_seq: usize, d: usize, dtype: DType, f: &F) -> (r: Result<
        KVCacheInner,
        CacheError,
    >)
        requires
            dims::fits(seq![b, h_kv, max_seq, d]),
        ensures
            match new_error(b as int, h_kv as int, max_seq as int, d as int, dtype) {
                Some(e) => r == Err::<KVCacheInner, CacheError>(e),
                None => r matches Ok(c) && c.is_new(f, seq![b, h_kv, max_seq, d], dtype, false),
            },
    {
        KVCacheInner::new_impl(b, h_kv, max_seq, d, dtype, false, f)
    }

    /// Forgets what has been written.
    pub fn reset(&mut self)
        ensures
            *final(self) == (KVCacheInner { len: 0, ..*old(self) }),
    {
        self.len = 0;
    }

    /// Holds keys and values in another precision, and no longer follows the default.
    pub fn cast_inplace<F: Fpu>(&mut self, dtype: DType, f: &F) -> (r: Result<(), CacheError>)
        requires
            old(self).wf(),
        ensures
            r is Ok <==> dtype.float(),
            r matches Err(e) ==> e == CacheError::NotFloat && *final(self) == *old(self),
            r is Ok ==> {
                &&& final(self).wf()
                &&& kv_cache::cast_to(f, old(self).k, dtype, final(self).k)
                &&& kv_cache::cast_to(f, old(self).v, dtype, final(self).v)
                &&& final(self).k.spec_shape() == old(self).k.spec_shape()
                &&& final(self).v.spec_shape() == old(self).v.spec_shape()
                &&& final(self).k.spec_dtype() == dtype
                &&& final(self).v.spec_dtype() == dtype
                &&& *final(self) == (KVCacheInner {
                    k: final(self).k,
                    v: final(self).v,
                    dtype,
                    follows_global_dtype: false,
                    ..*old(self)
                })
            },
    {
        if !dtype.is_float() {
            return Err(CacheError::NotFloat);
        }
        self.k.cast_inplace(f, dtype);
        self.v.cast_inplace(f, dtype);
        self.dtype = dtype;
        self.follows_global_dtype = false;
        Ok(())
    }

    /// What keeps the cache from serving a layer that needs these extents.
    pub open spec fn layout_error(&self, shape: Seq<usize>) -> Option<CacheError> {
        if self.k.spec_shape().len() != 4 {
            Some(CacheError::KeysNotFourDimensional)
        } else if self.v.spec_shape().len() != 4 {
            Some(CacheError::ValuesNotFourDimensional)
        } else if self.k.spec_shape() != shape {
            Some(CacheError::KeyShape)
        } else if self.v.spec_shape() != shape {
            Some(CacheError::ValueShape)
        } else if !self.dtype.float() {
            Some(CacheError::NotFloat)
        } else if self.k.spec_dtype() != self.dtype {
            Some(CacheError::KeyDtype)
        } else if self.v.spec_dtype() != self.dtype {
            Some(CacheError::ValueDtype)
        } else if self.len > shape[2] {
            Some(CacheError::LengthOutOfBounds)
        } else {
            None
        }
    }

    /// Checks that the cache has the extents and the precision that a layer needs.
    pub fn validate_layout(&self, expected_b: usize, expected_h_kv: usize, expected_max_seq: usize, expected_d: usize) -> (r:
        Result<(), CacheError>)
        ensures
            match self.layout_error(seq![expected_b, expected_h_kv, expected_max_seq, expected_d]) {
                Some(e) => r == Err::<(), CacheError>(e),
                None => r is Ok,
            },
    {
        let expected: Vec<usize> = vec![expected_b, expected_h_kv, expected_max_seq, expected_d];
        assert(expected@ =~= seq![expected_b, expected_h_kv, expected_max_seq, expected_d]);
        let k_shape: Vec<usize> = self.k.shape_vec();
        let v_shape: Vec<usize> = self.v.shape_vec();
        if k_shape.len() != 4 {
            return Err(CacheError::KeysNotFourDimensional);
        }
        if v_shape.len() != 4 {
            return Err(CacheError::ValuesNotFourDimensional);
        }
        if !same_extents(&k_shape, &expected) {
            return Err(CacheError::KeyShape);
        }
        if !same_extents(&v_shape, &expected) {
            return Err(CacheError::ValueShape);
        }
        if !self.dtype.is_float() {
            return Err(CacheError::NotFloat);
        }
        if self.k.dtype() != self.dtype {
            return Err(CacheError::KeyDtype);
        }
        if self.v.dtype() != self.dtype {
            return Err(CacheError::ValueDtype);
        }
        if self.len > expected_max_seq {
            return Err(CacheError::LengthOutOfBounds);
        }
        Ok(())
    }
}

} // verus!
