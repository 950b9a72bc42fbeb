use crate::array::NdArray;
use crate::autograd::{is_no_grad, GradMode, Tensor};
use crate::dims;
use crate::fpu;
use crate::fpu::Fpu;
use crate::graph::Node;
use crate::layers::attention::cache::{CacheError, KVCacheInner};
use crate::layers::attention::decode;
use crate::layers::attention::encoding::RotaryEmbedding;
use crate::layers::attention::prefill;
use crate::layers::attention::training;
use crate::layers::basic::Linear;
use crate::precision::{DType, PrecisionConfig};
use crate::trace;
use crate::trace::add_step;
use crate::float_bits;
use crate::rounding;
use vstd::prelude::*;

verus! {

/// Attention of a sequence to itself, with heads of queries that share heads of keys
/// and values.
pub struct SelfAttention {
    pub w_q: Linear,
    pub w_k: Linear,
    pub w_v: Linear,
    pub w_o: Linear,
    pub rope: RotaryEmbedding,
    pub n_head: usize,
    pub n_kv_head: usize,
    pub head_dim: usize,
    pub scale: u32,
    pub causal: bool,
    pub max_seq: usize,
    pub runtime_dtype: DType,
}

/// Initial values of the four weights, each as `[out, in]`.
pub struct AttentionWeights {
    pub q: NdArray<u32>,
    pub k: NdArray<u32>,
    pub v: NdArray<u32>,
    pub o: NdArray<u32>,
}

/// Why attention cannot be built or computed.
#[derive(Clone, Copy, Debug, PartialEq, Eq, Structural)]
pub enum AttentionError {
    NoEmbedding,
    NoHeads,
    NoKeyValueHeads,
    NoPositions,
    HeadSplit,
    GroupSplit,
    RuntimeNotFloat,
    NotThreeDimensional,
    NoBatch,
    NoSteps,
    HiddenMismatch,
    Cache(CacheError),
    NotSingleBatch,
    CacheOverflow,
    CacheInTraining,
    PositionsExceeded,
}

/// The extents and the precision that a layer is built for.
#[derive(Clone, Copy, Debug, PartialEq, Eq, Structural)]
pub struct AttentionShape {
    pub embed_dim: usize,
    pub n_head: usize,
    pub n_kv_head: usize,
    pub max_seq_len: usize,
}

impl AttentionShape {
    /// What is wrong with the extents, for buffers in a precision.
    pub open spec fn error(&self, runtime_dtype: DType) -> Option<AttentionError> {
        if self.embed_dim == 0 {
            Some(AttentionError::NoEmbedding)
        } else if self.n_head == 0 {
            Some(AttentionError::NoHeads)
        } else if self.n_kv_head == 0 {
            Some(AttentionError::NoKeyValueHeads)
        } else if self.max_seq_len == 0 {
            Some(AttentionError::NoPositions)
        } else if self.embed_dim % self.n_head != 0 {
            Some(AttentionError::HeadSplit)
        } else if self.n_head % self.n_kv_head != 0 {
            Some(AttentionError::GroupSplit)
        } else if !runtime_dtype.float() {
            Some(AttentionError::RuntimeNotFloat)
        } else {
            None
        }
    }

    pub open spec fn head_dim(&self) -> int {
        self.embed_dim as int / self.n_head as int
    }

    /// The weights have the extents that belong to these.
    pub open spec fn fits_weights(&self, w: AttentionWeights) -> bool {
        let kv = self.n_kv_head * self.head_dim();
        &&& w.q.wf()
        &&& w.k.wf()
        &&& w.v.wf()
        &&& w.o.wf()
        &&& w.q.shape@ == seq![self.embed_dim, self.embed_dim]
        &&& w.k.shape@.len() == 2
        &&& w.k.shape@[0] == kv
        &&& w.k.shape@[1] == self.embed_dim
        &&& w.v.shape@ == w.k.shape@
        &&& w.o.shape@ == seq![self.embed_dim, self.embed_dim]
    }
}

/// `1 / sqrt(n)`.
pub open spec fn inverse_root<F: Fpu>(f: &F, n: usize, r: u32) -> bool {
    exists|c: u32, q: u32| fpu::counts(f, n, c) && #[trigger] fpu::sqrts(f, c, q) && fpu::divs(f, fpu::ONE, q, r)
}

impl SelfAttention {
    /// The layer with other weights.
    pub open spec fn with_parameters(&self, params: Seq<Tensor>) -> SelfAttention {
        SelfAttention {
            w_q: Linear { weight: params[0], ..self.w_q },
            w_k: Linear { weight: params[1], ..self.w_k },
            w_v: Linear { weight: params[2], ..self.w_v },
            w_o: Linear { weight: params[3], ..self.w_o },
            ..*self
        }
    }

    /// Whether the layer is sound.
    pub fn is_sound(&self) -> (r: bool)
        ensures
            r == self.wf(),
    {
        let e: usize = self.w_q.in_features;
        if !(self.w_q.is_sound() && self.w_k.is_sound() && self.w_v.is_sound() && self.w_o.is_sound()) {
            return false;
        }
        if self.w_q.bias.is_some() || self.w_k.bias.is_some() || self.w_v.bias.is_some() || self.w_o.bias.is_some() {
            return false;
        }
        if self.n_head == 0 || self.n_kv_head == 0 || self.head_dim == 0 || self.max_seq == 0 || self.n_head
            % self.n_kv_head != 0 || !self.runtime_dtype.is_float() {
            return false;
        }
        let wide: bool = match self.n_head.checked_mul(self.head_dim) {
            Some(n) => e == n,
            None => false,
        };
        let narrow: bool = match self.n_kv_head.checked_mul(self.head_dim) {
            Some(n) => self.w_k.out_features == n && self.w_v.out_features == n,
            None => false,
        };
        wide && narrow && self.w_q.out_features == e && self.w_k.in_features == e && self.w_v.in_features == e
            && self.w_o.in_features == e && self.w_o.out_features == e && self.rope.is_sound() && self.rope.dim
            == self.head_dim && self.rope.max_seq_len == self.max_seq
    }

    /// The weights and the tables have the extents that the layer was built for.
    pub open spec fn wf(&self) -> bool {
        let e = self.w_q.in_features as int;
        &&& self.w_q.wf() && self.w_k.wf() && self.w_v.wf() && self.w_o.wf()
        &&& self.w_q.bias is None && self.w_k.bias is None && self.w_v.bias is None && self.w_o.bias is None
        &&& self.n_head > 0 && self.n_kv_head > 0 && self.head_dim > 0 && self.max_seq > 0
        &&& self.n_head % self.n_kv_head == 0
        &&& self.runtime_dtype.float()
        &&& e == self.n_head * self.head_dim
        &&& self.w_q.out_features == e
        &&& self.w_k.in_features == e
        &&& self.w_v.in_features == e
        &&& self.w_k.out_features == self.n_kv_head * self.head_dim
        &&& self.w_v.out_features == self.n_kv_head * self.head_dim
        &&& self.w_o.in_features == e
        &&& self.w_o.out_features == e
        &&& self.rope.wf()
        &&& self.rope.dim == self.head_dim
        &&& self.rope.max_seq_len == self.max_seq
    }

    /// How many heads of queries share one of keys and values.
    pub open spec fn n_rep(&self) -> int {
        self.n_head as int / self.n_kv_head as int
    }

    /// Extents of the caches for a batch.
    pub open spec fn cache_shape(&self, b: usize) -> Seq<usize> {
        seq![b, self.n_kv_head, self.max_seq, self.head_dim]
    }

    /// The layer was built of these.
    pub open spec fn is_built<F: Fpu>(
        &self,
        f: &F,
        size: AttentionShape,
        theta: u32,
        causal: bool,
        w: AttentionWeights,
        parameter_dtype: DType,
        runtime_dtype: DType,
    ) -> bool {
        &&& self.wf()
        &&& self.w_q.holds(f, w.q, parameter_dtype, false)
        &&& self.w_k.holds(f, w.k, parameter_dtype, false)
        &&& self.w_v.holds(f, w.v, parameter_dtype, false)
        &&& self.w_o.holds(f, w.o, parameter_dtype, false)
        &&& self.rope.holds(f, theta, runtime_dtype)
        &&& self.n_head == size.n_head
        &&& self.n_kv_head == size.n_kv_head
        &&& self.head_dim == size.head_dim()
        &&& self.max_seq == size.max_seq_len
        &&& inverse_root(f, self.head_dim, self.scale)
        &&& self.causal == causal
        &&& self.runtime_dtype == runtime_dtype
    }

    fn new_impl<F: Fpu>(
        size: &AttentionShape,
        theta: u32,
        causal: bool,
        w: AttentionWeights,
        parameter_dtype: DType,
        runtime_dtype: DType,
        f: &F,
    ) -> (r: Result<SelfAttention, AttentionError>)
        requires
            size.error(runtime_dtype) is None ==> size.fits_weights(w) && dims::fits(
                seq![1usize, 1usize, size.max_seq_len, size.head_dim() as usize],
            ),
        ensures
            match size.error(runtime_dtype) {
                Some(e) => r == Err::<SelfAttention, AttentionError>(e),
                None => r matches Ok(a) && a.is_built(f, *size, theta, causal, w, parameter_dtype, runtime_dtype),
            },
    {
        if size.embed_dim == 0 {
            return Err(AttentionError::NoEmbedding);
        }
        if size.n_head == 0 {
            return Err(AttentionError::NoHeads);
        }
        if size.n_kv_head == 0 {
            return Err(AttentionError::NoKeyValueHeads);
        }
        if size.max_seq_len == 0 {
            return Err(AttentionError::NoPositions);
        }
        if size.embed_dim % size.n_head != 0 {
            return Err(AttentionError::HeadSplit);
        }
        if size.n_head % size.n_kv_head != 0 {
            return Err(AttentionError::GroupSplit);
        }
        if !runtime_dtype.is_float() {
            return Err(AttentionError::RuntimeNotFloat);
        }
        let head_dim: usize = size.embed_dim / size.n_head;
        proof {
            vstd::arithmetic::div_mod::lemma_fundamental_div_mod(size.embed_dim as int, size.n_head as int);
            let h = size.n_head as int;
            let d = head_dim as int;
            assert(d > 0) by (nonlinear_arith)
                requires
                    h * d == size.embed_dim,
                    size.embed_dim > 0,
                    h > 0,
            ;
        }
        let rope = match RotaryEmbedding::new_with_dtype(head_dim, size.max_seq_len, theta, runtime_dtype, f) {
            Ok(rope) => rope,
            Err(_) => {
                return Err(AttentionError::RuntimeNotFloat);
            },
        };
        let c: u32 = f.from_count(head_dim);
        let root: u32 = f.sqrt(c);
        let scale: u32 = f.div(fpu::ONE, root);
        assert(inverse_root(f, head_dim, scale)) by {
            assert(fpu::counts(f, head_dim, c) && fpu::sqrts(f, c, root) && fpu::divs(f, fpu::ONE, root, scale));
        }
        Ok(
            SelfAttention {
                w_q: Linear::new_no_bias_with_dtype(w.q, parameter_dtype, f),
                w_k: Linear::new_no_bias_with_dtype(w.k, parameter_dtype, f),
                w_v: Linear::new_no_bias_with_dtype(w.v, parameter_dtype, f),
                w_o: Linear::new_no_bias_with_dtype(w.o, parameter_dtype, f),
                rope,
                n_head: size.n_head,
                n_kv_head: size.n_kv_head,
                head_dim,
                scale,
                causal,
                max_seq: size.max_seq_len,
                runtime_dtype,
            },
        )
    }

    /// A layer with weights and buffers in precisions of their own.
    pub fn new_with_dtypes<F: Fpu>(
        size: &AttentionShape,
        theta: u32,
        causal: bool,
        w: AttentionWeights,
        parameter_dtype: DType,
        runtime_dtype: DType,
        f: &F,
    ) -> (r: Result<SelfAttention, AttentionError>)
        requires
            size.error(runtime_dtype) is None ==> size.fits_weights(w) && dims::fits(
                seq![1usize, 1usize, size.max_seq_len, size.head_dim() as usize],
            ),
        ensures
            match size.error(runtime_dtype) {
                Some(e) => r == Err::<SelfAttention, AttentionError>(e),
                None => r matches Ok(a) && a.is_built(f, *size, theta, causal, w, parameter_dtype, runtime_dtype),
            },
    {
        SelfAttention::new_impl(size, theta, causal, w, parameter_dtype, runtime_dtype, f)
    }

    /// A layer with weights and buffers in the precisions of parameters and of runtime
    /// buffers.
    pub fn new<F: Fpu>(
        size: &AttentionShape,
        theta: u32,
        causal: bool,
        w: AttentionWeights,
        precision: &PrecisionConfig,
        f: &F,
    ) -> (r: Result<SelfAttention, AttentionError>)
        requires
            size.error(precision.runtime_dtype) is None ==> size.fits_weights(w) && dims::fits(
                seq![1usize, 1usize, size.max_seq_len, size.head_dim() as usize],
            ),
        ensures
            match size.error(precision.runtime_dtype) {
                Some(e) => r == Err::<SelfAttention, AttentionError>(e),
                None => r matches Ok(a) && a.is_built(
                    f,
                    *size,
                    theta,
                    causal,
                    w,
                    precision.parameter_dtype,
                    precision.runtime_dtype,
                ),
            },
    {
        SelfAttention::new_impl(size, theta, causal, w, precision.parameter_dtype, precision.runtime_dtype, f)
    }

    /// A layer with weights and buffers in one precision.
    pub fn new_with_dtype<F: Fpu>(
        size: &AttentionShape,
        theta: u32,
        causal: bool,
        w: AttentionWeights,
        dtype: DType,
        f: &F,
    ) -> (r: Result<SelfAttention, AttentionError>)
        requires
            size.error(dtype) is None ==> size.fits_weights(w) && dims::fits(
                seq![1usize, 1usize, size.max_seq_len, size.head_dim() as usize],
            ),
        ensures
            match size.error(dtype) {
                Some(e) => r == Err::<SelfAttention, AttentionError>(e),
                None => r matches Ok(a) && a.is_built(f, *size, theta, causal, w, dtype, dtype),
            },
    {
        SelfAttention::new_impl(size, theta, causal, w, dtype, dtype, f)
    }

    /// Checks that a cache serves this layer and a batch.
    pub fn assert_cache_compatible(&self, cache: &KVCacheInner, batch_size: usize) -> (r: Result<(), CacheError>)
        ensures
            match cache.layout_error(self.cache_shape(batch_size)) {
                Some(e) => r == Err::<(), CacheError>(e),
                None => r is Ok,
            },
    {
        cache.validate_layout(batch_size, self.n_kv_head, self.max_seq, self.head_dim)
    }

    /// What is wrong with an input and a cache.
    pub open spec fn forward_error(&self, x: Seq<usize>, cache: Option<KVCacheInner>, mode: GradMode) -> Option<AttentionError> {
        let past = match cache {
            Some(c) => c.len as int,
            None => 0,
        };
        if x.len() != 3 {
            Some(AttentionError::NotThreeDimensional)
        } else if x[0] == 0 {
            Some(AttentionError::NoBatch)
        } else if x[1] == 0 {
            Some(AttentionError::NoSteps)
        } else if x[2] != self.w_q.in_features {
            Some(AttentionError::HiddenMismatch)
        } else if !mode.no_grad() {
            if cache is Some {
                Some(AttentionError::CacheInTraining)
            } else if x[1] > self.max_seq {
                Some(AttentionError::PositionsExceeded)
            } else {
                None
            }
        } else if cache matches Some(c) && c.layout_error(self.cache_shape(x[0])) is Some {
            Some(AttentionError::Cache(cache->0.layout_error(self.cache_shape(x[0]))->0))
        } else if x[1] == 1 && x[0] != 1 {
            Some(AttentionError::NotSingleBatch)
        } else if x[1] == 1 && past + 1 > self.max_seq {
            Some(AttentionError::CacheOverflow)
        } else if past + x[1] > self.max_seq {
            Some(AttentionError::PositionsExceeded)
        } else {
            None
        }
    }

    /// Without a record, the new tokens go into the cache, a single one by a way of its
    /// own; a new cache is made if none is given. With a record, every step is one, and
    /// there is no cache.
    pub open spec fn computes<F: Fpu>(
        &self,
        f: &F,
        x: Tensor,
        cache: Option<KVCacheInner>,
        mode: GradMode,
        steps: Seq<Node>,
        after: Option<KVCacheInner>,
    ) -> bool {
        if mode.no_grad() {
            &&& steps.len() == 1
            &&& steps[0].parents@ == Seq::<usize>::empty()
            &&& after is Some
            &&& self.continues(f, x, cache, mode, steps[0].tensor, after->0)
        } else {
            &&& after is None
            &&& training::trained(f, *self, x, mode, steps)
        }
    }

    /// The new tokens have been added to the cache that was given, or to a new one.
    pub open spec fn continues<F: Fpu>(
        &self,
        f: &F,
        x: Tensor,
        cache: Option<KVCacheInner>,
        mode: GradMode,
        t: Tensor,
        after: KVCacheInner,
    ) -> bool {
        exists|before: KVCacheInner| #[trigger]
            self.starts_from(f, x.spec_shape()[0], cache, before) && if x.spec_shape()[1] == 1 {
                decode::decoded(f, *self, x, before, after, t)
            } else {
                prefill::prefilled(f, *self, x, mode, before, after, t)
            }
    }

    /// The cache that was given, or a new one in the precision of the layer.
    pub open spec fn starts_from<F: Fpu>(&self, f: &F, b: usize, cache: Option<KVCacheInner>, before: KVCacheInner) -> bool {
        match cache {
            Some(c) => before == c,
            None => before.is_new(f, self.cache_shape(b), self.runtime_dtype, false),
        }
    }

    /// Attention of `x[B, S, E]` to itself and to what the cache holds.
    pub fn forward<F: Fpu>(&self, x: &Tensor, cache: Option<KVCacheInner>, mode: &GradMode, f: &F) -> (r: Result<
        (Vec<Node>, Option<KVCacheInner>),
        AttentionError,
    >)
        requires
            self.wf(),
            x.wf(),
            cache matches Some(c) ==> c.wf(),
            self.manageable(x.spec_shape()),
        ensures
            match self.forward_error(x.spec_shape(), cache, *mode) {
                Some(e) => r == Err::<(Vec<Node>, Option<KVCacheInner>), AttentionError>(e),
                None => r matches Ok(v) && self.computes(f, *x, cache, *mode, v.0@, v.1) && trace::steps_wf(
                    training::attention_operands(*self, x.spec_shape()),
                    v.0@,
                ) && v.0@.last().tensor.spec_shape() == x.spec_shape() && v.0@.last().tensor.grad is None && (
                v.1 matches Some(c) ==> c.wf()),
            },
    {
        let xs: Vec<usize> = x.shape_vec();
        if xs.len() != 3 {
            return Err(AttentionError::NotThreeDimensional);
        }
        let b: usize = xs[0];
        let s: usize = xs[1];
        if b == 0 {
            return Err(AttentionError::NoBatch);
        }
        if s == 0 {
            return Err(AttentionError::NoSteps);
        }
        if xs[2] != self.w_q.in_features {
            return Err(AttentionError::HiddenMismatch);
        }
        if !is_no_grad(mode) {
            if cache.is_some() {
                return Err(AttentionError::CacheInTraining);
            }
            if s > self.max_seq {
                return Err(AttentionError::PositionsExceeded);
            }
            return Ok((self.record(x, mode, f), None));
        }
        let ghost given = cache;
        let mut own = match cache {
            Some(c) => c,
            None => match KVCacheInner::new_with_dtype(b, self.n_kv_head, self.max_seq, self.head_dim, self.runtime_dtype, f) {
                Ok(c) => c,
                Err(e) => {
                    return Err(AttentionError::Cache(e));
                },
            },
        };
        match self.assert_cache_compatible(&own, b) {
            Ok(()) => {},
            Err(e) => {
                return Err(AttentionError::Cache(e));
            },
        }
        let past: usize = own.len;
        if s == 1 {
            if b != 1 {
                return Err(AttentionError::NotSingleBatch);
            }
            if past >= self.max_seq {
                return Err(AttentionError::CacheOverflow);
            }
        } else if s > self.max_seq - past {
            return Err(AttentionError::PositionsExceeded);
        }
        let ghost before = own;
        assert(self.starts_from(f, b, given, before));
        let t = if s == 1 {
            assert(x.spec_shape() =~= seq![1usize, 1usize, self.w_q.in_features]);
            let t = self.decode(x, &mut own, mode, f);
            assert(t.spec_shape() =~= x.spec_shape());
            t
        } else {
            self.prefill(x, &mut own, mode, f)
        };
        let mut steps: Vec<Node> = Vec::new();
        let ghost result = t;
        add_step(&mut steps, t, Vec::new(), Ghost(training::attention_operands(*self, x.spec_shape())));
        proof {
            assert(steps@[0].tensor == result);
            assert(steps@[0].parents@ =~= Seq::<usize>::empty());
            assert(self.continues(f, *x, given, *mode, result, own));
        }
        Ok((steps, Some(own)))
    }

    /// The four weights.
    pub fn parameters(&self) -> (p: Vec<Tensor>)
        requires
            self.wf(),
        ensures
            p@ == seq![self.w_q.weight, self.w_k.weight, self.w_v.weight, self.w_o.weight],
    {
        let mut p: Vec<Tensor> = self.w_q.parameters();
        let mut k: Vec<Tensor> = self.w_k.parameters();
        let mut v: Vec<Tensor> = self.w_v.parameters();
        let mut o: Vec<Tensor> = self.w_o.parameters();
        p.append(&mut k);
        p.append(&mut v);
        p.append(&mut o);
        assert(p@ =~= seq![self.w_q.weight, self.w_k.weight, self.w_v.weight, self.w_o.weight]);
        p
    }
}

/// How many tokens a cache holds; none is there without one.
pub open spec fn tokens_in(cache: Option<KVCacheInner>) -> int {
    match cache {
        Some(c) => c.len as int,
        None => 0,
    }
}

/// Tokens that are taken one part after the other, without a record, are counted in the
/// cache as if they had been taken at once.
pub proof fn law_parts_fill_the_cache<F: Fpu>(
    a: SelfAttention,
    f: &F,
    cache: Option<KVCacheInner>,
    first: Tensor,
    second: Tensor,
    mode: GradMode,
    first_steps: Seq<Node>,
    middle: Option<KVCacheInner>,
    second_steps: Seq<Node>,
    last: Option<KVCacheInner>,
)
    requires
        mode.no_grad(),
        first.spec_shape().len() == 3,
        second.spec_shape().len() == 3,
        tokens_in(cache) + first.spec_shape()[1] + second.spec_shape()[1] <= usize::MAX,
        a.computes(f, first, cache, mode, first_steps, middle),
        a.computes(f, second, middle, mode, second_steps, last),
    ensures
        tokens_in(middle) == tokens_in(cache) + first.spec_shape()[1],
        tokens_in(last) == tokens_in(cache) + first.spec_shape()[1] + second.spec_shape()[1],
{
    lemma_tokens_counted(a, f, cache, first, mode, first_steps, middle);
    lemma_tokens_counted(a, f, middle, second, mode, second_steps, last);
}

proof fn lemma_tokens_counted<F: Fpu>(
    a: SelfAttention,
    f: &F,
    cache: Option<KVCacheInner>,
    x: Tensor,
    mode: GradMode,
    steps: Seq<Node>,
    after: Option<KVCacheInner>,
)
    requires
        mode.no_grad(),
        tokens_in(cache) + x.spec_shape()[1] <= usize::MAX,
        a.computes(f, x, cache, mode, steps, after),
    ensures
        after is Some,
        tokens_in(after) == tokens_in(cache) + x.spec_shape()[1],
{
    let before = choose|before: KVCacheInner| #[trigger]
        a.starts_from(f, x.spec_shape()[0], cache, before) && if x.spec_shape()[1] == 1 {
            decode::decoded(f, a, x, before, after->0, steps[0].tensor)
        } else {
            prefill::prefilled(f, a, x, mode, before, after->0, steps[0].tensor)
        };
    assert(before.len == tokens_in(cache));
}

/// The scores of a layer are scaled by the inverse of the root of the number of features of a
/// head, whatever that number: where `x` is no more than the root and `p` no less than its
/// inverse, the scale is no more than `p`; where `x` is no less than the root and `p` no more
/// than its inverse, the scale is no less than `p`. So the scale of heads of `d * d` features
/// is the number `1 / d`, if it is one.
pub proof fn law_scale_is_the_inverse_root<F: Fpu>(
    a: SelfAttention,
    f: &F,
    rd: spec_fn(int, int) -> int,
    size: AttentionShape,
    theta: u32,
    causal: bool,
    w: AttentionWeights,
    parameter_dtype: DType,
    runtime_dtype: DType,
    x: u32,
    p: u32,
)
    requires
        rounding::rounds_by(f, rd),
        a.is_built(f, size, theta, causal, w, parameter_dtype, runtime_dtype),
        a.head_dim < 0x100_0000,
        float_bits::is_finite(x),
        float_bits::is_finite(p),
        rounding::value(x) > 0,
        rounding::value(p) > 0,
    ensures
        !float_bits::is_nan(a.scale),
        rounding::value(x) * rounding::value(x) <= (size.head_dim() * rounding::unit()) * rounding::unit()
            && rounding::unit() * rounding::unit() <= rounding::value(p) * rounding::value(x) ==> rounding::value(a.scale)
            <= rounding::value(p),
        (size.head_dim() * rounding::unit()) * rounding::unit() <= rounding::value(x) * rounding::value(x)
            && rounding::value(p) * rounding::value(x) <= rounding::unit() * rounding::unit() ==> rounding::value(p)
            <= rounding::value(a.scale),
{
    let n = a.head_dim;
    let u = rounding::unit();
    let (c, q) = choose|c: u32, q: u32|
        fpu::counts(f, n, c) && #[trigger] fpu::sqrts(f, c, q) && fpu::divs(f, fpu::ONE, q, a.scale);
    rounding::lemma_constants();
    rounding::lemma_count_is_exact(f, rd, n, c);
    let vc = rounding::value(c);
    let (vx, vp, vq) = (rounding::value(x), rounding::value(p), rounding::value(q));
    assert(vc >= u && vc * u >= u * u && vc * u <= vc * vc) by (nonlinear_arith)
        requires
            vc == n * u,
            n >= 1,
            u > 0,
    ;
    assert(rounding::is_root(c, q));
    assert(rounding::value(fpu::ONE) == u && rounding::value(fpu::ONE) >= 0);
    assert(u <= vq && vq <= vc);
    rounding::lemma_finite_between(fpu::ONE, q, c);
    rounding::lemma_rounds_to_side(rd, u * u, vq, p);
    if vx * vx <= vc * u && u * u <= vp * vx {
        assert(vx <= vq);
        assert(vp * vx <= vp * vq) by (nonlinear_arith)
            requires
                vx <= vq,
                vp > 0,
        ;
    }
    if vc * u <= vx * vx && vp * vx <= u * u {
        assert(vq <= vx);
        assert(vp * vq <= vp * vx) by (nonlinear_arith)
            requires
                vq <= vx,
                vp > 0,
        ;
    }
}

} // verus!
