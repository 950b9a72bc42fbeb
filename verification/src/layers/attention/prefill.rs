use crate::array::NdArray;
use crate::autograd;
use crate::autograd::{GradMode, Tensor, TensorStorage};
use crate::dims;
use crate::fpu::Fpu;
use crate::kv_cache::write_cache_range;
use crate::layers::attention::attend;
use crate::layers::attention::attend::gqa_attention_no_repeat_bshd_view;
use crate::layers::attention::cache::KVCacheInner;
use crate::layers::attention::decode;
use crate::layers::attention::heads;
use crate::layers::attention::heads::{split_heads, HeadSplit};
use crate::layers::attention::self_attention::SelfAttention;
use crate::layers::basic::linear;
use crate::ops::matmul;
use crate::ops::shape;
use crate::ops::shape::reshape_exact;
use std::sync::Arc;
use vstd::prelude::*;

verus! {

/// What a pass over several new tokens computes on its way.
pub struct Prefilling {
    pub q: HeadSplit,
    pub k: HeadSplit,
    pub v: HeadSplit,
    pub q_rot: Tensor,
    pub k_rot: Tensor,
    pub queries: NdArray<u32>,
    pub new_keys: NdArray<u32>,
    pub new_values: NdArray<u32>,
    pub keys: NdArray<u32>,
    pub values: NdArray<u32>,
    pub context: NdArray<u32>,
    pub joined: Tensor,
}

/// Several new tokens: queries, keys and values are projected and split into heads;
/// queries and keys are rotated; keys and values are written behind those in the cache;
/// each head attends to what the cache holds; and the heads, joined again, are
/// multiplied by the output weight.
pub open spec fn is_prefilling<F: Fpu>(
    f: &F,
    att: SelfAttention,
    x: Tensor,
    mode: GradMode,
    before: KVCacheInner,
    w: Prefilling,
    after: KVCacheInner,
    t: Tensor,
) -> bool {
    let b = x.spec_shape()[0];
    let s = x.spec_shape()[1];
    let past = before.len as int;
    &&& heads::is_split(f, x, att.w_q.weight, att.n_head, att.head_dim, mode, w.q)
    &&& heads::is_split(f, x, att.w_k.weight, att.n_kv_head, att.head_dim, mode, w.k)
    &&& heads::is_split(f, x, att.w_v.weight, att.n_kv_head, att.head_dim, mode, w.v)
    &&& att.rope.rope_result(f, w.q.heads, past, mode, w.q_rot)
    &&& att.rope.rope_result(f, w.k.heads, past, mode, w.k_rot)
    &&& autograd::reads_as(f, w.q_rot.storage, w.queries)
    &&& autograd::reads_as(f, w.k_rot.storage, w.new_keys)
    &&& autograd::reads_as(f, w.v.heads.storage, w.new_values)
    &&& decode::cache_extended(f, before, w.new_keys, w.new_values, s as int, after)
    &&& autograd::reads_as(f, after.k.storage, w.keys)
    &&& autograd::reads_as(f, after.v.storage, w.values)
    &&& attend::grouped_attended(
        f,
        w.queries,
        w.keys,
        w.values,
        past + s,
        att.scale,
        att.causal,
        att.n_rep(),
        past,
        w.context,
    )
    &&& joins(f, w.context, seq![b, s, att.w_o.in_features], mode, w.joined)
    &&& matmul::matmul_result(f, w.joined, att.w_o.weight, mode, t)
}

/// The heads of a context, joined.
pub open spec fn joins<F: Fpu>(f: &F, context: NdArray<u32>, target: Seq<usize>, mode: GradMode, joined: Tensor) -> bool {
    exists|c: Tensor| #[trigger]
        c.is_leaf(TensorStorage::F32(Arc::new(context)), false) && shape::reshape_result(f, c, target, mode, joined)
}

pub open spec fn prefilled<F: Fpu>(
    f: &F,
    att: SelfAttention,
    x: Tensor,
    mode: GradMode,
    before: KVCacheInner,
    after: KVCacheInner,
    t: Tensor,
) -> bool {
    exists|w: Prefilling| is_prefilling(f, att, x, mode, before, w, after, t)
}

spec fn prefilling_of(
    q: HeadSplit,
    k: HeadSplit,
    v: HeadSplit,
    q_rot: Tensor,
    k_rot: Tensor,
    queries: Arc<NdArray<u32>>,
    new_keys: Arc<NdArray<u32>>,
    new_values: Arc<NdArray<u32>>,
    keys: Arc<NdArray<u32>>,
    values: Arc<NdArray<u32>>,
    context: Arc<NdArray<u32>>,
    joined: Tensor,
) -> Prefilling {
    Prefilling {
        q,
        k,
        v,
        q_rot,
        k_rot,
        queries: *queries,
        new_keys: *new_keys,
        new_values: *new_values,
        keys: *keys,
        values: *values,
        context: *context,
        joined,
    }
}

impl SelfAttention {
    /// The extents of an input can be handled as far as the machine goes.
    pub open spec fn manageable(&self, x: Seq<usize>) -> bool {
        x.len() == 3 ==> {
            &&& x[0] <= i32::MAX
            &&& x[1] <= i32::MAX
            &&& self.w_q.in_features <= i32::MAX
            &&& dims::fits(self.cache_shape(x[0]))
            &&& dims::fits(seq![x[0], self.n_head, x[1], x[1]])
        }
    }

    /// An input can be multiplied by each of the weights.
    pub proof fn lemma_accepts(&self, x: Tensor)
        requires
            self.wf(),
            x.wf(),
            x.spec_shape().len() == 3,
            x.spec_shape()[2] == self.w_q.in_features,
        ensures
            self.w_q.accepts(x),
            self.w_k.accepts(x),
            self.w_v.accepts(x),
            self.w_o.accepts(x),
            self.n_kv_head * self.head_dim <= self.w_q.in_features,
            self.n_head <= self.w_q.in_features,
            self.head_dim <= self.w_q.in_features,
            self.n_kv_head <= self.n_head,
            self.n_head == self.n_kv_head * self.n_rep(),
    {
        let xs = x.spec_shape();
        let h = self.n_head as int;
        let kv = self.n_kv_head as int;
        let d = self.head_dim as int;
        let n = self.n_rep();
        vstd::arithmetic::div_mod::lemma_fundamental_div_mod(h, kv);
        assert(kv <= h && kv * d <= h * d && h <= h * d && d <= h * d) by (nonlinear_arith)
            requires
                h == kv * n,
                h > 0,
                kv > 0,
                d > 0,
        ;
        assert(self.w_q.output_shape(xs) =~= xs);
        assert(self.w_o.output_shape(xs) =~= xs);
        dims::lemma_shorter_axis_fits(xs, 2, self.w_k.out_features);
    }

    /// Attention for several new tokens.
    pub(crate) fn prefill<F: Fpu>(&self, x: &Tensor, cache: &mut KVCacheInner, mode: &GradMode, f: &F) -> (t: Tensor)
        requires
            self.wf(),
            x.wf(),
            mode.no_grad(),
            x.spec_shape().len() == 3,
            x.spec_shape()[2] == self.w_q.in_features,
            self.manageable(x.spec_shape()),
            old(cache).wf(),
            old(cache).layout_error(self.cache_shape(x.spec_shape()[0])) is None,
            old(cache).len + x.spec_shape()[1] <= self.max_seq,
        ensures
            prefilled(f, *self, *x, *mode, *old(cache), *final(cache), t),
            final(cache).wf(),
            t.wf(),
            t.op is None,
            t.spec_shape() == x.spec_shape(),
            t.grad is None,
    {
        proof {
            self.lemma_accepts(*x);
        }
        let xs: Vec<usize> = x.shape_vec();
        let b: usize = xs[0];
        let s: usize = xs[1];
        let d: usize = self.head_dim;
        let past: usize = cache.len;
        let q = split_heads(x, &self.w_q, self.n_head, d, mode, f);
        let k = split_heads(x, &self.w_k, self.n_kv_head, d, mode, f);
        let v = split_heads(x, &self.w_v, self.n_kv_head, d, mode, f);
        let q_rot = match self.rope.forward(&q.heads, past, mode, f) {
            Ok(t) => t,
            Err(_) => {
                assert(false);
                x.clone()
            },
        };
        let k_rot = match self.rope.forward(&k.heads, past, mode, f) {
            Ok(t) => t,
            Err(_) => {
                assert(false);
                x.clone()
            },
        };
        let ghost before = *cache;
        let queries = q_rot.data_arc(f);
        let new_keys = k_rot.data_arc(f);
        let new_values = v.heads.data_arc(f);
        proof {
            let full = self.cache_shape(b);
            assert(new_keys.shape@ =~= full.update(2, s));
            assert(new_values.shape@ =~= full.update(2, s));
        }
        write_cache_range(&mut cache.k, past, &new_keys, f);
        write_cache_range(&mut cache.v, past, &new_values, f);
        cache.len = past + s;
        assert(decode::cache_extended(f, before, *new_keys, *new_values, s as int, *cache));
        let keys = cache.k.data_arc(f);
        let values = cache.v.data_arc(f);
        let n_rep: usize = self.n_head / self.n_kv_head;
        let total: usize = cache.len;
        let context = Arc::new(
            gqa_attention_no_repeat_bshd_view(&queries, &keys, &values, total, self.scale, self.causal, n_rep, past, f),
        );
        let c = Tensor::from_data_no_grad(context.clone());
        let target: Vec<usize> = vec![b, s, self.w_o.in_features];
        proof {
            assert(target@ =~= seq![b, s, self.w_o.in_features]);
            assert(target@ =~= x.spec_shape());
            heads::lemma_split_axis(b, s, self.n_head, d);
            assert(context.shape@ =~= seq![b, s, self.n_head, d]);
            assert forall|i: int| 0 <= i < target@.len() implies #[trigger] target@[i] <= i32::MAX by {}
        }
        let joined = reshape_exact(&c, &target, mode, f);
        proof {
            self.lemma_accepts(joined);
        }
        let t = match self.w_o.forward(&joined, mode, f) {
            Ok(steps) => {
                assert(linear::is_product(f, joined, self.w_o.weight, *mode, steps@[0]));
                steps[0].tensor.clone()
            },
            Err(_) => {
                assert(false);
                x.clone()
            },
        };
        proof {
            assert(joins(f, *context, seq![b, s, self.w_o.in_features], *mode, joined));
            let w = prefilling_of(
                q,
                k,
                v,
                q_rot,
                k_rot,
                queries,
                new_keys,
                new_values,
                keys,
                values,
                context,
                joined,
            );
            assert(is_prefilling(f, *self, *x, *mode, before, w, *cache, t));
            assert(self.w_o.output_shape(joined.spec_shape()) =~= x.spec_shape());
        }
        t
    }
}

} // verus!
