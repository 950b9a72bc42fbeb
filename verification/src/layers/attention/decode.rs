use crate::array::NdArray;
use crate::autograd;
use crate::autograd::{GradMode, Tensor, TensorStorage};
use crate::dims;
use crate::fpu;
use crate::fpu::Fpu;
use crate::kv_cache;
use crate::kv_cache::write_cache_range;
use crate::layers::activation;
use crate::layers::attention::attend;
use crate::layers::attention::attend::attend_online;
use crate::layers::attention::cache::KVCacheInner;
use crate::layers::attention::encoding;
use crate::layers::attention::encoding::{row_slice, turn_back, turn_forth, RotaryEmbedding};
use crate::layers::attention::self_attention::SelfAttention;
use crate::ops::matmul;
use crate::ops::projection;
use crate::ops::projection::fused_qkv_decode_infer_into;
use std::sync::Arc;
use vstd::prelude::*;

verus! {

/// The features of a query, rotated; a last feature without a partner becomes zero.
pub open spec fn query_rotated<F: Fpu>(f: &F, x: Seq<u32>, cos: Seq<u32>, sin: Seq<u32>, y: Seq<u32>) -> bool {
    let half = x.len() as int / 2;
    &&& y.len() == x.len()
    &&& forall|j: int| 0 <= j < half ==> encoding::turned_back(f, x[j], x[j + half], cos[j], sin[j], #[trigger] y[j])
    &&& forall|j: int| 0 <= j < half ==> encoding::turned_forth(f, x[j], x[j + half], sin[j], cos[j], #[trigger] y[j + half])
    &&& x.len() % 2 == 1 ==> y[x.len() - 1] == fpu::ZERO
}

fn rotate_query<F: Fpu>(x: &[u32], cos: &Vec<u32>, sin: &Vec<u32>, f: &F) -> (y: Vec<u32>)
    requires
        x@.len() == cos@.len() == sin@.len(),
    ensures
        query_rotated(f, x@, cos@, sin@, y@),
{
    let d: usize = x.len();
    let half: usize = d / 2;
    let mut y: Vec<u32> = vec![fpu::ZERO; d];
    for j in 0..half
        invariant
            d == x@.len() == cos@.len() == sin@.len() == y@.len(),
            half == d / 2,
            forall|q: int| 0 <= q < j ==> encoding::turned_back(f, x@[q], x@[q + half], cos@[q], sin@[q], #[trigger] y@[q]),
            forall|q: int|
                0 <= q < j ==> encoding::turned_forth(f, x@[q], x@[q + half], sin@[q], cos@[q], #[trigger] y@[q + half]),
            d % 2 == 1 ==> y@[d - 1] == fpu::ZERO,
    {
        let a: u32 = turn_back(x[j], x[j + half], cos[j], sin[j], f);
        let b: u32 = turn_forth(x[j], x[j + half], sin[j], cos[j], f);
        let ghost before = y@;
        y.set(j, a);
        y.set(j + half, b);
        proof {
            assert forall|q: int| 0 <= q < j + 1 implies encoding::turned_forth(
                f,
                x@[q],
                x@[q + half],
                sin@[q],
                cos@[q],
                #[trigger] y@[q + half],
            ) by {
                if q < j {
                    assert(y@[q + half] == before[q + half]);
                }
            }
        }
    }
    y
}

/// What a head gathers for a single token: its query is rotated, and attends to all
/// positions of the cache that have been written.
pub open spec fn head_decoded<F: Fpu>(
    f: &F,
    q: Seq<u32>,
    cos: Seq<u32>,
    sin: Seq<u32>,
    keys: Seq<u32>,
    vals: Seq<u32>,
    base: int,
    l: int,
    scale: u32,
    out: Seq<u32>,
) -> bool {
    exists|r: Seq<u32>| #[trigger]
        query_rotated(f, q, cos, sin, r) && attend::online_attended(f, r, keys, vals, base, l, scale, out)
}

/// What a step of decoding computes on its way.
pub struct Decoding {
    pub q: Seq<u32>,
    pub k: Seq<u32>,
    pub v: Seq<u32>,
    pub new_keys: NdArray<u32>,
    pub new_values: NdArray<u32>,
    pub keys: NdArray<u32>,
    pub values: NdArray<u32>,
    pub cos: Seq<u32>,
    pub sin: Seq<u32>,
    pub context: Seq<u32>,
}

spec fn decoding_of(
    q: Seq<u32>,
    k: Seq<u32>,
    v: Seq<u32>,
    new_keys: Arc<NdArray<u32>>,
    new_values: Arc<NdArray<u32>>,
    keys: Arc<NdArray<u32>>,
    values: Arc<NdArray<u32>>,
    cos: Seq<u32>,
    sin: Seq<u32>,
    context: Seq<u32>,
) -> Decoding {
    Decoding {
        q,
        k,
        v,
        new_keys: *new_keys,
        new_values: *new_values,
        keys: *keys,
        values: *values,
        cos,
        sin,
        context,
    }
}

/// The keys of a new token, rotated for its position.
pub open spec fn keys_rotated<F: Fpu>(f: &F, rope: RotaryEmbedding, k: Seq<u32>, heads: int, pos: int, a: NdArray<u32>) -> bool {
    let d = rope.dim as int;
    &&& a.wf()
    &&& a.shape@ == seq![1usize, heads as usize, 1usize, rope.dim]
    &&& forall|h: int|
        0 <= h < heads ==> rope.token_rotated(
            f,
            matmul::flat_row(k, h, d),
            Seq::new(d as nat, |i: int| fpu::ZERO),
            pos,
            #[trigger] matmul::flat_row(a.data@, h, d),
        )
}

/// What the heads gather for a single token.
pub open spec fn heads_decoded<F: Fpu>(f: &F, att: SelfAttention, w: Decoding, l: int) -> bool {
    let d = att.head_dim as int;
    &&& w.context.len() == att.n_head * d
    &&& forall|h: int|
        0 <= h < att.n_head ==> head_decoded(
            f,
            matmul::flat_row(w.q, h, d),
            w.cos,
            w.sin,
            w.keys.data@,
            w.values.data@,
            h / att.n_rep() * att.max_seq,
            l,
            att.scale,
            #[trigger] matmul::flat_row(w.context, h, d),
        )
}

/// Keys and values have been written from a position on, and the length has grown.
pub open spec fn cache_extended<F: Fpu>(
    f: &F,
    before: KVCacheInner,
    keys: NdArray<u32>,
    values: NdArray<u32>,
    count: int,
    after: KVCacheInner,
) -> bool {
    &&& kv_cache::range_written(f, before.k.storage, keys, before.len as int, after.k.storage)
    &&& kv_cache::range_written(f, before.v.storage, values, before.len as int, after.v.storage)
    &&& after == (KVCacheInner {
        k: Tensor { storage: after.k.storage, ..before.k },
        v: Tensor { storage: after.v.storage, ..before.v },
        len: (before.len + count) as usize,
        ..before
    })
}

/// One more token: queries, keys and values are projected; keys are rotated and written
/// behind those in the cache; each head attends to what the cache holds; and the result
/// is multiplied by the output weight.
pub open spec fn is_decoding<F: Fpu>(
    f: &F,
    att: SelfAttention,
    x: Tensor,
    before: KVCacheInner,
    w: Decoding,
    after: KVCacheInner,
    t: Tensor,
) -> bool {
    let bytes = projection::all_bytes(seq![att.w_q.weight, att.w_k.weight, att.w_v.weight]);
    let past = before.len as int;
    &&& projection::input_projected(f, x, att.w_q.weight, bytes, w.q)
    &&& projection::input_projected(f, x, att.w_k.weight, bytes, w.k)
    &&& projection::input_projected(f, x, att.w_v.weight, bytes, w.v)
    &&& keys_rotated(f, att.rope, w.k, att.n_kv_head as int, past, w.new_keys)
    &&& w.new_values.wf()
    &&& w.new_values.shape@ == w.new_keys.shape@
    &&& w.new_values.data@ == w.v
    &&& cache_extended(f, before, w.new_keys, w.new_values, 1, after)
    &&& autograd::reads_as(f, after.k.storage, w.keys)
    &&& autograd::reads_as(f, after.v.storage, w.values)
    &&& encoding::row_read(f, att.rope.cos_cache.storage, past, att.head_dim as int, w.cos)
    &&& encoding::row_read(f, att.rope.sin_cache.storage, past, att.head_dim as int, w.sin)
    &&& heads_decoded(f, att, w, past + 1)
    &&& t.wf()
    &&& t.is_leaf(t.storage, false)
    &&& t.storage matches TensorStorage::F32(a) && a.shape@ == seq![1usize, 1usize, att.w_o.out_features] && att.w_o.decoded(
        f,
        w.context,
        a.data@,
    )
}

pub open spec fn decoded<F: Fpu>(f: &F, att: SelfAttention, x: Tensor, before: KVCacheInner, after: KVCacheInner, t: Tensor) -> bool {
    exists|w: Decoding| is_decoding(f, att, x, before, w, after, t)
}

fn rotate_keys<F: Fpu>(rope: &RotaryEmbedding, k: &Vec<u32>, heads: usize, pos: usize, f: &F) -> (a: NdArray<u32>)
    requires
        rope.wf(),
        pos < rope.max_seq_len,
        k@.len() == heads * rope.dim,
        dims::fits(seq![1usize, heads, 1usize, rope.dim]),
    ensures
        keys_rotated(f, *rope, k@, heads as int, pos as int, a),
{
    let d: usize = rope.dim;
    let mut data: Vec<u32> = Vec::with_capacity(k.len());
    let ghost zeros = Seq::new(d as nat, |i: int| fpu::ZERO);
    assert(0 * d == 0) by (nonlinear_arith);
    for h in 0..heads
        invariant
            rope.wf(),
            d == rope.dim,
            pos < rope.max_seq_len,
            k@.len() == heads * d,
            zeros == Seq::new(d as nat, |i: int| fpu::ZERO),
            data@.len() == h * d,
            forall|p: int|
                0 <= p < h ==> rope.token_rotated(
                    f,
                    matmul::flat_row(k@, p, d as int),
                    zeros,
                    pos as int,
                    #[trigger] matmul::flat_row(data@, p, d as int),
                ),
    {
        let src = row_slice(k, h, heads, d);
        let mut row: Vec<u32> = vec![fpu::ZERO; d];
        assert(row@ =~= zeros);
        let done = rope.rope_1token_copy(src, &mut row, pos, f);
        assert(done is Ok);
        let ghost before = data@;
        let ghost own = row@;
        assert(own.len() == d);
        data.append(&mut row);
        proof {
            assert((h + 1) * d == h * d + d) by (nonlinear_arith);
            assert(matmul::flat_row(data@, h as int, d as int) =~= own);
            assert forall|p: int| 0 <= p < h implies #[trigger] matmul::flat_row(data@, p, d as int) == matmul::flat_row(
                before,
                p,
                d as int,
            ) by {
                activation::lemma_rows_stay(before, own, h as int, p, d as int);
            }
        }
    }
    let shape: Vec<usize> = vec![1, heads, 1, d];
    proof {
        assert(shape@ =~= seq![1usize, heads, 1usize, rope.dim]);
        lemma_one_position(heads, d);
    }
    NdArray { shape, data }
}

/// One position of several heads.
pub proof fn lemma_one_position(heads: usize, d: usize)
    ensures
        dims::product(seq![1usize, heads, 1usize, d]) == heads * d,
{
    matmul::lemma_product4(seq![1usize, heads, 1usize, d]);
    let h = heads as int;
    let e = d as int;
    assert((1 * h) * (1 * e) == h * e) by (nonlinear_arith);
}

impl SelfAttention {
    /// Attention for one more token.
    pub(crate) fn decode<F: Fpu>(&self, x: &Tensor, cache: &mut KVCacheInner, mode: &GradMode, f: &F) -> (t: Tensor)
        requires
            self.wf(),
            x.wf(),
            mode.no_grad(),
            x.spec_shape() == seq![1usize, 1usize, self.w_q.in_features],
            old(cache).wf(),
            old(cache).layout_error(self.cache_shape(1)) is None,
            old(cache).len < self.max_seq,
        ensures
            decoded(f, *self, *x, *old(cache), *final(cache), t),
            final(cache).wf(),
            t.wf(),
            t.op is None,
            t.spec_shape() == seq![1usize, 1usize, self.w_o.out_features],
            t.grad is None,
    {
        let d: usize = self.head_dim;
        let h: usize = self.n_head;
        let h_kv: usize = self.n_kv_head;
        let past: usize = cache.len;
        let q_n: usize = self.w_q.out_features;
        let kv_n: usize = self.w_k.out_features;
        let mut q: Vec<u32> = vec![fpu::ZERO; q_n];
        let mut k: Vec<u32> = vec![fpu::ZERO; kv_n];
        let mut v: Vec<u32> = vec![fpu::ZERO; kv_n];
        let done = fused_qkv_decode_infer_into(
            x,
            &self.w_q.weight,
            &self.w_k.weight,
            &self.w_v.weight,
            &mut q,
            &mut k,
            &mut v,
            mode,
            f,
        );
        proof {
            assert(h * d > 0) by (nonlinear_arith)
                requires
                    h > 0,
                    d > 0,
            ;
            assert(done is Ok);
        }
        let ghost before = *cache;
        proof {
            lemma_cache_extents(*self, before);
        }
        let new_keys = Arc::new(rotate_keys(&self.rope, &k, h_kv, past, f));
        let v_shape: Vec<usize> = vec![1, h_kv, 1, d];
        proof {
            assert(v_shape@ =~= seq![1usize, h_kv, 1usize, d]);
            lemma_one_position(h_kv, d);
        }
        let ghost v_seq = v@;
        let new_values = Arc::new(NdArray { shape: v_shape, data: v });
        proof {
            let full = self.cache_shape(1);
            assert(new_keys.shape@ =~= full.update(2, 1usize));
            assert(new_values.shape@ =~= full.update(2, 1usize));
        }
        write_cache_range(&mut cache.k, past, &new_keys, f);
        write_cache_range(&mut cache.v, past, &new_values, f);
        cache.len = past + 1;
        let keys = cache.k.data_arc(f);
        let values = cache.v.data_arc(f);
        let (cos, sin) = match self.rope.cos_sin_row_vec(past, f) {
            Ok(rows) => rows,
            Err(_) => {
                assert(false);
                (Vec::new(), Vec::new())
            },
        };
        proof {
            lemma_row_lengths(f, self.rope, past as int, cos@, sin@);
        }
        let context: Vec<u32> = self.attend_heads(&q, &cos, &sin, &keys, &values, past + 1, f);
        let t = match self.w_o.forward_decode_slice_no_bias(context.as_slice(), mode, f) {
            Ok(t) => t,
            Err(_) => {
                assert(false);
                x.clone()
            },
        };
        proof {
            let w = decoding_of(
                q@,
                k@,
                v_seq,
                new_keys,
                new_values,
                keys,
                values,
                cos@,
                sin@,
                context@,
            );
            assert(cache_extended(f, before, *new_keys, *new_values, 1, *cache));
            assert(heads_decoded(f, *self, w, past + 1));
            assert(is_decoding(f, *self, *x, before, w, *cache, t));
        }
        t
    }

    /// What each head gathers from the first `l` positions of the cache.
    fn attend_heads<F: Fpu>(
        &self,
        q: &Vec<u32>,
        cos: &Vec<u32>,
        sin: &Vec<u32>,
        keys: &NdArray<u32>,
        values: &NdArray<u32>,
        l: usize,
        f: &F,
    ) -> (out: Vec<u32>)
        requires
            self.wf(),
            q@.len() == self.n_head * self.head_dim,
            cos@.len() == self.head_dim,
            sin@.len() == self.head_dim,
            keys.wf(),
            values.wf(),
            keys.shape@ == self.cache_shape(1),
            values.shape@ == self.cache_shape(1),
            l <= self.max_seq,
        ensures
            out@.len() == self.n_head * self.head_dim,
            forall|h: int|
                0 <= h < self.n_head ==> head_decoded(
                    f,
                    matmul::flat_row(q@, h, self.head_dim as int),
                    cos@,
                    sin@,
                    keys.data@,
                    values.data@,
                    h / self.n_rep() * self.max_seq,
                    l as int,
                    self.scale,
                    #[trigger] matmul::flat_row(out@, h, self.head_dim as int),
                ),
    {
        let d: usize = self.head_dim;
        let heads: usize = self.n_head;
        let n_rep: usize = self.n_head / self.n_kv_head;
        let mut out: Vec<u32> = Vec::with_capacity(q.len());
        let k_len: usize = keys.data.len();
        proof {
            assert(0 * d == 0) by (nonlinear_arith);
            matmul::lemma_product4(keys.shape@);
            matmul::lemma_product4(values.shape@);
            matmul::lemma_fits4(keys.shape@);
            let kv = self.n_kv_head as int;
            assert(1 * kv == kv);
            vstd::arithmetic::div_mod::lemma_fundamental_div_mod(self.n_head as int, self.n_kv_head as int);
        }
        for h in 0..heads
            invariant
                self.wf(),
                d == self.head_dim,
                heads == self.n_head,
                n_rep == self.n_rep(),
                heads == self.n_kv_head * n_rep,
                l <= self.max_seq,
                q@.len() == heads * d,
                cos@.len() == d,
                sin@.len() == d,
                k_len == keys.data@.len(),
                values.data@.len() == keys.data@.len(),
                keys.data@.len() == (self.n_kv_head * self.max_seq) * d,
                self.n_kv_head * self.max_seq <= usize::MAX,
                out@.len() == h * d,
                forall|p: int|
                    0 <= p < h ==> head_decoded(
                        f,
                        matmul::flat_row(q@, p, d as int),
                        cos@,
                        sin@,
                        keys.data@,
                        values.data@,
                        p / self.n_rep() * self.max_seq,
                        l as int,
                        self.scale,
                        #[trigger] matmul::flat_row(out@, p, d as int),
                    ),
        {
            proof {
                let n = n_rep as int;
                let kv = self.n_kv_head as int;
                let hh = h as int;
                assert(n > 0 && 0 <= hh / n && hh / n < kv) by (nonlinear_arith)
                    requires
                        0 <= hh < kv * n,
                        n >= 0,
                        kv > 0,
                ;
                let hk = hh / n;
                let room = self.max_seq as int;
                assert(0 <= hk * room && hk * room + room <= kv * room) by (nonlinear_arith)
                    requires
                        0 <= hk < kv,
                        room >= 0,
                ;
                let base = hk * room;
                let rows = kv * room;
                assert((base + l) * d <= rows * d) by (nonlinear_arith)
                    requires
                        base + l <= rows,
                        d >= 0,
                ;
                assert((h + 1) * d == h * d + d) by (nonlinear_arith);
            }
            let query = row_slice(q, h, heads, d);
            let r: Vec<u32> = rotate_query(query, cos, sin, f);
            let base: usize = h / n_rep * self.max_seq;
            let mut row: Vec<u32> = attend_online(r.as_slice(), &keys.data, &values.data, base, l, self.scale, f);
            let ghost before = out@;
            let ghost own = row@;
            assert(head_decoded(
                f,
                query@,
                cos@,
                sin@,
                keys.data@,
                values.data@,
                base as int,
                l as int,
                self.scale,
                own,
            ));
            out.append(&mut row);
            proof {
                assert(matmul::flat_row(out@, h as int, d as int) =~= own);
                assert forall|p: int| 0 <= p < h implies #[trigger] matmul::flat_row(out@, p, d as int) == matmul::flat_row(
                    before,
                    p,
                    d as int,
                ) by {
                    activation::lemma_rows_stay(before, own, h as int, p, d as int);
                }
            }
        }
        out
    }
}

/// One position of the caches of a layer fits, and its rows have the right length.
proof fn lemma_cache_extents(att: SelfAttention, cache: KVCacheInner)
    requires
        att.wf(),
        cache.wf(),
        cache.layout_error(att.cache_shape(1)) is None,
    ensures
        dims::fits(seq![1usize, att.n_kv_head, 1usize, att.head_dim]),
        cache.k.spec_shape().len() == 4,
        cache.v.spec_shape().len() == 4,
{
    let full = att.cache_shape(1);
    dims::lemma_shorter_axis_fits(full, 2, 1usize);
    assert(full.update(2, 1usize) =~= seq![1usize, att.n_kv_head, 1usize, att.head_dim]);
}

/// A row of the tables has one value per feature.
proof fn lemma_row_lengths<F: Fpu>(f: &F, rope: RotaryEmbedding, pos: int, cos: Seq<u32>, sin: Seq<u32>)
    requires
        rope.wf(),
        0 <= pos < rope.max_seq_len,
        encoding::row_read(f, rope.cos_cache.storage, pos, rope.dim as int, cos),
        encoding::row_read(f, rope.sin_cache.storage, pos, rope.dim as int, sin),
    ensures
        cos.len() == rope.dim,
        sin.len() == rope.dim,
{
    encoding::lemma_table_size(rope.max_seq_len, rope.dim);
    let d = rope.dim as int;
    let n = rope.max_seq_len as int;
    assert(0 <= pos * d && pos * d + d <= n * d) by (nonlinear_arith)
        requires
            0 <= pos < n,
            d >= 0,
    ;
}

} // verus!
