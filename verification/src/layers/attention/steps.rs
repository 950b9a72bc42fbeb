use crate::array::NdArray;
use crate::autograd;
use crate::autograd::Tensor;
use crate::fixed;
use crate::float_bits;
use crate::fpu;
use crate::fpu::Fpu;
use crate::layers::attention::attend;
use crate::layers::attention::attend::{Gathered, WEIGHT_FLOOR};
use crate::layers::attention::cache::KVCacheInner;
use crate::layers::attention::causal;
use crate::layers::attention::decode;
use crate::layers::attention::decode::Decoding;
use crate::layers::attention::encoding;
use crate::layers::attention::parts;
use crate::layers::attention::self_attention::SelfAttention;
use crate::layers::basic::linear;
use crate::ops::matmul;
use crate::ops::matvec;
use crate::ops::projection;
use crate::ops::projection::WeightRows;
use crate::ops::rows;
use vstd::prelude::*;

verus! {

/// A row has one projection.
proof fn lemma_one_projection<F: Fpu>(f: &F, input: Tensor, w: Tensor, bytes: bool, out: Seq<u32>, other: Seq<u32>)
    requires
        fpu::fixed_answers(f),
        projection::input_projected(f, input, w, bytes, out),
        projection::input_projected(f, input, w, bytes, other),
    ensures
        out == other,
{
    let x = choose|xs: NdArray<u32>| #[trigger]
        autograd::reads_as(f, input.storage, xs) && projection::projected(f, xs.data@, w.storage, bytes, out);
    let y = choose|xs: NdArray<u32>| #[trigger]
        autograd::reads_as(f, input.storage, xs) && projection::projected(f, xs.data@, w.storage, bytes, other);
    fixed::lemma_one_reading(f, input.storage, &x, &y);
    let v = choose|r: WeightRows| #[trigger]
        projection::rows_of(f, w.storage, bytes, r) && projection::row_dots(f, x.data@, r, out);
    let u = choose|r: WeightRows| #[trigger]
        projection::rows_of(f, w.storage, bytes, r) && projection::row_dots(f, x.data@, r, other);
    if !bytes {
        fixed::lemma_one_reading(f, w.storage, &*v->Single_0, &*u->Single_0);
    }
    assert forall|i: int| 0 <= i < out.len() implies #[trigger] out[i] == other[i] by {
        assert(projection::row_dot(f, x.data@, v, i, out[i]));
        assert(projection::row_dot(f, x.data@, u, i, other[i]));
        assert(projection::row_dot(f, x.data@, v, i, other[i]));
        fixed::lemma_one_row_dot(f, x.data@, v, i, out[i], other[i]);
    }
    assert(out =~= other);
}

/// A query is rotated in one way.
proof fn lemma_one_query<F: Fpu>(f: &F, x: Seq<u32>, cos: Seq<u32>, sin: Seq<u32>, y: Seq<u32>, z: Seq<u32>)
    requires
        fpu::fixed_answers(f),
        decode::query_rotated(f, x, cos, sin, y),
        decode::query_rotated(f, x, cos, sin, z),
    ensures
        y == z,
{
    let half = x.len() as int / 2;
    assert forall|j: int| 0 <= j < x.len() implies #[trigger] y[j] == z[j] by {
        if j < half {
            assert(encoding::turned_back(f, x[j], x[j + half], cos[j], sin[j], y[j]));
            assert(encoding::turned_back(f, x[j], x[j + half], cos[j], sin[j], z[j]));
        } else if j < 2 * half {
            let k = j - half;
            assert(encoding::turned_forth(f, x[k], x[k + half], sin[k], cos[k], y[k + half]));
            assert(encoding::turned_forth(f, x[k], x[k + half], sin[k], cos[k], z[k + half]));
        }
    }
    assert(y =~= z);
}

/// One more key and value change what has been gathered in one way.
proof fn lemma_one_gathering<F: Fpu>(
    f: &F,
    before: Gathered,
    other_before: Gathered,
    score: u32,
    value: Seq<u32>,
    after: Gathered,
    other: Gathered,
)
    requires
        fpu::fixed_answers(f),
        before.max == other_before.max,
        before.sum == other_before.sum,
        before.ctx@ == other_before.ctx@,
        attend::gathers(f, before, score, value, after),
        attend::gathers(f, other_before, score, value, other),
    ensures
        after.max == other.max,
        after.sum == other.sum,
        after.ctx@ == other.ctx@,
{
    if float_bits::above(score, before.max) {
        let s = choose|s: u32| #[trigger]
            rows::shifted_exp(f, before.max, score, s) && attend::rescaled(f, before, score, s, value, after);
        let u = choose|s: u32| #[trigger]
            rows::shifted_exp(f, before.max, score, s) && attend::rescaled(f, other_before, score, s, value, other);
        assert(s == u);
        assert forall|i: int| 0 <= i < after.ctx@.len() implies #[trigger] after.ctx@[i] == other.ctx@[i] by {
            assert(attend::scaled_sum(f, before.ctx@[i], s, value[i], after.ctx@[i]));
            assert(attend::scaled_sum(f, before.ctx@[i], s, value[i], other.ctx@[i]));
        }
    } else {
        let w = choose|w: u32| #[trigger]
            rows::shifted_exp(f, score, before.max, w) && attend::joined(f, before, w, value, after);
        let u = choose|w: u32| #[trigger]
            rows::shifted_exp(f, score, before.max, w) && attend::joined(f, other_before, w, value, other);
        assert(w == u);
        assert forall|i: int| 0 <= i < after.ctx@.len() implies #[trigger] after.ctx@[i] == other.ctx@[i] by {
            assert(attend::sum_scaled(f, before.ctx@[i], w, value[i], after.ctx@[i]));
            assert(attend::sum_scaled(f, before.ctx@[i], w, value[i], other.ctx@[i]));
        }
    }
    assert(after.ctx@ =~= other.ctx@);
}

/// What is gathered from the first keys and values depends on them alone.
proof fn lemma_one_online<F: Fpu>(
    f: &F,
    q: Seq<u32>,
    keys: Seq<u32>,
    vals: Seq<u32>,
    base: int,
    other_keys: Seq<u32>,
    other_vals: Seq<u32>,
    other_base: int,
    n: int,
    scale: u32,
    g: Gathered,
    other: Gathered,
)
    requires
        fpu::fixed_answers(f),
        0 <= n,
        forall|j: int|
            0 <= j < n ==> #[trigger] matmul::flat_row(keys, base + j, q.len() as int) == matmul::flat_row(
                other_keys,
                other_base + j,
                q.len() as int,
            ),
        forall|j: int|
            0 <= j < n ==> #[trigger] matmul::flat_row(vals, base + j, q.len() as int) == matmul::flat_row(
                other_vals,
                other_base + j,
                q.len() as int,
            ),
        attend::online(f, q, keys, vals, base, n, scale, g),
        attend::online(f, q, other_keys, other_vals, other_base, n, scale, other),
    ensures
        g.max == other.max,
        g.sum == other.sum,
        g.ctx@ == other.ctx@,
    decreases n,
{
    let d = q.len() as int;
    if n > 0 {
        let (b1, s1) = choose|before: Gathered, score: u32|
            attend::online(f, q, keys, vals, base, n - 1, scale, before) && attend::score_of(
                f,
                q,
                matmul::flat_row(keys, base + n - 1, d),
                scale,
                score,
            ) && #[trigger] attend::gathers(f, before, score, matmul::flat_row(vals, base + n - 1, d), g);
        let (b2, s2) = choose|before: Gathered, score: u32|
            attend::online(f, q, other_keys, other_vals, other_base, n - 1, scale, before) && attend::score_of(
                f,
                q,
                matmul::flat_row(other_keys, other_base + n - 1, d),
                scale,
                score,
            ) && #[trigger] attend::gathers(f, before, score, matmul::flat_row(other_vals, other_base + n - 1, d), other);
        lemma_one_online(f, q, keys, vals, base, other_keys, other_vals, other_base, n - 1, scale, b1, b2);
        let j = n - 1;
        let key = matmul::flat_row(keys, base + j, d);
        let value = matmul::flat_row(vals, base + j, d);
        assert(key == matmul::flat_row(other_keys, other_base + j, d));
        assert(value == matmul::flat_row(other_vals, other_base + j, d));
        assert(base + n - 1 == base + j && other_base + n - 1 == other_base + j);
        let p1 = choose|p: u32| matvec::unrolled_sum(f, q, key, p) && #[trigger] fpu::muls(f, p, scale, s1);
        let p2 = choose|p: u32| matvec::unrolled_sum(f, q, key, p) && #[trigger] fpu::muls(f, p, scale, s2);
        fixed::lemma_one_sum(f, q, key, matvec::unrolled_tree(q.len() as int), p1, p2);
        lemma_one_gathering(f, b1, b2, s1, value, g, other);
    }
}

/// A step from a cache that is not refused.
pub open spec fn is_step<F: Fpu>(
    f: &F,
    att: SelfAttention,
    x: Tensor,
    before: KVCacheInner,
    w: Decoding,
    after: KVCacheInner,
    t: Tensor,
) -> bool {
    &&& att.wf()
    &&& before.wf()
    &&& before.layout_error(att.cache_shape(1)) is None
    &&& before.len < att.max_seq
    &&& decode::is_decoding(f, att, x, before, w, after, t)
}

/// What a head gathers depends on its query and on what the cache holds.
proof fn lemma_one_head<F: Fpu>(
    f: &F,
    q: Seq<u32>,
    cos: Seq<u32>,
    sin: Seq<u32>,
    keys: Seq<u32>,
    vals: Seq<u32>,
    other_keys: Seq<u32>,
    other_vals: Seq<u32>,
    base: int,
    l: int,
    scale: u32,
    out: Seq<u32>,
    other: Seq<u32>,
)
    requires
        fpu::fixed_answers(f),
        0 <= l,
        causal::rows_alike(keys, base, other_keys, base, l, q.len() as int),
        causal::rows_alike(vals, base, other_vals, base, l, q.len() as int),
        decode::head_decoded(f, q, cos, sin, keys, vals, base, l, scale, out),
        decode::head_decoded(f, q, cos, sin, other_keys, other_vals, base, l, scale, other),
    ensures
        out == other,
{
    let r = choose|r: Seq<u32>| #[trigger]
        decode::query_rotated(f, q, cos, sin, r) && attend::online_attended(f, r, keys, vals, base, l, scale, out);
    let s = choose|r: Seq<u32>| #[trigger]
        decode::query_rotated(f, q, cos, sin, r) && attend::online_attended(f, r, other_keys, other_vals, base, l, scale, other);
    lemma_one_query(f, q, cos, sin, r, s);
    let (g1, a1, i1) = choose|g: Gathered, raised: u32, inv: u32|
        #[trigger] attend::online(f, r, keys, vals, base, l, scale, g) && #[trigger] fpu::adds(f, g.sum, WEIGHT_FLOOR, raised)
            && #[trigger] fpu::divs(f, fpu::ONE, raised, inv) && rows::scaled_by(f, g.ctx@, inv, out);
    let (g2, a2, i2) = choose|g: Gathered, raised: u32, inv: u32|
        #[trigger] attend::online(f, r, other_keys, other_vals, base, l, scale, g) && #[trigger] fpu::adds(
            f,
            g.sum,
            WEIGHT_FLOOR,
            raised,
        ) && #[trigger] fpu::divs(f, fpu::ONE, raised, inv) && rows::scaled_by(f, g.ctx@, inv, other);
    lemma_one_online(f, r, keys, vals, base, other_keys, other_vals, base, l, scale, g1, g2);
    assert(a1 == a2);
    assert(i1 == i2);
    fixed::lemma_one_scaling(f, g1.ctx@, i1, out, other);
}

/// The new key and value of a step are those of its token and position.
proof fn lemma_alike_new_rows<F: Fpu>(
    f: &F,
    att: SelfAttention,
    x: Tensor,
    before: KVCacheInner,
    w: Decoding,
    after: KVCacheInner,
    t: Tensor,
    other_before: KVCacheInner,
    other_w: Decoding,
    other_after: KVCacheInner,
    other_t: Tensor,
    h: int,
)
    requires
        fpu::fixed_answers(f),
        is_step(f, att, x, before, w, after, t),
        is_step(f, att, x, other_before, other_w, other_after, other_t),
        before.len == other_before.len,
        0 <= h < att.n_kv_head,
    ensures
        w.q == other_w.q,
        w.new_keys.shape@ == seq![1usize, att.n_kv_head, 1usize, att.head_dim],
        other_w.new_keys.shape@ == w.new_keys.shape@,
        parts::row_at(w.new_keys, 0, h, 0) == parts::row_at(other_w.new_keys, 0, h, 0),
        parts::row_at(w.new_values, 0, h, 0) == parts::row_at(other_w.new_values, 0, h, 0),
{
    let bytes = projection::all_bytes(seq![att.w_q.weight, att.w_k.weight, att.w_v.weight]);
    lemma_one_projection(f, x, att.w_q.weight, bytes, w.q, other_w.q);
    lemma_one_projection(f, x, att.w_k.weight, bytes, w.k, other_w.k);
    lemma_one_projection(f, x, att.w_v.weight, bytes, w.v, other_w.v);
    let d = att.head_dim as int;
    let kv = att.n_kv_head as int;
    let src = matmul::flat_row(w.k, h, d);
    assert(w.k.len() == kv * d);
    assert(0 <= h * d && h * d + d <= kv * d) by (nonlinear_arith)
        requires
            0 <= h < kv,
            0 <= d,
    ;
    assert(src.len() == d);
    let zeros = Seq::new(d as nat, |i: int| fpu::ZERO);
    let a = matmul::flat_row(w.new_keys.data@, h, d);
    let c = matmul::flat_row(other_w.new_keys.data@, h, d);
    assert(att.rope.token_rotated(f, src, zeros, before.len as int, a));
    assert(att.rope.token_rotated(f, src, zeros, before.len as int, c));
    encoding::lemma_one_token(att.rope, f, src, zeros, before.len as int, a, c);
    assert(causal::head_at(0, h, 0, kv, 1) == h) by (nonlinear_arith)
        requires
            causal::head_at(0, h, 0, kv, 1) == (0 * kv + h) * 1 + 0,
    ;
}

/// Where the processor answers alike, a step of decoding depends on its token and on what
/// the cache holds, and on nothing else: from caches that hold the same, the token comes out
/// the same, and the caches hold the same again. So tokens that follow a text that was taken
/// in parts come out as those that follow the text taken at once.
pub proof fn law_steps_continue_alike<F: Fpu>(
    att: SelfAttention,
    f: &F,
    x: Tensor,
    before: KVCacheInner,
    other_before: KVCacheInner,
    after: KVCacheInner,
    other_after: KVCacheInner,
    t: Tensor,
    other_t: Tensor,
)
    requires
        fpu::fixed_answers(f),
        att.wf(),
        before.wf(),
        other_before.wf(),
        before.layout_error(att.cache_shape(1)) is None,
        other_before.layout_error(att.cache_shape(1)) is None,
        before.len < att.max_seq,
        before.dtype == other_before.dtype,
        parts::same_contents(before, other_before),
        decode::decoded(f, att, x, before, after, t),
        decode::decoded(f, att, x, other_before, other_after, other_t),
    ensures
        t.storage is F32,
        other_t.storage is F32,
        t.spec_shape() == other_t.spec_shape(),
        t.storage->F32_0.data@ == other_t.storage->F32_0.data@,
        parts::same_contents(after, other_after),
{
    let w = choose|w: Decoding| decode::is_decoding(f, att, x, before, w, after, t);
    let v = choose|w: Decoding| decode::is_decoding(f, att, x, other_before, w, other_after, other_t);
    assert(is_step(f, att, x, before, w, after, t));
    assert(is_step(f, att, x, other_before, v, other_after, other_t));
    let (n, kv, rep, room, d) = (
        att.n_head as int,
        att.n_kv_head as int,
        att.n_rep(),
        att.max_seq as int,
        att.head_dim as int,
    );
    let full = att.cache_shape(1);
    let past = before.len as int;
    let l = past + 1;
    lemma_alike_new_rows(f, att, x, before, w, after, t, other_before, v, other_after, other_t, 0);
    assert(w.new_keys.shape@ =~= full.update(2, 1usize));
    assert(w.new_values.shape@ =~= full.update(2, 1usize));
    assert(v.new_keys.shape@ =~= full.update(2, 1usize));
    assert(v.new_values.shape@ =~= full.update(2, 1usize));
    assert(w.keys.shape@ == full && v.keys.shape@ == full && w.values.shape@ == full && v.values.shape@ == full);
    assert forall|b: int, h: int, p: int| 0 <= b < 1 && 0 <= h < kv && 0 <= p < l implies parts::row_at(w.keys, b, h, p)
        == parts::row_at(v.keys, b, h, p) && parts::row_at(w.values, b, h, p) == parts::row_at(v.values, b, h, p) by {
        parts::lemma_written_row(f, before.k.storage, &w.new_keys, past, after.k.storage, &w.keys, 0, h, p);
        parts::lemma_written_row(f, before.v.storage, &w.new_values, past, after.v.storage, &w.values, 0, h, p);
        parts::lemma_written_row(f, other_before.k.storage, &v.new_keys, past, other_after.k.storage, &v.keys, 0, h, p);
        parts::lemma_written_row(f, other_before.v.storage, &v.new_values, past, other_after.v.storage, &v.values, 0, h, p);
        if p < past {
            assert(parts::stored_row(before.k.storage, 0, h, p) == parts::stored_row(other_before.k.storage, 0, h, p));
            assert(parts::stored_row(before.v.storage, 0, h, p) == parts::stored_row(other_before.v.storage, 0, h, p));
        } else {
            lemma_alike_new_rows(f, att, x, before, w, after, t, other_before, v, other_after, other_t, h);
        }
    }
    assert(parts::caches_alike(w.keys, v.keys, l));
    assert(parts::caches_alike(w.values, v.values, l));
    let c1 = choose|a: NdArray<u32>| #[trigger]
        autograd::reads_as(f, att.rope.cos_cache.storage, a) && w.cos == matmul::flat_row(a.data@, past, d);
    let c2 = choose|a: NdArray<u32>| #[trigger]
        autograd::reads_as(f, att.rope.cos_cache.storage, a) && v.cos == matmul::flat_row(a.data@, past, d);
    fixed::lemma_one_reading(f, att.rope.cos_cache.storage, &c1, &c2);
    let s1 = choose|a: NdArray<u32>| #[trigger]
        autograd::reads_as(f, att.rope.sin_cache.storage, a) && w.sin == matmul::flat_row(a.data@, past, d);
    let s2 = choose|a: NdArray<u32>| #[trigger]
        autograd::reads_as(f, att.rope.sin_cache.storage, a) && v.sin == matmul::flat_row(a.data@, past, d);
    fixed::lemma_one_reading(f, att.rope.sin_cache.storage, &s1, &s2);
    vstd::arithmetic::div_mod::lemma_fundamental_div_mod(n, kv);
    assert(rep > 0) by (nonlinear_arith)
        requires
            n == kv * rep,
            n > 0,
            kv > 0,
    ;
    assert forall|h: int| 0 <= h < n implies #[trigger] matmul::flat_row(w.context, h, d) == matmul::flat_row(
        v.context,
        h,
        d,
    ) by {
        let hk = h / rep;
        assert(0 <= hk < kv) by (nonlinear_arith)
            requires
                0 <= h < kv * rep,
                rep > 0,
                hk == h / rep,
        ;
        parts::lemma_alike_positions(att, &w.keys, &v.keys, 0, hk, l, l);
        parts::lemma_alike_positions(att, &w.values, &v.values, 0, hk, l, l);
        assert(0 * kv + hk == hk) by (nonlinear_arith);
        let q = matmul::flat_row(w.q, h, d);
        assert(w.q.len() == n * d);
        assert(0 <= h * d && h * d + d <= n * d) by (nonlinear_arith)
            requires
                0 <= h < n,
                0 <= d,
        ;
        assert(q.len() == d);
        lemma_one_head(
            f,
            q,
            w.cos,
            w.sin,
            w.keys.data@,
            w.values.data@,
            v.keys.data@,
            v.values.data@,
            hk * room,
            l,
            att.scale,
            matmul::flat_row(w.context, h, d),
            matmul::flat_row(v.context, h, d),
        );
    }
    fixed::lemma_same_rows(w.context, v.context, n, d);
    let a = t.storage->F32_0.data@;
    let c = other_t.storage->F32_0.data@;
    lemma_one_output(f, att, w.context, a, c);
    assert forall|b: int, h: int, p: int| 0 <= b < 1 && 0 <= h < kv && 0 <= p < l implies parts::stored_row(
        after.k.storage,
        b,
        h,
        p,
    ) == parts::stored_row(other_after.k.storage, b, h, p) && parts::stored_row(after.v.storage, b, h, p) == parts::stored_row(
        other_after.v.storage,
        b,
        h,
        p,
    ) by {
        parts::lemma_read_row(f, after.k.storage, &w.keys, b, h, p);
        parts::lemma_read_row(f, after.v.storage, &w.values, b, h, p);
        parts::lemma_read_row(f, other_after.k.storage, &v.keys, b, h, p);
        parts::lemma_read_row(f, other_after.v.storage, &v.values, b, h, p);
        assert(parts::row_at(w.keys, b, h, p) == parts::row_at(v.keys, b, h, p));
        assert(parts::row_at(w.values, b, h, p) == parts::row_at(v.values, b, h, p));
    }
}

/// What comes out of a context is one row.
proof fn lemma_one_output<F: Fpu>(f: &F, att: SelfAttention, context: Seq<u32>, out: Seq<u32>, other: Seq<u32>)
    requires
        fpu::fixed_answers(f),
        att.w_o.decoded(f, context, out),
        att.w_o.decoded(f, context, other),
    ensures
        out == other,
{
    let k = att.w_o.in_features as int;
    let w = choose|w: NdArray<u32>| #[trigger]
        autograd::reads_as(f, att.w_o.weight.storage, w) && linear::all_rows(f, context, w.data@, k, out) && out.len()
            == att.w_o.out_features;
    let v = choose|w: NdArray<u32>| #[trigger]
        autograd::reads_as(f, att.w_o.weight.storage, w) && linear::all_rows(f, context, w.data@, k, other) && other.len()
            == att.w_o.out_features;
    fixed::lemma_one_reading(f, att.w_o.weight.storage, &w, &v);
    let n = out.len() as int;
    assert forall|i: int| 0 <= i < n implies #[trigger] out[i] == other[i] by {
        let row = matvec::row_of(w.data@, i, k);
        assert(matvec::row_sum(f, n, context, row, out[i]));
        assert(matvec::row_sum(f, n, context, row, other[i]));
        fixed::lemma_one_sum(f, context, row, matvec::row_tree(n, context.len() as int), out[i], other[i]);
    }
    assert(out =~= other);
}

} // verus!
