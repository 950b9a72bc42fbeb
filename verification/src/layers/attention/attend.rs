use crate::array::NdArray;
use crate::float_bits;
use crate::float_bits::is_above;
use crate::fpu;
use crate::fpu::Fpu;
use crate::layers::activation;
use crate::ops::matmul;
use crate::ops::matvec;
use crate::ops::matvec::{dot_straight, dot_unrolled};
use crate::ops::rows;
use crate::ops::rows::exponentiate;
use vstd::prelude::*;

verus! {

/// What is added to the sum of a row before it divides: `1e-9`.
pub const WEIGHT_FLOOR: u32 = 0x3089_705f;

/// The scores times a factor; those behind the visible ones are negative infinity.
pub open spec fn scaled_or_hidden<F: Fpu>(f: &F, xs: Seq<u32>, scale: u32, visible: int, scaled: Seq<u32>) -> bool {
    &&& scaled.len() == xs.len()
    &&& forall|j: int|
        0 <= j < xs.len() ==> if j < visible {
            fpu::muls(f, xs[j], scale, #[trigger] scaled[j])
        } else {
            scaled[j] == fpu::NEG_INFINITY
        }
}

/// The weights of a row of scores: a softmax whose sum is raised by a little.
pub open spec fn attention_weights<F: Fpu>(f: &F, xs: Seq<u32>, scale: u32, visible: int, ys: Seq<u32>) -> bool {
    exists|scaled: Seq<u32>, es: Seq<u32>, total: u32, raised: u32, inv: u32|
        #[trigger] scaled_or_hidden(f, xs, scale, visible, scaled) && #[trigger] rows::exponentials(f, scaled, es, total)
            && #[trigger] fpu::adds(f, total, WEIGHT_FLOOR, raised) && #[trigger] fpu::divs(f, fpu::ONE, raised, inv)
            && rows::scaled_by(f, es, inv, ys)
}

/// Turns a row of scores into weights.
pub fn softmax_inplace_view<F: Fpu>(xs: &[u32], scale: u32, visible: usize, f: &F) -> (ys: Vec<u32>)
    ensures
        attention_weights(f, xs@, scale, visible as int, ys@),
        ys@.len() == xs@.len(),
{
    let mut scaled: Vec<u32> = Vec::with_capacity(xs.len());
    for j in 0..xs.len()
        invariant
            scaled@.len() == j,
            forall|i: int|
                0 <= i < j ==> if i < visible {
                    fpu::muls(f, xs@[i], scale, #[trigger] scaled@[i])
                } else {
                    scaled@[i] == fpu::NEG_INFINITY
                },
    {
        if j < visible {
            scaled.push(f.mul(xs[j], scale));
        } else {
            scaled.push(fpu::NEG_INFINITY);
        }
    }
    assert(scaled_or_hidden(f, xs@, scale, visible as int, scaled@));
    let (es, total) = exponentiate(scaled.as_slice(), f);
    let raised: u32 = f.add(total, WEIGHT_FLOOR);
    let inv: u32 = f.div(fpu::ONE, raised);
    assert(fpu::adds(f, total, WEIGHT_FLOOR, raised) && fpu::divs(f, fpu::ONE, raised, inv));
    let mut ys: Vec<u32> = Vec::with_capacity(es.len());
    for j in 0..es.len()
        invariant
            ys@.len() == j,
            forall|i: int| 0 <= i < j ==> fpu::muls(f, es@[i], inv, #[trigger] ys@[i]),
    {
        ys.push(f.mul(es[j], inv));
    }
    assert(rows::scaled_by(f, es@, inv, ys@));
    ys
}

/// The products of a query with the keys in consecutive rows.
pub open spec fn key_scores<F: Fpu>(f: &F, q: Seq<u32>, keys: Seq<u32>, base: int, l: int, scores: Seq<u32>) -> bool {
    &&& scores.len() == l
    &&& forall|j: int|
        0 <= j < l ==> fpu::dots(f, q, matmul::flat_row(keys, base + j, q.len() as int), #[trigger] scores[j])
}

/// Feature `c` of the values in consecutive rows.
pub open spec fn value_col(vals: Seq<u32>, base: int, l: int, d: int, c: int) -> Seq<u32> {
    Seq::new(l as nat, |j: int| vals[(base + j) * d + c])
}

/// The values in consecutive rows, weighted.
pub open spec fn weighted_values<F: Fpu>(f: &F, weights: Seq<u32>, vals: Seq<u32>, base: int, d: int, out: Seq<u32>) -> bool {
    &&& out.len() == d
    &&& forall|c: int|
        0 <= c < d ==> fpu::dots(f, weights, value_col(vals, base, weights.len() as int, d, c), #[trigger] out[c])
}

/// What a query gathers: the values, weighted by the softmax of its products with the
/// keys. Keys and values stand in `l` rows from `base` on.
pub open spec fn row_attended<F: Fpu>(
    f: &F,
    q: Seq<u32>,
    keys: Seq<u32>,
    vals: Seq<u32>,
    base: int,
    l: int,
    scale: u32,
    visible: int,
    out: Seq<u32>,
) -> bool {
    exists|scores: Seq<u32>, weights: Seq<u32>|
        #[trigger] key_scores(f, q, keys, base, l, scores) && #[trigger] attention_weights(f, scores, scale, visible, weights)
            && weights.len() == l && weighted_values(f, weights, vals, base, q.len() as int, out)
}

/// Consecutive rows lie inside the data.
proof fn lemma_row_inside(base: int, j: int, l: int, d: int, len: int)
    requires
        0 <= base,
        0 <= j < l,
        0 <= d,
        (base + l) * d <= len,
    ensures
        0 <= (base + j) * d,
        (base + j) * d + d <= len,
{
    assert(0 <= (base + j) * d && (base + j) * d + d <= (base + l) * d) by (nonlinear_arith)
        requires
            0 <= base,
            0 <= j < l,
            0 <= d,
    ;
}

/// What a query gathers.
fn attend_row<F: Fpu>(
    q: &[u32],
    keys: &Vec<u32>,
    vals: &Vec<u32>,
    base: usize,
    l: usize,
    scale: u32,
    visible: usize,
    f: &F,
) -> (out: Vec<u32>)
    requires
        (base + l) * q@.len() <= keys@.len(),
        vals@.len() == keys@.len(),
    ensures
        row_attended(f, q@, keys@, vals@, base as int, l as int, scale, visible as int, out@),
        out@.len() == q@.len(),
{
    let d: usize = q.len();
    let len: usize = keys.len();
    let v_len: usize = vals.len();
    let mut scores: Vec<u32> = Vec::with_capacity(l);
    for j in 0..l
        invariant
            d == q@.len(),
            len == keys@.len(),
            (base + l) * d <= len,
            scores@.len() == j,
            forall|i: int| 0 <= i < j ==> fpu::dots(f, q@, matmul::flat_row(keys@, base + i, d as int), #[trigger] scores@[i]),
    {
        proof {
            lemma_row_inside(base as int, j as int, l as int, d as int, len as int);
            if d == 0 {
                assert((base + j) * d == 0) by (nonlinear_arith)
                    requires
                        d == 0,
                ;
            } else {
                assert(base + j <= (base + j) * d) by (nonlinear_arith)
                    requires
                        d >= 1,
                        base + j >= 0,
                ;
            }
        }
        if d == 0 {
            let row = vstd::slice::slice_subrange(keys.as_slice(), 0, 0);
            let s: u32 = f.dot(q, row);
            assert(row@ =~= matmul::flat_row(keys@, base + j, 0));
            scores.push(s);
        } else {
            let row = vstd::slice::slice_subrange(keys.as_slice(), (base + j) * d, (base + j) * d + d);
            scores.push(f.dot(q, row));
        }
    }
    assert(key_scores(f, q@, keys@, base as int, l as int, scores@));
    let weights: Vec<u32> = softmax_inplace_view(scores.as_slice(), scale, visible, f);
    let mut out: Vec<u32> = Vec::with_capacity(d);
    for c in 0..d
        invariant
            d == q@.len(),
            v_len == vals@.len(),
            weights@.len() == l,
            (base + l) * d <= v_len,
            out@.len() == c,
            forall|i: int|
                0 <= i < c ==> fpu::dots(f, weights@, value_col(vals@, base as int, l as int, d as int, i), #[trigger] out@[i]),
    {
        let mut col: Vec<u32> = Vec::with_capacity(l);
        for j in 0..l
            invariant
                c < d,
                v_len == vals@.len(),
                (base + l) * d <= v_len,
                col@.len() == j,
                forall|i: int| 0 <= i < j ==> #[trigger] col@[i] == vals@[(base + i) * d + c],
        {
            proof {
                lemma_row_inside(base as int, j as int, l as int, d as int, v_len as int);
                assert(base + j <= (base + j) * d) by (nonlinear_arith)
                    requires
                        d >= 1,
                        base + j >= 0,
                ;
            }
            col.push(vals[(base + j) * d + c]);
        }
        assert(col@ =~= value_col(vals@, base as int, l as int, d as int, c as int));
        out.push(f.dot(weights.as_slice(), col.as_slice()));
    }
    assert(weighted_values(f, weights@, vals@, base as int, d as int, out@));
    out
}

/// The score of a key for a single step: the sum of products, one after the other, times
/// the scale.
pub open spec fn step_score<F: Fpu>(f: &F, q: Seq<u32>, key: Seq<u32>, scale: u32, score: u32) -> bool {
    exists|p: u32| matvec::straight_sum(f, key, q, p) && #[trigger] fpu::muls(f, p, scale, score)
}

/// The scores of `n` keys in consecutive rows.
pub open spec fn step_scores<F: Fpu>(
    f: &F,
    q: Seq<u32>,
    keys: Seq<u32>,
    base: int,
    n: int,
    scale: u32,
    scores: Seq<u32>,
) -> bool {
    &&& scores.len() == n
    &&& forall|j: int|
        0 <= j < n ==> step_score(f, q, matmul::flat_row(keys, base + j, q.len() as int), scale, #[trigger] scores[j])
}

/// The values in consecutive rows times the exponentials, summed one after the other.
pub open spec fn step_context<F: Fpu>(f: &F, es: Seq<u32>, vals: Seq<u32>, base: int, d: int, ctx: Seq<u32>) -> bool {
    &&& ctx.len() == d
    &&& forall|c: int|
        0 <= c < d ==> matvec::straight_sum(f, value_col(vals, base, es.len() as int, d, c), es, #[trigger] ctx[c])
}

/// What the query of a single step gathers from `n` keys and values in rows from `base`
/// on: the values times the exponentials of their scores are summed up, and the sum is
/// divided by that of the exponentials.
pub open spec fn step_attended<F: Fpu>(
    f: &F,
    q: Seq<u32>,
    keys: Seq<u32>,
    vals: Seq<u32>,
    base: int,
    n: int,
    scale: u32,
    out: Seq<u32>,
) -> bool {
    exists|scores: Seq<u32>, es: Seq<u32>, total: u32, ctx: Seq<u32>, raised: u32, inv: u32|
        #[trigger] step_scores(f, q, keys, base, n, scale, scores) && #[trigger] rows::exponentials(f, scores, es, total)
            && #[trigger] step_context(f, es, vals, base, q.len() as int, ctx) && #[trigger] fpu::adds(
            f,
            total,
            WEIGHT_FLOOR,
            raised,
        ) && #[trigger] fpu::divs(f, fpu::ONE, raised, inv) && rows::scaled_by(f, ctx, inv, out)
}

/// What the query of a single step gathers.
fn attend_step<F: Fpu>(q: &[u32], keys: &Vec<u32>, vals: &Vec<u32>, base: usize, n: usize, scale: u32, f: &F) -> (out: Vec<u32>)
    requires
        (base + n) * q@.len() <= keys@.len(),
        vals@.len() == keys@.len(),
    ensures
        step_attended(f, q@, keys@, vals@, base as int, n as int, scale, out@),
        out@.len() == q@.len(),
{
    let d: usize = q.len();
    let len: usize = keys.len();
    let v_len: usize = vals.len();
    let mut scores: Vec<u32> = Vec::with_capacity(n);
    for j in 0..n
        invariant
            d == q@.len(),
            len == keys@.len(),
            (base + n) * d <= len,
            scores@.len() == j,
            forall|i: int|
                0 <= i < j ==> step_score(f, q@, matmul::flat_row(keys@, base + i, d as int), scale, #[trigger] scores@[i]),
    {
        proof {
            lemma_row_inside(base as int, j as int, n as int, d as int, len as int);
            if d == 0 {
                assert((base + j) * d == 0) by (nonlinear_arith)
                    requires
                        d == 0,
                ;
            } else {
                assert(base + j <= (base + j) * d) by (nonlinear_arith)
                    requires
                        d >= 1,
                        base + j >= 0,
                ;
            }
        }
        let start: usize = if d == 0 { 0 } else { (base + j) * d };
        let row = vstd::slice::slice_subrange(keys.as_slice(), start, start + d);
        assert(row@ =~= matmul::flat_row(keys@, base + j, d as int));
        let p: u32 = dot_straight(row, q, f);
        let score: u32 = f.mul(p, scale);
        assert(step_score(f, q@, row@, scale, score)) by {
            assert(matvec::straight_sum(f, row@, q@, p) && fpu::muls(f, p, scale, score));
        }
        scores.push(score);
    }
    assert(step_scores(f, q@, keys@, base as int, n as int, scale, scores@));
    let (es, total) = exponentiate(scores.as_slice(), f);
    let mut ctx: Vec<u32> = Vec::with_capacity(d);
    for c in 0..d
        invariant
            d == q@.len(),
            v_len == vals@.len(),
            es@.len() == n,
            (base + n) * d <= v_len,
            ctx@.len() == c,
            forall|i: int|
                0 <= i < c ==> matvec::straight_sum(
                    f,
                    value_col(vals@, base as int, n as int, d as int, i),
                    es@,
                    #[trigger] ctx@[i],
                ),
    {
        let mut col: Vec<u32> = Vec::with_capacity(n);
        for j in 0..n
            invariant
                c < d,
                v_len == vals@.len(),
                (base + n) * d <= v_len,
                col@.len() == j,
                forall|i: int| 0 <= i < j ==> #[trigger] col@[i] == vals@[(base + i) * d + c],
        {
            proof {
                lemma_row_inside(base as int, j as int, n as int, d as int, v_len as int);
                assert(base + j <= (base + j) * d) by (nonlinear_arith)
                    requires
                        d >= 1,
                        base + j >= 0,
                ;
            }
            col.push(vals[(base + j) * d + c]);
        }
        assert(col@ =~= value_col(vals@, base as int, n as int, d as int, c as int));
        ctx.push(dot_straight(col.as_slice(), es.as_slice(), f));
    }
    assert(step_context(f, es@, vals@, base as int, d as int, ctx@));
    let raised: u32 = f.add(total, WEIGHT_FLOOR);
    let inv: u32 = f.div(fpu::ONE, raised);
    assert(fpu::adds(f, total, WEIGHT_FLOOR, raised) && fpu::divs(f, fpu::ONE, raised, inv));
    let mut out: Vec<u32> = Vec::with_capacity(d);
    for i in 0..d
        invariant
            d == ctx@.len(),
            out@.len() == i,
            forall|k: int| 0 <= k < i ==> fpu::muls(f, ctx@[k], inv, #[trigger] out@[k]),
    {
        out.push(f.mul(ctx[i], inv));
    }
    assert(rows::scaled_by(f, ctx@, inv, out@));
    out
}

/// What a query gathers that sees some of `l` keys; of a single step, keys that it does
/// not see are passed over.
pub open spec fn query_attended<F: Fpu>(
    f: &F,
    single: bool,
    q: Seq<u32>,
    keys: Seq<u32>,
    vals: Seq<u32>,
    base: int,
    l: int,
    scale: u32,
    visible: int,
    out: Seq<u32>,
) -> bool {
    if single {
        step_attended(
            f,
            q,
            keys,
            vals,
            base,
            if visible < l {
                visible
            } else {
                l
            },
            scale,
            out,
        )
    } else {
        row_attended(f, q, keys, vals, base, l, scale, visible, out)
    }
}

/// How many keys a query sees that stands at an absolute position.
pub open spec fn seen_keys(causal: bool, position: int, l: int) -> int {
    if causal {
        position + 1
    } else {
        l
    }
}

/// Attention of grouped heads. Row `r` of the result, in the order `[B, S, H]`, belongs
/// to batch entry `r / (S * H)`, step `r / H % S` and head `r % H`. The keys and values
/// of head `h` are those of head `h / n_rep` of the cache, which has room for `room`
/// positions, of which `l` are used.
pub open spec fn grouped_attended<F: Fpu>(
    f: &F,
    q: NdArray<u32>,
    keys: NdArray<u32>,
    vals: NdArray<u32>,
    l: int,
    scale: u32,
    causal: bool,
    n_rep: int,
    past_len: int,
    r: NdArray<u32>,
) -> bool {
    let h = q.shape@[1] as int;
    let s = q.shape@[2] as int;
    let d = q.shape@[3] as int;
    &&& r.wf()
    &&& r.shape@ == seq![q.shape@[0], q.shape@[2], q.shape@[1], q.shape@[3]]
    &&& forall|i: int|
        0 <= i < (q.shape@[0] * s) * h ==> query_attended(
            f,
            s == 1,
            matmul::flat_row(q.data@, query_row(i, h, s), d),
            keys.data@,
            vals.data@,
            cache_row(i, h, s, n_rep, keys.shape@[1] as int, keys.shape@[2] as int),
            l,
            scale,
            seen_keys(causal, past_len + step_of(i, h, s), l),
            #[trigger] matmul::flat_row(r.data@, i, d),
        )
}

/// The step that row `i` of the result belongs to.
pub open spec fn step_of(i: int, h: int, s: int) -> int {
    (i / h) % s
}

/// The row of the queries, in the order `[B, H, S]`, that row `i` of the result is for.
pub open spec fn query_row(i: int, h: int, s: int) -> int {
    ((i / h) / s * h + i % h) * s + step_of(i, h, s)
}

/// The first row of the cache that row `i` of the result looks at.
pub open spec fn cache_row(i: int, h: int, s: int, n_rep: int, h_kv: int, room: int) -> int {
    ((i / h) / s * h_kv + (i % h) / n_rep) * room
}

/// Where the rows of a result come from lies inside the queries and the cache.
pub proof fn lemma_rows_in_range(i: int, b: int, h: int, s: int, n_rep: int, h_kv: int, room: int, l: int)
    requires
        0 <= i < (b * s) * h,
        b >= 0,
        h >= 0,
        s >= 0,
        n_rep >= 0,
        h == h_kv * n_rep,
        0 <= l <= room,
        h_kv >= 0,
    ensures
        h > 0,
        s > 0,
        n_rep > 0,
        0 <= step_of(i, h, s) < s,
        0 <= i % h < h,
        0 <= (i / h) / s < b,
        0 <= (i % h) / n_rep < h_kv,
        0 <= query_row(i, h, s) < (b * h) * s,
        0 <= cache_row(i, h, s, n_rep, h_kv, room),
        cache_row(i, h, s, n_rep, h_kv, room) + l <= (b * h_kv) * room,
{
    assert(h > 0 && s > 0 && n_rep > 0) by (nonlinear_arith)
        requires
            0 <= i < (b * s) * h,
            b >= 0,
            h >= 0,
            s >= 0,
            n_rep >= 0,
            h_kv >= 0,
            h == h_kv * n_rep,
    ;
    let t = i / h;
    assert(0 <= t < b * s) by (nonlinear_arith)
        requires
            0 <= i < (b * s) * h,
            h > 0,
            t == i / h,
    ;
    let bb = t / s;
    assert(0 <= bb < b) by (nonlinear_arith)
        requires
            0 <= t < b * s,
            s > 0,
            bb == t / s,
    ;
    let hq = i % h;
    let hk = hq / n_rep;
    assert(0 <= hk < h_kv) by (nonlinear_arith)
        requires
            0 <= hq < h_kv * n_rep,
            n_rep > 0,
            hk == hq / n_rep,
    ;
    let st = t % s;
    assert(0 <= bb * h + hq && bb * h + hq < b * h) by (nonlinear_arith)
        requires
            0 <= bb < b,
            0 <= hq < h,
    ;
    let a = bb * h + hq;
    assert(0 <= a * s + st && a * s + st < (b * h) * s) by (nonlinear_arith)
        requires
            0 <= a < b * h,
            0 <= st < s,
    ;
    assert(0 <= bb * h_kv + hk && bb * h_kv + hk < b * h_kv) by (nonlinear_arith)
        requires
            0 <= bb < b,
            0 <= hk < h_kv,
    ;
    let c = bb * h_kv + hk;
    assert(0 <= c * room && c * room + room <= (b * h_kv) * room) by (nonlinear_arith)
        requires
            0 <= c < b * h_kv,
            room >= 0,
    ;
}

/// Attention of grouped heads over the first `l` positions of a cache; the result has
/// the extents `[B, S, H, D]`.
pub fn gqa_attention_no_repeat_bshd_view<F: Fpu>(
    q: &NdArray<u32>,
    keys: &NdArray<u32>,
    vals: &NdArray<u32>,
    l: usize,
    scale: u32,
    causal: bool,
    n_rep: usize,
    past_len: usize,
    f: &F,
) -> (r: NdArray<u32>)
    requires
        q.wf(),
        keys.wf(),
        vals.wf(),
        q.shape@.len() == 4,
        keys.shape@.len() == 4,
        vals.shape@ == keys.shape@,
        keys.shape@[0] == q.shape@[0],
        keys.shape@[3] == q.shape@[3],
        q.shape@[1] == keys.shape@[1] * n_rep,
        l <= keys.shape@[2],
        past_len + q.shape@[2] <= usize::MAX,
    ensures
        grouped_attended(f, *q, *keys, *vals, l as int, scale, causal, n_rep as int, past_len as int, r),
{
    let b: usize = q.shape[0];
    let h: usize = q.shape[1];
    let s: usize = q.shape[2];
    let d: usize = q.shape[3];
    let h_kv: usize = keys.shape[1];
    let room: usize = keys.shape[2];
    let shape: Vec<usize> = vec![b, s, h, d];
    let ghost k_len = keys.data@.len();
    proof {
        assert(shape@ =~= seq![q.shape@[0], q.shape@[2], q.shape@[1], q.shape@[3]]);
        matmul::lemma_product4(q.shape@);
        matmul::lemma_fits4(q.shape@);
        matmul::lemma_product4(shape@);
        matmul::lemma_product4(keys.shape@);
        matmul::lemma_fits4(keys.shape@);
        lemma_exchanged(q.shape@, shape@);
        matmul::lemma_fits4(shape@);
        assert(0 * d == 0) by (nonlinear_arith);
    }
    let n: usize = (b * s) * h;
    let q_len: usize = q.data.len();
    let mut data: Vec<u32> = Vec::with_capacity(q_len);
    for i in 0..n
        invariant
            b == q.shape@[0],
            h == q.shape@[1],
            s == q.shape@[2],
            d == q.shape@[3],
            h_kv == keys.shape@[1],
            room == keys.shape@[2],
            n == (b * s) * h,
            h == h_kv * n_rep,
            l <= room,
            past_len + s <= usize::MAX,
            q_len == q.data@.len() == ((b * h) * s) * d,
            (b * h) * s <= usize::MAX,
            (b * h_kv) * room <= usize::MAX,
            keys.data@.len() == ((b * h_kv) * room) * d,
            vals.data@.len() == keys.data@.len(),
            data@.len() == i * d,
            forall|p: int|
                0 <= p < i ==> query_attended(
                    f,
                    s == 1,
                    matmul::flat_row(q.data@, query_row(p, h as int, s as int), d as int),
                    keys.data@,
                    vals.data@,
                    cache_row(p, h as int, s as int, n_rep as int, h_kv as int, room as int),
                    l as int,
                    scale,
                    seen_keys(causal, past_len + step_of(p, h as int, s as int), l as int),
                    #[trigger] matmul::flat_row(data@, p, d as int),
                ),
    {
        proof {
            lemma_rows_in_range(
                i as int,
                b as int,
                h as int,
                s as int,
                n_rep as int,
                h_kv as int,
                room as int,
                l as int,
            );
        }
        let bb: usize = (i / h) / s;
        let hq: usize = i % h;
        let step: usize = (i / h) % s;
        let hk: usize = hq / n_rep;
        proof {
            assert(bb * h + hq <= (bb * h + hq) * s && bb * h <= bb * h + hq) by (nonlinear_arith)
                requires
                    s >= 1,
                    bb >= 0,
                    h >= 0,
                    hq >= 0,
            ;
            assert(0 <= bb * h_kv + hk && bb * h_kv + hk <= b * h_kv && b * h_kv <= b * h && bb * h_kv <= bb * h_kv + hk)
                by (nonlinear_arith)
                requires
                    0 <= bb < b,
                    0 <= hk < h_kv,
                    h == h_kv * n_rep,
                    n_rep >= 1,
            ;
            assert(b * h <= (b * h) * s) by (nonlinear_arith)
                requires
                    s >= 1,
                    b >= 0,
                    h >= 0,
            ;
        }
        let qr: usize = (bb * h + hq) * s + step;
        let base: usize = (bb * h_kv + hk) * room;
        proof {
            let total = (b * h) * s;
            assert(0 <= qr * d && qr * d + d <= total * d) by (nonlinear_arith)
                requires
                    0 <= qr < total,
                    d >= 0,
            ;
            let rows = (b * h_kv) * room;
            assert((base + l) * d <= rows * d) by (nonlinear_arith)
                requires
                    base + l <= rows,
                    d >= 0,
            ;
            assert((i + 1) * d == i * d + d) by (nonlinear_arith);
        }
        let query = vstd::slice::slice_subrange(q.data.as_slice(), qr * d, qr * d + d);
        let visible: usize = if causal { past_len + step + 1 } else { l };
        let mut row: Vec<u32> = if s == 1 {
            let n: usize = if visible < l { visible } else { l };
            proof {
                assert((base + n) * d <= (base + l) * d) by (nonlinear_arith)
                    requires
                        0 <= n <= l,
                        d >= 0,
                ;
            }
            attend_step(query, &keys.data, &vals.data, base, n, scale, f)
        } else {
            attend_row(query, &keys.data, &vals.data, base, l, scale, visible, f)
        };
        let ghost before = data@;
        let ghost own = row@;
        data.append(&mut row);
        proof {
            assert(matmul::flat_row(data@, i as int, d as int) =~= own);
            assert forall|p: int| 0 <= p < i implies #[trigger] matmul::flat_row(data@, p, d as int) == matmul::flat_row(
                before,
                p,
                d as int,
            ) by {
                activation::lemma_rows_stay(before, own, i as int, p, d as int);
            }
        }
    }
    NdArray { shape, data }
}

/// Two neighbouring axes exchanged hold as many elements.
proof fn lemma_exchanged(x: Seq<usize>, y: Seq<usize>)
    requires
        x.len() == 4,
        y == seq![x[0], x[2], x[1], x[3]],
        crate::dims::fits(x),
    ensures
        crate::dims::product(y) == crate::dims::product(x),
        crate::dims::fits(y),
        ((y[0] * y[1]) * y[2]) * y[3] == crate::dims::product(y),
{
    matmul::lemma_product4(x);
    matmul::lemma_product4(y);
    let a = x[0] as int;
    let b = x[1] as int;
    let c = x[2] as int;
    assert((a * b) * c == (a * c) * b) by (nonlinear_arith);
    let fx = crate::dims::nonzero_extents(x);
    let fy = crate::dims::nonzero_extents(y);
    assert(fy =~= seq![fx[0], fx[2], fx[1], fx[3]]);
    matmul::lemma_product4(fx);
    matmul::lemma_product4(fy);
    let p = fx[0] as int;
    let q = fx[1] as int;
    let r = fx[2] as int;
    assert((p * q) * r == (p * r) * q) by (nonlinear_arith);
}

/// What a query has gathered so far: the greatest score, the sum of the weights, and
/// the weighted values.
pub struct Gathered {
    pub max: u32,
    pub sum: u32,
    pub ctx: Vec<u32>,
}

/// `a * s + b`.
pub open spec fn scaled_sum<F: Fpu>(f: &F, a: u32, s: u32, b: u32, r: u32) -> bool {
    exists|t: u32| fpu::muls(f, a, s, t) && #[trigger] fpu::adds(f, t, b, r)
}

/// `a + w * b`.
pub open spec fn sum_scaled<F: Fpu>(f: &F, a: u32, w: u32, b: u32, r: u32) -> bool {
    exists|t: u32| fpu::muls(f, w, b, t) && #[trigger] fpu::adds(f, a, t, r)
}

/// One more key and value: a score above all others scales down what has been gathered.
pub open spec fn gathers<F: Fpu>(f: &F, before: Gathered, score: u32, value: Seq<u32>, after: Gathered) -> bool {
    &&& after.ctx@.len() == before.ctx@.len()
    &&& if float_bits::above(score, before.max) {
        exists|s: u32| #[trigger] rows::shifted_exp(f, before.max, score, s) && rescaled(f, before, score, s, value, after)
    } else {
        exists|w: u32| #[trigger] rows::shifted_exp(f, score, before.max, w) && joined(f, before, w, value, after)
    }
}

pub open spec fn rescaled<F: Fpu>(f: &F, before: Gathered, score: u32, s: u32, value: Seq<u32>, after: Gathered) -> bool {
    &&& after.max == score
    &&& scaled_sum(f, before.sum, s, fpu::ONE, after.sum)
    &&& forall|i: int| 0 <= i < before.ctx@.len() ==> scaled_sum(f, before.ctx@[i], s, value[i], #[trigger] after.ctx@[i])
}

pub open spec fn joined<F: Fpu>(f: &F, before: Gathered, w: u32, value: Seq<u32>, after: Gathered) -> bool {
    &&& after.max == before.max
    &&& fpu::adds(f, before.sum, w, after.sum)
    &&& forall|i: int| 0 <= i < before.ctx@.len() ==> sum_scaled(f, before.ctx@[i], w, value[i], #[trigger] after.ctx@[i])
}

/// The score of a key: its product with the query, times the scale.
pub open spec fn score_of<F: Fpu>(f: &F, q: Seq<u32>, key: Seq<u32>, scale: u32, score: u32) -> bool {
    exists|p: u32| matvec::unrolled_sum(f, q, key, p) && #[trigger] fpu::muls(f, p, scale, score)
}

/// What a query has gathered from the first `n` keys and values.
pub open spec fn online<F: Fpu>(
    f: &F,
    q: Seq<u32>,
    keys: Seq<u32>,
    vals: Seq<u32>,
    base: int,
    n: int,
    scale: u32,
    g: Gathered,
) -> bool
    decreases n,
{
    let d = q.len() as int;
    if n <= 0 {
        &&& g.max == fpu::NEG_INFINITY
        &&& g.sum == fpu::ZERO
        &&& g.ctx@ == Seq::new(q.len(), |i: int| fpu::ZERO)
    } else {
        exists|before: Gathered, score: u32|
            online(f, q, keys, vals, base, n - 1, scale, before) && score_of(
                f,
                q,
                matmul::flat_row(keys, base + n - 1, d),
                scale,
                score,
            ) && #[trigger] gathers(f, before, score, matmul::flat_row(vals, base + n - 1, d), g)
    }
}

/// The gathered values, divided by the sum of the weights.
pub open spec fn online_attended<F: Fpu>(
    f: &F,
    q: Seq<u32>,
    keys: Seq<u32>,
    vals: Seq<u32>,
    base: int,
    l: int,
    scale: u32,
    out: Seq<u32>,
) -> bool {
    exists|g: Gathered, raised: u32, inv: u32|
        #[trigger] online(f, q, keys, vals, base, l, scale, g) && #[trigger] fpu::adds(f, g.sum, WEIGHT_FLOOR, raised)
            && #[trigger] fpu::divs(f, fpu::ONE, raised, inv) && rows::scaled_by(f, g.ctx@, inv, out)
}

fn gather<F: Fpu>(before: &Gathered, score: u32, value: &[u32], f: &F) -> (after: Gathered)
    requires
        value@.len() == before.ctx@.len(),
    ensures
        gathers(f, *before, score, value@, after),
{
    let d: usize = before.ctx.len();
    let mut ctx: Vec<u32> = Vec::with_capacity(d);
    if is_above(score, before.max) {
        let diff: u32 = f.sub(before.max, score);
        let s: u32 = f.exp(diff);
        assert(rows::shifted_exp(f, before.max, score, s)) by {
            assert(fpu::subs(f, before.max, score, diff) && fpu::exps(f, diff, s));
        }
        for i in 0..d
            invariant
                d == before.ctx@.len() == value@.len(),
                ctx@.len() == i,
                forall|k: int| 0 <= k < i ==> scaled_sum(f, before.ctx@[k], s, value@[k], #[trigger] ctx@[k]),
        {
            let t: u32 = f.mul(before.ctx[i], s);
            let r: u32 = f.add(t, value[i]);
            assert(scaled_sum(f, before.ctx@[i as int], s, value@[i as int], r)) by {
                assert(fpu::muls(f, before.ctx@[i as int], s, t) && fpu::adds(f, t, value@[i as int], r));
            }
            ctx.push(r);
        }
        let t: u32 = f.mul(before.sum, s);
        let sum: u32 = f.add(t, fpu::ONE);
        assert(scaled_sum(f, before.sum, s, fpu::ONE, sum)) by {
            assert(fpu::muls(f, before.sum, s, t) && fpu::adds(f, t, fpu::ONE, sum));
        }
        let after = Gathered { max: score, sum, ctx };
        assert(rescaled(f, *before, score, s, value@, after));
        after
    } else {
        let diff: u32 = f.sub(score, before.max);
        let w: u32 = f.exp(diff);
        assert(rows::shifted_exp(f, score, before.max, w)) by {
            assert(fpu::subs(f, score, before.max, diff) && fpu::exps(f, diff, w));
        }
        for i in 0..d
            invariant
                d == before.ctx@.len() == value@.len(),
                ctx@.len() == i,
                forall|k: int| 0 <= k < i ==> sum_scaled(f, before.ctx@[k], w, value@[k], #[trigger] ctx@[k]),
        {
            let t: u32 = f.mul(w, value[i]);
            let r: u32 = f.add(before.ctx[i], t);
            assert(sum_scaled(f, before.ctx@[i as int], w, value@[i as int], r)) by {
                assert(fpu::muls(f, w, value@[i as int], t) && fpu::adds(f, before.ctx@[i as int], t, r));
            }
            ctx.push(r);
        }
        let sum: u32 = f.add(before.sum, w);
        let after = Gathered { max: before.max, sum, ctx };
        assert(joined(f, *before, w, value@, after));
        after
    }
}

/// What a single query gathers, key by key, without a list of scores.
pub fn attend_online<F: Fpu>(q: &[u32], keys: &Vec<u32>, vals: &Vec<u32>, base: usize, l: usize, scale: u32, f: &F) -> (out:
    Vec<u32>)
    requires
        q@.len() > 0,
        (base + l) * q@.len() <= keys@.len(),
        vals@.len() == keys@.len(),
    ensures
        online_attended(f, q@, keys@, vals@, base as int, l as int, scale, out@),
        out@.len() == q@.len(),
{
    let d: usize = q.len();
    let len: usize = keys.len();
    let v_len: usize = vals.len();
    let mut g = Gathered { max: fpu::NEG_INFINITY, sum: fpu::ZERO, ctx: vec![fpu::ZERO; d] };
    assert(g.ctx@ =~= Seq::new(q@.len(), |i: int| fpu::ZERO));
    for j in 0..l
        invariant
            d == q@.len(),
            d > 0,
            len == keys@.len(),
            v_len == vals@.len() == len,
            (base + l) * d <= len,
            g.ctx@.len() == d,
            online(f, q@, keys@, vals@, base as int, j as int, scale, g),
    {
        proof {
            lemma_row_inside(base as int, j as int, l as int, d as int, len as int);
            assert(base + j <= (base + j) * d) by (nonlinear_arith)
                requires
                    d >= 1,
                    base + j >= 0,
            ;
        }
        let at: usize = (base + j) * d;
        let key = vstd::slice::slice_subrange(keys.as_slice(), at, at + d);
        let value = vstd::slice::slice_subrange(vals.as_slice(), at, at + d);
        let p: u32 = dot_unrolled(q, key, f);
        let score: u32 = f.mul(p, scale);
        assert(score_of(f, q@, key@, scale, score)) by {
            assert(matvec::unrolled_sum(f, q@, key@, p) && fpu::muls(f, p, scale, score));
        }
        let ghost before = g;
        g = gather(&g, score, value, f);
        proof {
            assert(base + (j + 1) - 1 == base + j);
            assert(gathers(f, before, score, matmul::flat_row(vals@, base + (j + 1) - 1, d as int), g));
        }
    }
    let raised: u32 = f.add(g.sum, WEIGHT_FLOOR);
    let inv: u32 = f.div(fpu::ONE, raised);
    assert(fpu::adds(f, g.sum, WEIGHT_FLOOR, raised) && fpu::divs(f, fpu::ONE, raised, inv));
    let mut out: Vec<u32> = Vec::with_capacity(d);
    for i in 0..d
        invariant
            d == g.ctx@.len(),
            out@.len() == i,
            forall|k: int| 0 <= k < i ==> fpu::muls(f, g.ctx@[k], inv, #[trigger] out@[k]),
    {
        out.push(f.mul(g.ctx[i], inv));
    }
    assert(rows::scaled_by(f, g.ctx@, inv, out@));
    out
}

/// The scores of keys that a query does not see have no part in its weights.
pub proof fn law_hidden_scores_do_not_count<F: Fpu>(f: &F, xs: Seq<u32>, ys: Seq<u32>, scale: u32, visible: int, weights: Seq<u32>)
    requires
        xs.len() == ys.len(),
        forall|j: int| 0 <= j < xs.len() && j < visible ==> #[trigger] xs[j] == ys[j],
    ensures
        attention_weights(f, xs, scale, visible, weights) == attention_weights(f, ys, scale, visible, weights),
{
    assert forall|scaled: Seq<u32>|
        #![trigger scaled_or_hidden(f, xs, scale, visible, scaled)]
        #![trigger scaled_or_hidden(f, ys, scale, visible, scaled)]
        scaled_or_hidden(f, xs, scale, visible, scaled) == scaled_or_hidden(f, ys, scale, visible, scaled) by {
        if scaled_or_hidden(f, xs, scale, visible, scaled) {
            assert forall|j: int| 0 <= j < ys.len() implies if j < visible {
                fpu::muls(f, ys[j], scale, #[trigger] scaled[j])
            } else {
                scaled[j] == fpu::NEG_INFINITY
            } by {
                assert(j < visible ==> xs[j] == ys[j]);
                assert(scaled[j] == scaled[j]);
            }
        }
        if scaled_or_hidden(f, ys, scale, visible, scaled) {
            assert forall|j: int| 0 <= j < xs.len() implies if j < visible {
                fpu::muls(f, xs[j], scale, #[trigger] scaled[j])
            } else {
                scaled[j] == fpu::NEG_INFINITY
            } by {
                assert(j < visible ==> xs[j] == ys[j]);
            }
        }
    }
}

} // verus!
