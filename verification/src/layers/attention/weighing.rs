use crate::array::NdArray;
use crate::autograd;
use crate::autograd::{GradMode, Tensor};
use crate::constants;
use crate::dims;
use crate::fixed;
use crate::float_bits;
use crate::fpu;
use crate::fpu::Fpu;
use crate::layers::activation;
use crate::layers::attention::attend;
use crate::layers::attention::attend::{Gathered, WEIGHT_FLOOR};
use crate::layers::portions;
use crate::ops::fused;
use crate::ops::fused::FusedSoftmaxBackward;
use crate::ops::matmul;
use crate::ops::matvec;
use crate::ops::rows;
use crate::ops::totals;
use crate::rounding;
use vstd::prelude::*;

verus! {

/// The numbers on the way from scores to weights: the scaled scores, the greatest of them, the
/// distances from it, their exponentials, the partial sums, the last sum raised by a little,
/// and its inverse.
pub struct Weighed {
    pub scores: Seq<u32>,
    pub scaled: Seq<u32>,
    pub greatest: u32,
    pub distances: Seq<u32>,
    pub exponentials: Seq<u32>,
    pub sums: Seq<u32>,
    pub raised: u32,
    pub inverse: u32,
    pub weights: Seq<u32>,
}

/// The greatest of some numbers and infinities is one of them, and none is above it.
#[verifier::rlimit(40)]
proof fn lemma_greatest_of_all(xs: Seq<u32>) -> (k: int)
    requires
        xs.len() > 0,
        forall|j: int| 0 <= j < xs.len() ==> !float_bits::is_nan(#[trigger] xs[j]),
    ensures
        0 <= k < xs.len(),
        rounding::value(rows::row_max(xs)) == rounding::value(xs[k]),
        !float_bits::is_nan(rows::row_max(xs)),
        float_bits::is_finite(xs[k]) ==> rows::row_max(xs) == xs[k],
        forall|j: int| 0 <= j < xs.len() ==> rounding::value(#[trigger] xs[j]) <= rounding::value(rows::row_max(xs)),
    decreases xs.len(),
{
    let before = xs.drop_last();
    let n = xs.len() - 1;
    assert(xs.last() == xs[n]);
    let m = rows::row_max(before);
    if before.len() == 0 {
        assert(m == fpu::NEG_INFINITY);
        rounding::lemma_values_order(xs[n], m);
        if !float_bits::above(xs[n], m) {
            assert(float_bits::order_key(xs[n]) <= float_bits::order_key(m));
            assert(xs[n] == m) by {
                assert(xs[n] % 0x8000_0000 <= 0x7f80_0000);
                assert(xs[n] >= 0x8000_0000 ==> xs[n] % 0x8000_0000 == xs[n] - 0x8000_0000);
            }
        }
        n
    } else {
        assert forall|j: int| 0 <= j < before.len() implies !float_bits::is_nan(#[trigger] before[j]) by {
            assert(before[j] == xs[j]);
        }
        let k = lemma_greatest_of_all(before);
        assert(before[k] == xs[k]);
        rounding::lemma_values_order(xs[n], m);
        assert forall|j: int| 0 <= j < xs.len() implies rounding::value(#[trigger] xs[j]) <= rounding::value(
            rows::row_max(xs),
        ) by {
            if j < n {
                assert(before[j] == xs[j]);
            }
        }
        if float_bits::above(xs[n], m) {
            n
        } else {
            k
        }
    }
}

/// Scores of the first `visible` keys are scaled and weighed by their exponentials, from the
/// greatest of them on.
pub open spec fn weighs_scores<F: Fpu>(f: &F, rd: spec_fn(int, int) -> int, scale: u32, visible: int, w: Weighed) -> bool {
    let n = w.scores.len();
    &&& w.scaled.len() == n && w.distances.len() == n && w.exponentials.len() == n
    &&& forall|j: int|
        0 <= j < n && j < visible ==> rounding::is_product(rd, w.scores[j], scale, #[trigger] w.scaled[j])
    &&& forall|j: int| 0 <= j < n && j < visible ==> rounding::value(#[trigger] w.scaled[j]) <= rounding::value(w.greatest)
    &&& exists|j: int| 0 <= j < n && j < visible && #[trigger] w.scaled[j] == w.greatest
    &&& forall|j: int|
        0 <= j < n && j < visible ==> rounding::is_difference(rd, w.scaled[j], w.greatest, #[trigger] w.distances[j])
    &&& forall|j: int| 0 <= j < n ==> fpu::exps(f, w.distances[j], #[trigger] w.exponentials[j])
    &&& rounding::partial_sums(rd, w.exponentials, w.sums)
    &&& rounding::is_sum(rd, w.sums.last(), WEIGHT_FLOOR, w.raised)
    &&& constants::is_nearest(WEIGHT_FLOOR, 1, 1_000_000_000)
    &&& rounding::is_quotient(rd, fpu::ONE, w.raised, w.inverse)
}

/// The exponentials of scores of which some are hidden, in numbers.
#[verifier::rlimit(40)]
proof fn lemma_weighs_scores<F: Fpu>(
    f: &F,
    rd: spec_fn(int, int) -> int,
    scores: Seq<u32>,
    scale: u32,
    visible: int,
    scaled: Seq<u32>,
    es: Seq<u32>,
    total: u32,
    raised: u32,
    inv: u32,
    weights: Seq<u32>,
) -> (w: Weighed)
    requires
        rounding::rounds_by(f, rd),
        scores.len() > 0,
        visible > 0,
        scaled.len() == scores.len(),
        forall|j: int| 0 <= j < scores.len() && j < visible ==> fpu::muls(f, scores[j], scale, #[trigger] scaled[j]),
        forall|j: int| 0 <= j < scores.len() && j < visible ==> float_bits::is_finite(#[trigger] scaled[j]),
        forall|j: int| 0 <= j < scores.len() && j >= visible ==> #[trigger] scaled[j] == fpu::NEG_INFINITY,
        rows::exponentials(f, scaled, es, total),
        fpu::adds(f, total, WEIGHT_FLOOR, raised),
        fpu::divs(f, fpu::ONE, raised, inv),
    ensures
        weighs_scores(f, rd, scale, visible, w),
        w.scores == scores,
        w.exponentials == es,
        w.inverse == inv,
        w.weights == weights,
{
    constants::law_constants_are_nearest();
    rounding::lemma_constants();
    assert forall|j: int| 0 <= j < scaled.len() implies !float_bits::is_nan(#[trigger] scaled[j]) by {
        if j < visible {
            rounding::lemma_finite_is_number(scaled[j]);
        }
    }
    let k = lemma_greatest_of_all(scaled);
    let m = rows::row_max(scaled);
    if k >= visible {
        let z: int = 0;
        assert(float_bits::is_finite(scaled[z]));
        rounding::lemma_finite_is_number(scaled[z]);
        rounding::lemma_values_order(scaled[z], fpu::NEG_INFINITY);
        assert(scaled[k] == fpu::NEG_INFINITY);
        assert(rounding::value(scaled[z]) <= rounding::value(fpu::NEG_INFINITY));
        rounding::lemma_finite_between_infinity(scaled[z]);
    }
    assert(scaled[k] == m);
    let ds = Seq::new(scaled.len(), |j: int| choose|d: u32| fpu::subs(f, scaled[j], m, d) && #[trigger] fpu::exps(f, d, es[j]));
    assert forall|j: int| 0 <= j < scaled.len() implies fpu::subs(f, scaled[j], m, #[trigger] ds[j]) && fpu::exps(
        f,
        ds[j],
        es[j],
    ) by {
        assert(rows::shifted_exp(f, scaled[j], m, es[j]));
        let d = choose|d: u32| fpu::subs(f, scaled[j], m, d) && #[trigger] fpu::exps(f, d, es[j]);
        assert(ds[j] == d);
    }
    assert forall|j: int| 0 <= j < scaled.len() implies fpu::exps(f, ds[j], #[trigger] es[j]) by {
        assert(fpu::subs(f, scaled[j], m, ds[j]));
    }
    assert forall|j: int| 0 <= j < scores.len() && j < visible implies rounding::is_difference(
        rd,
        scaled[j],
        m,
        #[trigger] ds[j],
    ) by {
        assert(float_bits::is_finite(scaled[j]));
    }
    let sums = portions::lemma_partial_sums(f, rd, es, total);
    let w = Weighed {
        scores,
        scaled,
        greatest: m,
        distances: ds,
        exponentials: es,
        sums,
        raised,
        inverse: inv,
        weights,
    };
    assert forall|j: int| 0 <= j < scores.len() && j < visible implies rounding::is_product(
        rd,
        w.scores[j],
        scale,
        #[trigger] w.scaled[j],
    ) by {
        assert(fpu::muls(f, scores[j], scale, scaled[j]));
    }
    assert forall|j: int| 0 <= j < scores.len() && j < visible implies rounding::value(#[trigger] w.scaled[j])
        <= rounding::value(w.greatest) by {}
    assert(k < visible && w.scaled[k] == w.greatest);
    assert(rounding::is_sum(rd, w.sums.last(), WEIGHT_FLOOR, w.raised));
    assert(rounding::is_quotient(rd, fpu::ONE, w.raised, w.inverse));
    w
}

/// What a query gathers among others of a sequence: it multiplies itself with each key, scales
/// the products, weighs those that it sees by their exponentials, divides by the sum of all
/// weights, which is raised by a billionth, and sums up the values times their weights.
#[verifier::rlimit(40)]
pub proof fn law_values_are_weighed<F: Fpu>(
    f: &F,
    rd: spec_fn(int, int) -> int,
    q: Seq<u32>,
    keys: Seq<u32>,
    vals: Seq<u32>,
    base: int,
    l: int,
    scale: u32,
    visible: int,
    out: Seq<u32>,
) -> (w: Weighed)
    requires
        rounding::rounds_by(f, rd),
        l > 0,
        visible > 0,
        attend::query_attended(f, false, q, keys, vals, base, l, scale, visible, out),
        forall|j: int, p: u32, s: u32|
            #![trigger fpu::dots(f, q, matmul::flat_row(keys, base + j, q.len() as int), p), fpu::muls(f, p, scale, s)]
            0 <= j < l && j < visible && fpu::dots(f, q, matmul::flat_row(keys, base + j, q.len() as int), p) && fpu::muls(
                f,
                p,
                scale,
                s,
            ) ==> float_bits::is_finite(s),
    ensures
        w.scores.len() == l,
        forall|j: int|
            0 <= j < l ==> fpu::dots(f, q, matmul::flat_row(keys, base + j, q.len() as int), #[trigger] w.scores[j]),
        weighs_scores(f, rd, scale, visible, w),
        w.weights.len() == l,
        forall|j: int| 0 <= j < l ==> rounding::is_product(rd, w.exponentials[j], w.inverse, #[trigger] w.weights[j]),
        out.len() == q.len(),
        forall|c: int|
            0 <= c < q.len() ==> fpu::dots(
                f,
                w.weights,
                Seq::new(l as nat, |j: int| vals[(base + j) * q.len() + c]),
                #[trigger] out[c],
            ),
{
    let (scores, weights) = choose|scores: Seq<u32>, weights: Seq<u32>|
        #[trigger] attend::key_scores(f, q, keys, base, l, scores) && #[trigger] attend::attention_weights(
            f,
            scores,
            scale,
            visible,
            weights,
        ) && weights.len() == l && attend::weighted_values(f, weights, vals, base, q.len() as int, out);
    let (scaled, es, total, raised, inv) = choose|scaled: Seq<u32>, es: Seq<u32>, total: u32, raised: u32, inv: u32|
        #[trigger] attend::scaled_or_hidden(f, scores, scale, visible, scaled) && #[trigger] rows::exponentials(
            f,
            scaled,
            es,
            total,
        ) && #[trigger] fpu::adds(f, total, WEIGHT_FLOOR, raised) && #[trigger] fpu::divs(f, fpu::ONE, raised, inv)
            && rows::scaled_by(f, es, inv, weights);
    assert forall|j: int| 0 <= j < l && j < visible implies fpu::muls(f, scores[j], scale, #[trigger] scaled[j])
        && float_bits::is_finite(scaled[j]) by {
        assert(fpu::dots(f, q, matmul::flat_row(keys, base + j, q.len() as int), scores[j]));
        assert(fpu::muls(f, scores[j], scale, scaled[j]));
    }
    let w = lemma_weighs_scores(f, rd, scores, scale, visible, scaled, es, total, raised, inv, weights);
    assert forall|j: int| 0 <= j < l implies rounding::is_product(rd, es[j], inv, #[trigger] weights[j]) by {
        assert(fpu::muls(f, es[j], inv, weights[j]));
    }
    assert forall|c: int| 0 <= c < q.len() implies fpu::dots(
        f,
        weights,
        Seq::new(l as nat, |j: int| vals[(base + j) * q.len() + c]),
        #[trigger] out[c],
    ) by {
        assert(attend::value_col(vals, base, l, q.len() as int, c) =~= Seq::new(
            l as nat,
            |j: int| vals[(base + j) * q.len() + c],
        ));
    }
    w
}

/// The scores of a single step before they are scaled.
#[verifier::rlimit(40)]
proof fn lemma_step_scores<F: Fpu>(
    f: &F,
    rd: spec_fn(int, int) -> int,
    q: Seq<u32>,
    keys: Seq<u32>,
    base: int,
    n: int,
    scale: u32,
    scaled: Seq<u32>,
) -> (scores: Seq<u32>)
    requires
        rounding::rounds_by(f, rd),
        n > 0,
        attend::step_scores(f, q, keys, base, n, scale, scaled),
        forall|j: int, s: u32|
            0 <= j < n && #[trigger] attend::step_score(
                f,
                q,
                matmul::flat_row(keys, base + j, q.len() as int),
                scale,
                s,
            ) ==> float_bits::is_finite(s),
    ensures
        scores.len() == n,
        forall|j: int|
            0 <= j < n ==> totals::is_total(rd, matmul::flat_row(keys, base + j, q.len() as int), q, #[trigger] scores[j]),
        forall|j: int|
            0 <= j < n ==> fpu::muls(f, scores[j], scale, #[trigger] scaled[j]) && float_bits::is_finite(scaled[j]),
{
    let d = q.len() as int;
    let scores = Seq::new(
        n as nat,
        |j: int|
            choose|p: u32|
                matvec::straight_sum(f, matmul::flat_row(keys, base + j, d), q, p) && #[trigger] fpu::muls(f, p, scale, scaled[j]),
    );
    assert forall|j: int| 0 <= j < n implies matvec::straight_sum(
        f,
        matmul::flat_row(keys, base + j, d),
        q,
        #[trigger] scores[j],
    ) && fpu::muls(f, scores[j], scale, scaled[j]) && float_bits::is_finite(scaled[j]) by {
        assert(attend::step_score(f, q, matmul::flat_row(keys, base + j, d), scale, scaled[j]));
        let p = choose|p: u32|
            matvec::straight_sum(f, matmul::flat_row(keys, base + j, d), q, p) && #[trigger] fpu::muls(f, p, scale, scaled[j]);
        assert(scores[j] == p);
    }
    assert forall|j: int| 0 <= j < n implies totals::is_total(
        rd,
        matmul::flat_row(keys, base + j, d),
        q,
        #[trigger] scores[j],
    ) by {
        totals::law_rows_multiply_in_numbers(f, rd, 0, matmul::flat_row(keys, base + j, d), q, scores[j]);
    }
    assert forall|j: int| 0 <= j < n && j < n implies fpu::muls(f, scores[j], scale, #[trigger] scaled[j])
        && float_bits::is_finite(scaled[j]) by {
        assert(matvec::straight_sum(f, matmul::flat_row(keys, base + j, d), q, scores[j]));
    }
    scores
}

/// The sums of the values of a single step.
proof fn lemma_step_context<F: Fpu>(
    f: &F,
    rd: spec_fn(int, int) -> int,
    es: Seq<u32>,
    vals: Seq<u32>,
    base: int,
    n: int,
    d: int,
    ctx: Seq<u32>,
)
    requires
        rounding::rounds_by(f, rd),
        es.len() == n,
        attend::step_context(f, es, vals, base, d, ctx),
    ensures
        forall|c: int|
            0 <= c < d ==> totals::is_total(
                rd,
                Seq::new(n as nat, |j: int| vals[(base + j) * d + c]),
                es,
                #[trigger] ctx[c],
            ),
{
    assert forall|c: int| 0 <= c < d implies totals::is_total(
        rd,
        Seq::new(n as nat, |j: int| vals[(base + j) * d + c]),
        es,
        #[trigger] ctx[c],
    ) by {
        let col = Seq::new(n as nat, |j: int| vals[(base + j) * d + c]);
        assert(attend::value_col(vals, base, n, d, c) =~= col);
        totals::law_rows_multiply_in_numbers(f, rd, 0, col, es, ctx[c]);
    }
}

/// What the query of a single step gathers: the sums of products with the keys that it sees
/// are scaled and weighed by their exponentials; the values times these are summed up, and the
/// sums divided by that of the exponentials, which is raised by a billionth. The sums are the
/// result's `weights`.
pub proof fn law_single_step_weighs<F: Fpu>(
    f: &F,
    rd: spec_fn(int, int) -> int,
    q: Seq<u32>,
    keys: Seq<u32>,
    vals: Seq<u32>,
    base: int,
    l: int,
    scale: u32,
    visible: int,
    out: Seq<u32>,
    n: int,
) -> (w: Weighed)
    requires
        rounding::rounds_by(f, rd),
        n == (if visible < l {
            visible
        } else {
            l
        }),
        n > 0,
        attend::query_attended(f, true, q, keys, vals, base, l, scale, visible, out),
        forall|j: int, s: u32|
            0 <= j < n && #[trigger] attend::step_score(
                f,
                q,
                matmul::flat_row(keys, base + j, q.len() as int),
                scale,
                s,
            ) ==> float_bits::is_finite(s),
    ensures
        w.scores.len() == n,
        forall|j: int|
            0 <= j < n ==> totals::is_total(rd, matmul::flat_row(keys, base + j, q.len() as int), q, #[trigger] w.scores[j]),
        weighs_scores(f, rd, scale, n, w),
        w.weights.len() == q.len(),
        out.len() == q.len(),
        forall|c: int|
            0 <= c < q.len() ==> totals::is_total(
                rd,
                Seq::new(n as nat, |j: int| vals[(base + j) * q.len() + c]),
                w.exponentials,
                #[trigger] w.weights[c],
            ),
        forall|c: int| 0 <= c < q.len() ==> rounding::is_product(rd, w.weights[c], w.inverse, #[trigger] out[c]),
{
    let (scaled, es, total, ctx, raised, inv) = choose|
        scores: Seq<u32>,
        es: Seq<u32>,
        total: u32,
        ctx: Seq<u32>,
        raised: u32,
        inv: u32,
    |
        #[trigger] attend::step_scores(f, q, keys, base, n, scale, scores) && #[trigger] rows::exponentials(f, scores, es, total)
            && #[trigger] attend::step_context(f, es, vals, base, q.len() as int, ctx) && #[trigger] fpu::adds(
            f,
            total,
            WEIGHT_FLOOR,
            raised,
        ) && #[trigger] fpu::divs(f, fpu::ONE, raised, inv) && rows::scaled_by(f, ctx, inv, out);
    let d = q.len() as int;
    let scores = lemma_step_scores(f, rd, q, keys, base, n, scale, scaled);
    let w = lemma_weighs_scores(f, rd, scores, scale, n, scaled, es, total, raised, inv, ctx);
    lemma_step_context(f, rd, es, vals, base, n, d, ctx);
    assert forall|c: int| 0 <= c < d implies rounding::is_product(rd, ctx[c], inv, #[trigger] out[c]) by {
        assert(fpu::muls(f, ctx[c], inv, out[c]));
    }
    w
}

/// One more key and value, in numbers: where its score is above all others, what has been
/// gathered is scaled down by the exponential of the distance, and the new value counts one;
/// otherwise the new value counts the exponential of its distance.
pub open spec fn gathers_one<F: Fpu>(
    f: &F,
    rd: spec_fn(int, int) -> int,
    before: Gathered,
    score: u32,
    value: Seq<u32>,
    after: Gathered,
    d: u32,
    e: u32,
) -> bool {
    &&& fpu::exps(f, d, e)
    &&& after.ctx@.len() == before.ctx@.len()
    &&& if float_bits::above(score, before.max) {
        &&& after.max == score
        &&& rounding::is_difference(rd, before.max, score, d)
        &&& scales_and_adds(rd, before.sum, e, fpu::ONE, after.sum)
        &&& forall|i: int|
            0 <= i < before.ctx@.len() ==> scales_and_adds(rd, before.ctx@[i], e, value[i], #[trigger] after.ctx@[i])
    } else {
        &&& after.max == before.max
        &&& rounding::is_difference(rd, score, before.max, d)
        &&& rounding::is_sum(rd, before.sum, e, after.sum)
        &&& forall|i: int|
            0 <= i < before.ctx@.len() ==> adds_scaled(rd, before.ctx@[i], e, value[i], #[trigger] after.ctx@[i])
    }
}

/// `r` is `a * s + b`.
pub open spec fn scales_and_adds(rd: spec_fn(int, int) -> int, a: u32, s: u32, b: u32, r: u32) -> bool {
    exists|t: u32| rounding::is_product(rd, a, s, t) && #[trigger] rounding::is_sum(rd, t, b, r)
}

/// `r` is `a + w * b`.
pub open spec fn adds_scaled(rd: spec_fn(int, int) -> int, a: u32, w: u32, b: u32, r: u32) -> bool {
    exists|t: u32| rounding::is_product(rd, w, b, t) && #[trigger] rounding::is_sum(rd, a, t, r)
}

/// What a query has gathered from keys and values one after the other, in numbers.
pub open spec fn gathered_so_far<F: Fpu>(
    f: &F,
    rd: spec_fn(int, int) -> int,
    q: Seq<u32>,
    keys: Seq<u32>,
    vals: Seq<u32>,
    base: int,
    n: int,
    scale: u32,
    g: Gathered,
) -> bool
    decreases n,
{
    let d = q.len() as int;
    if n <= 0 {
        g.max == fpu::NEG_INFINITY && g.sum == fpu::ZERO && g.ctx@ == Seq::new(q.len(), |i: int| fpu::ZERO)
    } else {
        exists|before: Gathered, p: u32, score: u32, m: u32, e: u32|
            gathered_so_far(f, rd, q, keys, vals, base, n - 1, scale, before) && totals::is_total(
                rd,
                q,
                matmul::flat_row(keys, base + n - 1, d),
                p,
            ) && #[trigger] rounding::is_product(rd, p, scale, score) && #[trigger] gathers_one(
                f,
                rd,
                before,
                score,
                matmul::flat_row(vals, base + n - 1, d),
                g,
                m,
                e,
            )
    }
}

proof fn lemma_gathered_so_far<F: Fpu>(
    f: &F,
    rd: spec_fn(int, int) -> int,
    q: Seq<u32>,
    keys: Seq<u32>,
    vals: Seq<u32>,
    base: int,
    n: int,
    scale: u32,
    g: Gathered,
)
    requires
        rounding::rounds_by(f, rd),
        attend::online(f, q, keys, vals, base, n, scale, g),
    ensures
        gathered_so_far(f, rd, q, keys, vals, base, n, scale, g),
    decreases n,
{
    let d = q.len() as int;
    if n > 0 {
        let key = matmul::flat_row(keys, base + n - 1, d);
        let value = matmul::flat_row(vals, base + n - 1, d);
        let (before, score) = choose|before: Gathered, score: u32|
            attend::online(f, q, keys, vals, base, n - 1, scale, before) && attend::score_of(f, q, key, scale, score)
                && #[trigger] attend::gathers(f, before, score, value, g);
        lemma_gathered_so_far(f, rd, q, keys, vals, base, n - 1, scale, before);
        let p = choose|p: u32| matvec::unrolled_sum(f, q, key, p) && #[trigger] fpu::muls(f, p, scale, score);
        totals::law_rows_multiply_in_numbers(f, rd, 0, q, key, p);
        rounding::lemma_constants();
        let (m, e) = lemma_gathers_one(f, rd, before, score, value, g);
        assert(rounding::is_product(rd, p, scale, score));
    }
}

#[verifier::rlimit(40)]
proof fn lemma_gathers_one<F: Fpu>(
    f: &F,
    rd: spec_fn(int, int) -> int,
    before: Gathered,
    score: u32,
    value: Seq<u32>,
    after: Gathered,
) -> (r: (u32, u32))
    requires
        rounding::rounds_by(f, rd),
        attend::gathers(f, before, score, value, after),
    ensures
        gathers_one(f, rd, before, score, value, after, r.0, r.1),
{
    if float_bits::above(score, before.max) {
        let e = choose|s: u32| #[trigger]
            rows::shifted_exp(f, before.max, score, s) && attend::rescaled(f, before, score, s, value, after);
        let d = choose|d: u32| fpu::subs(f, before.max, score, d) && #[trigger] fpu::exps(f, d, e);
        let t = choose|t: u32| fpu::muls(f, before.sum, e, t) && #[trigger] fpu::adds(f, t, fpu::ONE, after.sum);
        assert(rounding::is_sum(rd, t, fpu::ONE, after.sum));
        assert forall|i: int| 0 <= i < before.ctx@.len() implies scales_and_adds(
            rd,
            before.ctx@[i],
            e,
            value[i],
            #[trigger] after.ctx@[i],
        ) by {
            assert(attend::scaled_sum(f, before.ctx@[i], e, value[i], after.ctx@[i]));
            let t = choose|t: u32| fpu::muls(f, before.ctx@[i], e, t) && #[trigger] fpu::adds(f, t, value[i], after.ctx@[i]);
            assert(rounding::is_sum(rd, t, value[i], after.ctx@[i]));
        }
        (d, e)
    } else {
        let e = choose|w: u32| #[trigger]
            rows::shifted_exp(f, score, before.max, w) && attend::joined(f, before, w, value, after);
        let d = choose|d: u32| fpu::subs(f, score, before.max, d) && #[trigger] fpu::exps(f, d, e);
        assert forall|i: int| 0 <= i < before.ctx@.len() implies adds_scaled(
            rd,
            before.ctx@[i],
            e,
            value[i],
            #[trigger] after.ctx@[i],
        ) by {
            assert(attend::sum_scaled(f, before.ctx@[i], e, value[i], after.ctx@[i]));
            let t = choose|t: u32| fpu::muls(f, e, value[i], t) && #[trigger] fpu::adds(f, before.ctx@[i], t, after.ctx@[i]);
            assert(rounding::is_sum(rd, before.ctx@[i], t, after.ctx@[i]));
        }
        (d, e)
    }
}

/// What a query gathers in a single pass over the keys and values: the score of each is its
/// sum of products with the query, scaled; what has been gathered is carried on as above; and
/// in the end it is divided by the sum of the weights, raised by a billionth. The result is
/// what has been gathered, the raised sum, and its inverse.
pub proof fn law_single_pass_weighs<F: Fpu>(
    f: &F,
    rd: spec_fn(int, int) -> int,
    q: Seq<u32>,
    keys: Seq<u32>,
    vals: Seq<u32>,
    base: int,
    l: int,
    scale: u32,
    out: Seq<u32>,
) -> (r: (Gathered, u32, u32))
    requires
        rounding::rounds_by(f, rd),
        attend::online_attended(f, q, keys, vals, base, l, scale, out),
    ensures
        gathered_so_far(f, rd, q, keys, vals, base, l, scale, r.0),
        rounding::is_sum(rd, r.0.sum, WEIGHT_FLOOR, r.1),
        constants::is_nearest(WEIGHT_FLOOR, 1, 1_000_000_000),
        rounding::is_quotient(rd, fpu::ONE, r.1, r.2),
        out.len() == r.0.ctx@.len(),
        forall|c: int| 0 <= c < out.len() ==> rounding::is_product(rd, r.0.ctx@[c], r.2, #[trigger] out[c]),
{
    constants::law_constants_are_nearest();
    let (g, raised, inv) = choose|g: Gathered, raised: u32, inv: u32|
        #[trigger] attend::online(f, q, keys, vals, base, l, scale, g) && #[trigger] fpu::adds(f, g.sum, WEIGHT_FLOOR, raised)
            && #[trigger] fpu::divs(f, fpu::ONE, raised, inv) && rows::scaled_by(f, g.ctx@, inv, out);
    lemma_gathered_so_far(f, rd, q, keys, vals, base, l, scale, g);
    assert forall|c: int| 0 <= c < out.len() implies rounding::is_product(rd, g.ctx@[c], inv, #[trigger] out[c]) by {
        assert(fpu::muls(f, g.ctx@[c], inv, out[c]));
    }
    (g, raised, inv)
}

/// Where a step of a head stands: its row among the results, which are in the order of batch,
/// step and head, and among the queries, which are in the order of batch, head and step; and
/// the first row of the keys and values of its group.
pub proof fn law_heads_share_by_groups<F: Fpu>(
    f: &F,
    q: NdArray<u32>,
    keys: NdArray<u32>,
    vals: NdArray<u32>,
    l: int,
    scale: u32,
    causal: bool,
    n_rep: int,
    past: int,
    r: NdArray<u32>,
    b: int,
    s: int,
    h: int,
)
    requires
        attend::grouped_attended(f, q, keys, vals, l, scale, causal, n_rep, past, r),
        0 <= b < q.shape@[0],
        0 <= h < q.shape@[1],
        0 <= s < q.shape@[2],
    ensures
        ({
            let (hs, ss, d) = (q.shape@[1] as int, q.shape@[2] as int, q.shape@[3] as int);
            attend::query_attended(
                f,
                ss == 1,
                matmul::flat_row(q.data@, (b * hs + h) * ss + s, d),
                keys.data@,
                vals.data@,
                (b * keys.shape@[1] + h / n_rep) * keys.shape@[2],
                l,
                scale,
                if causal {
                    past + s + 1
                } else {
                    l
                },
                matmul::flat_row(r.data@, (b * ss + s) * hs + h, d),
            )
        }),
{
    let (hs, ss, d) = (q.shape@[1] as int, q.shape@[2] as int, q.shape@[3] as int);
    let p = b * ss + s;
    let i = p * hs + h;
    vstd::arithmetic::div_mod::lemma_fundamental_div_mod_converse(i, hs, p, h);
    vstd::arithmetic::div_mod::lemma_fundamental_div_mod_converse(p, ss, b, s);
    assert(0 <= i < (q.shape@[0] * ss) * hs) by (nonlinear_arith)
        requires
            0 <= b < q.shape@[0],
            0 <= h < hs,
            0 <= s < ss,
            p == b * ss + s,
            i == p * hs + h,
    ;
    assert(attend::query_row(i, hs, ss) == (b * hs + h) * ss + s);
    assert(attend::query_attended(
        f,
        ss == 1,
        matmul::flat_row(q.data@, attend::query_row(i, hs, ss), d),
        keys.data@,
        vals.data@,
        attend::cache_row(i, hs, ss, n_rep, keys.shape@[1] as int, keys.shape@[2] as int),
        l,
        scale,
        attend::seen_keys(causal, past + attend::step_of(i, hs, ss), l),
        matmul::flat_row(r.data@, i, d),
    ));
}

/// The weights of attention that is recorded: of each query, the scores of the keys that it
/// sees are scaled and shared out by their exponentials, whose sum is raised by a ten
/// billionth; a key that comes later has no weight. A query among several sees the keys up to
/// its own place.
#[verifier::rlimit(40)]
pub proof fn law_recorded_weights<F: Fpu>(
    f: &F,
    rd: spec_fn(int, int) -> int,
    input: Tensor,
    scale: u32,
    causal: bool,
    mode: GradMode,
    t: Tensor,
    x: NdArray<u32>,
    row: int,
    visible: int,
) -> (w: Weighed)
    requires
        rounding::rounds_by(f, rd),
        fpu::fixed_answers(f),
        fused::fused_softmax_result(f, input, scale, causal, mode, t),
        t.storage is F32,
        autograd::reads_as(f, input.storage, x),
        input.spec_shape().len() == 4,
        0 < input.spec_shape()[2],
        0 < input.spec_shape()[3],
        0 <= row < (input.spec_shape()[0] * input.spec_shape()[1]) * input.spec_shape()[2],
        visible == (if causal && input.spec_shape()[2] > 1 && row % (input.spec_shape()[2] as int) + 1
            < input.spec_shape()[3] {
            row % (input.spec_shape()[2] as int) + 1
        } else {
            input.spec_shape()[3] as int
        }),
        forall|j: int, s: u32|
            0 <= j < visible && #[trigger] fpu::muls(
                f,
                matmul::flat_row(x.data@, row, input.spec_shape()[3] as int)[j],
                scale,
                s,
            ) ==> float_bits::is_finite(s),
    ensures
        ({
            let k = input.spec_shape()[3] as int;
            let xs = matmul::flat_row(x.data@, row, k);
            let ys = matmul::flat_row(t.storage->F32_0.data@, row, k);
            &&& w.scaled.len() == visible && w.distances.len() == visible && w.exponentials.len() == visible
            &&& forall|j: int| 0 <= j < visible ==> rounding::is_product(rd, xs[j], scale, #[trigger] w.scaled[j])
            &&& w.scaled.contains(w.greatest)
            &&& forall|j: int| 0 <= j < visible ==> rounding::value(#[trigger] w.scaled[j]) <= rounding::value(w.greatest)
            &&& forall|j: int|
                0 <= j < visible ==> rounding::is_difference(rd, w.scaled[j], w.greatest, #[trigger] w.distances[j])
            &&& forall|j: int| 0 <= j < visible ==> fpu::exps(f, w.distances[j], #[trigger] w.exponentials[j])
            &&& rounding::partial_sums(rd, w.exponentials, w.sums)
            &&& rounding::is_sum(rd, w.sums.last(), fused::SUM_FLOOR, w.raised)
            &&& constants::is_nearest(fused::SUM_FLOOR, 1, 10_000_000_000)
            &&& rounding::is_quotient(rd, fpu::ONE, w.raised, w.inverse)
            &&& forall|j: int| 0 <= j < visible ==> rounding::is_product(rd, w.exponentials[j], w.inverse, #[trigger] ys[j])
            &&& forall|j: int|
                visible <= j < k && float_bits::is_finite(w.inverse) ==> rounding::value(#[trigger] ys[j]) == 0
        }),
{
    constants::law_constants_are_nearest();
    rounding::lemma_constants();
    let k = input.spec_shape()[3] as int;
    let (a, b) = choose|a: NdArray<u32>, b: NdArray<u32>|
        autograd::reads_as(f, input.storage, a) && #[trigger] fused::scores_softmaxed(f, a, scale, causal, b)
            && autograd::stored_as(f, b, t.spec_dtype(), t.storage);
    fixed::lemma_one_reading(f, input.storage, &a, &x);
    let xs = matmul::flat_row(x.data@, row, k);
    let ys = matmul::flat_row(b.data@, row, k);
    lemma_row_of_four(x.shape@, row);
    assert(xs.len() == k);
    assert(visible > 0) by {
        assert(0 <= row % (input.spec_shape()[2] as int));
    }
    assert(fused::masked_softmax(f, xs, scale, visible, fused::SUM_FLOOR, ys));
    let (scaled, es, total, raised, inv) = choose|scaled: Seq<u32>, es: Seq<u32>, total: u32, raised: u32, inv: u32|
        #[trigger] rows::scaled_by(f, xs.take(visible), scale, scaled) && #[trigger] rows::exponentials(f, scaled, es, total)
            && #[trigger] fpu::adds(f, total, fused::SUM_FLOOR, raised) && #[trigger] fpu::divs(f, fpu::ONE, raised, inv)
            && fused::weighted(f, es, inv, ys);
    assert forall|j: int| 0 <= j < visible implies float_bits::is_finite(#[trigger] scaled[j]) && fpu::muls(
        f,
        xs[j],
        scale,
        scaled[j],
    ) by {
        assert(xs.take(visible)[j] == xs[j]);
        assert(fpu::muls(f, xs.take(visible)[j], scale, scaled[j]));
    }
    let p = portions::lemma_weighs(f, rd, scaled, es, total);
    assert forall|j: int| 0 <= j < visible implies rounding::is_product(rd, es[j], inv, #[trigger] ys[j]) by {
        assert(fpu::muls(f, es[j], inv, ys[j]));
    }
    assert forall|j: int| visible <= j < k && float_bits::is_finite(inv) implies rounding::value(#[trigger] ys[j]) == 0 by {
        assert(fpu::muls(f, fpu::ZERO, inv, ys[j]));
        let v = rounding::value(inv);
        assert(0 * v == 0) by (nonlinear_arith);
        rounding::lemma_rounds_to_side(rd, 0, rounding::unit(), fpu::ZERO);
        assert(0 * rounding::unit() == 0) by (nonlinear_arith);
    }
    Weighed {
        scores: xs,
        scaled,
        greatest: p.greatest,
        distances: p.distances,
        exponentials: es,
        sums: p.sums,
        raised,
        inverse: inv,
        weights: ys,
    }
}

/// A row of an array with four axes lies inside.
proof fn lemma_row_of_four(shape: Seq<usize>, row: int)
    requires
        shape.len() == 4,
        0 <= row < (shape[0] * shape[1]) * shape[2],
    ensures
        0 <= row * shape[3],
        row * shape[3] + shape[3] <= dims::product(shape),
{
    let n = (shape[0] * shape[1]) * shape[2];
    let three = shape.drop_last();
    dims::lemma_product3(three);
    assert(dims::product(shape) == dims::product(three) * shape.last());
    assert(0 <= row * shape[3] && row * shape[3] + shape[3] <= n * shape[3]) by (nonlinear_arith)
        requires
            0 <= row < n,
            shape[3] >= 0,
    ;
}

/// The gradient of a score: its weight times what its own gradient has over the sum of all
/// gradients times their weights, scaled. The products are `p.0`, their sum is `p.1`, and
/// what is left of each gradient `p.2`.
#[verifier::rlimit(40)]
pub proof fn law_weights_share_gradients<F: Fpu>(
    f: &F,
    rd: spec_fn(int, int) -> int,
    back: FusedSoftmaxBackward,
    g: NdArray<u32>,
    r: NdArray<u32>,
    row: int,
) -> (p: (Seq<u32>, u32, Seq<u32>, Seq<u32>))
    requires
        rounding::rounds_by(f, rd),
        back.sends(f, g, r),
        0 <= row < (g.shape@[0] * g.shape@[1]) * g.shape@[2],
    ensures
        ({
            let k = g.shape@[3] as int;
            let ys = matmul::flat_row(back.output.data@, row, k);
            let gs = matmul::flat_row(g.data@, row, k);
            let rs = matmul::flat_row(r.data@, row, k);
            &&& p.0.len() == ys.len() && p.2.len() == ys.len() && p.3.len() == ys.len()
            &&& forall|j: int| 0 <= j < ys.len() ==> rounding::is_product(rd, ys[j], gs[j], #[trigger] p.0[j])
            &&& fpu::sums(f, p.0, p.1)
            &&& forall|j: int| 0 <= j < ys.len() ==> rounding::is_difference(rd, gs[j], p.1, #[trigger] p.2[j])
            &&& forall|j: int| 0 <= j < ys.len() ==> rounding::is_product(rd, ys[j], p.2[j], #[trigger] p.3[j])
            &&& forall|j: int| 0 <= j < ys.len() ==> rounding::is_product(rd, p.3[j], back.scale, #[trigger] rs[j])
        }),
{
    let k = g.shape@[3] as int;
    let ys = matmul::flat_row(back.output.data@, row, k);
    let gs = matmul::flat_row(g.data@, row, k);
    let rs = matmul::flat_row(r.data@, row, k);
    assert(fused::scores_row_sends(f, ys, gs, back.scale, rs));
    let (ps, d) = choose|p: Seq<u32>, d: u32| #[trigger]
        fused::products(f, ys, gs, p) && #[trigger] fpu::sums(f, p, d) && fused::all_shifted(f, ys, gs, d, back.scale, rs);
    let parts = Seq::new(
        ys.len(),
        |j: int| choose|p: (u32, u32)| #[trigger] shift_parts(f, ys[j], gs[j], d, back.scale, rs[j], p),
    );
    assert forall|j: int| 0 <= j < ys.len() implies shift_parts(f, ys[j], gs[j], d, back.scale, rs[j], #[trigger] parts[j]) by {
        assert(fused::scaled_shift(f, ys[j], gs[j], d, back.scale, rs[j]));
        let p = choose|p: u32|
            activation::shifted_product(f, ys[j], gs[j], d, p) && #[trigger] fpu::muls(f, p, back.scale, rs[j]);
        let s = choose|s: u32| fpu::subs(f, gs[j], d, s) && #[trigger] fpu::muls(f, ys[j], s, p);
        assert(shift_parts(f, ys[j], gs[j], d, back.scale, rs[j], (s, p)));
    }
    let (ss, qs) = (Seq::new(ys.len(), |j: int| parts[j].0), Seq::new(ys.len(), |j: int| parts[j].1));
    assert forall|j: int| 0 <= j < ys.len() implies rounding::is_product(rd, ys[j], gs[j], #[trigger] ps[j]) by {
        assert(fpu::muls(f, ys[j], gs[j], ps[j]));
    }
    assert forall|j: int| 0 <= j < ys.len() implies rounding::is_product(rd, qs[j], back.scale, #[trigger] rs[j]) by {
        assert(shift_parts(f, ys[j], gs[j], d, back.scale, rs[j], parts[j]));
    }
    assert forall|j: int| 0 <= j < ys.len() implies rounding::is_product(rd, ys[j], ss[j], #[trigger] qs[j]) by {
        assert(shift_parts(f, ys[j], gs[j], d, back.scale, rs[j], parts[j]));
    }
    (ps, d, ss, qs)
}

/// The numbers on the way to the gradient of a score.
spec fn shift_parts<F: Fpu>(f: &F, y: u32, g: u32, d: u32, scale: u32, r: u32, p: (u32, u32)) -> bool {
    fpu::subs(f, g, d, p.0) && fpu::muls(f, y, p.0, p.1) && fpu::muls(f, p.1, scale, r)
}

} // verus!
