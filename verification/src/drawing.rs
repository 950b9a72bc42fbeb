use crate::constants;
use crate::fixed;
use crate::float_bits;
use crate::fpu;
use crate::fpu::Fpu;
use crate::layers::portions;
use crate::layers::shares;
use crate::ops::matvec;
use crate::ops::rows;
use crate::rounding;
use crate::sampling;
use crate::sampling::{SampleError, SamplingConfig, LEAST_SHARE, SUM_FLOOR};
use vstd::prelude::*;

verus! {

/// The exponential of zero is one, and that of a number so low that no positive number is
/// near it is zero. It depends on the value of its argument alone.
pub open spec fn exponentials_vanish<F: Fpu>(f: &F) -> bool {
    &&& forall|x: u32, e: u32|
        !float_bits::is_nan(x) && #[trigger] fpu::exps(f, x, e) ==> (rounding::value(x) == 0 ==> e == fpu::ONE) && (
        rounding::value(x) <= -(104 * rounding::unit()) ==> e == fpu::ZERO)
    &&& forall|x: u32, y: u32, e: u32, g: u32|
        #![trigger fpu::exps(f, x, e), fpu::exps(f, y, g)]
        !float_bits::is_nan(x) && !float_bits::is_nan(y) && rounding::value(x) == rounding::value(y) && fpu::exps(f, x, e)
            && fpu::exps(f, y, g) ==> e == g
}

/// The greatest finite number.
pub const GREATEST: u32 = 0x7f7f_ffff;

/// -104, below which exponentials vanish.
pub const VANISHING: u32 = 0xc2d0_0000;

/// A score over the temperature is no greater than the greatest number.
pub open spec fn spreads(x: u32, temperature: u32) -> bool {
    &&& float_bits::is_finite(x)
    &&& -(rounding::value(GREATEST) * rounding::value(temperature)) <= rounding::value(x) * rounding::unit()
        <= rounding::value(GREATEST) * rounding::value(temperature)
}

#[verifier::rlimit(40)]
proof fn lemma_drawing_constants()
    ensures
        float_bits::is_finite(GREATEST),
        rounding::value(GREATEST) > 0,
        float_bits::is_finite(VANISHING),
        rounding::value(VANISHING) == -(104 * rounding::unit()),
        float_bits::is_finite(SUM_FLOOR),
        0 <= rounding::value(SUM_FLOOR) <= rounding::unit(),
        float_bits::is_finite(0x3f00_0000u32),
        2 * rounding::value(0x3f00_0000u32) == rounding::unit(),
        float_bits::is_finite(0x4000_0000u32),
        rounding::value(0x4000_0000u32) == 2 * rounding::unit(),
{
    rounding::lemma_constants();
    vstd::arithmetic::power2::lemma2_to64();
    vstd::arithmetic::power2::lemma_pow2_adds(23, 125);
    vstd::arithmetic::power2::lemma_pow2_adds(23, 127);
    vstd::arithmetic::power2::lemma_pow2_unfold(149);
    vstd::arithmetic::power2::lemma_pow2_unfold(150);
    vstd::arithmetic::power2::lemma_pow2_adds(19, 132);
    vstd::arithmetic::power2::lemma_pow2_adds(2, 149);
    vstd::arithmetic::power2::lemma_pow2_pos(253);
    assert(0x3f00_0000u32 / 0x80_0000u32 == 126);
    assert(0x4000_0000u32 / 0x80_0000u32 == 128);
    assert((0xc2d0_0000u32 / 0x80_0000u32) % 256 == 133);
    assert(0xc2d0_0000u32 % 0x80_0000u32 == 0x50_0000);
    assert(0x7f7f_ffffu32 / 0x80_0000u32 == 254);
    let p = |n: nat| vstd::arithmetic::power2::pow2(n);
    assert(float_bits::scaled_magnitude(0x3f00_0000u32) == 0x80_0000nat * p(125));
    assert(float_bits::scaled_magnitude(0x4000_0000u32) == 0x80_0000nat * p(127));
    assert(float_bits::scaled_magnitude(VANISHING) == 0xd0_0000nat * p(132));
    let a = p(132) as int;
    vstd::arithmetic::power2::lemma_pow2_adds(17, 132);
    assert(p(149) == 0x2_0000 * a);
    assert(float_bits::scaled_magnitude(GREATEST) == 0xff_ffffnat * p(253));
    assert(0xff_ffffnat * p(253) > 0) by (nonlinear_arith)
        requires
            p(253) > 0,
    ;
    assert(0x3089_705fu32 / 0x80_0000u32 == 97);
    rounding::lemma_values_order(SUM_FLOOR, fpu::ONE);
    rounding::lemma_values_order(fpu::ZERO, SUM_FLOOR);
}

/// A score over the temperature.
proof fn lemma_scaled<F: Fpu>(f: &F, rd: spec_fn(int, int) -> int, x: u32, t: u32, y: u32)
    requires
        rounding::rounds_by(f, rd),
        float_bits::is_finite(t),
        rounding::value(t) > 0,
        spreads(x, t),
        fpu::divs(f, x, t, y),
    ensures
        float_bits::is_finite(y),
        rounding::value(y) == rd(rounding::value(x) * rounding::unit(), rounding::value(t)),
{
    lemma_drawing_constants();
    let low = rounding::lemma_negated(GREATEST);
    let (g, v, n) = (rounding::value(GREATEST), rounding::value(t), rounding::value(x) * rounding::unit());
    assert((-g) * v == -(g * v)) by (nonlinear_arith);
    rounding::lemma_rounds_to_side(rd, n, v, GREATEST);
    rounding::lemma_rounds_to_side(rd, n, v, low);
    rounding::lemma_finite_between(low, y, GREATEST);
}

/// A sum of zeros and a single one.
proof fn lemma_single_one<F: Fpu>(f: &F, rd: spec_fn(int, int) -> int, es: Seq<u32>, b: int, total: u32)
    requires
        rounding::rounds_by(f, rd),
        forall|j: int| 0 <= j < es.len() ==> #[trigger] es[j] == (if j == b {
            fpu::ONE
        } else {
            fpu::ZERO
        }),
        rows::left_sum(f, fpu::ZERO, es, total),
        0 <= b,
    ensures
        float_bits::is_finite(total),
        rounding::value(total) == (if b < es.len() {
            rounding::unit()
        } else {
            0
        }),
    decreases es.len(),
{
    rounding::lemma_constants();
    if es.len() > 0 {
        let m = choose|m: u32| rows::left_sum(f, fpu::ZERO, es.drop_last(), m) && #[trigger] fpu::adds(f, m, es.last(), total);
        let before = es.drop_last();
        assert forall|j: int| 0 <= j < before.len() implies #[trigger] before[j] == (if j == b {
            fpu::ONE
        } else {
            fpu::ZERO
        }) by {
            assert(before[j] == es[j]);
        }
        lemma_single_one(f, rd, before, b, m);
        assert(es.last() == es[es.len() - 1]);
        let p = if b < es.len() {
            fpu::ONE
        } else {
            fpu::ZERO
        };
        rounding::lemma_rounds_to_side(rd, rounding::value(m) + rounding::value(es.last()), 1, p);
        rounding::lemma_finite_between(p, total, p);
    }
}

/// The probabilities of scores of which one is far above all others: it has all of them.
#[verifier::rlimit(40)]
proof fn lemma_sure_distribution<F: Fpu>(
    f: &F,
    rd: spec_fn(int, int) -> int,
    scaled: Seq<u32>,
    probs: Seq<u32>,
    best: int,
    hi: int,
    lo: int,
)
    requires
        rounding::rounds_by(f, rd),
        exponentials_vanish(f),
        0 <= best < scaled.len(),
        forall|j: int| 0 <= j < scaled.len() ==> float_bits::is_finite(#[trigger] scaled[j]),
        rounding::value(scaled[best]) >= hi,
        forall|j: int| 0 <= j < scaled.len() && j != best ==> rounding::value(#[trigger] scaled[j]) <= lo,
        hi - lo >= 104 * rounding::unit(),
        sampling::is_distribution(f, scaled, probs),
    ensures
        probs.len() == scaled.len(),
        float_bits::is_finite(probs[best]),
        rounding::value(probs[best]) > 0,
        forall|j: int|
            0 <= j < probs.len() && j != best ==> float_bits::is_finite(#[trigger] probs[j]) && rounding::value(probs[j]) == 0,
{
    let u = rounding::unit();
    rounding::lemma_constants();
    lemma_drawing_constants();
    let (es, total, inv) = choose|es: Seq<u32>, total: u32, inv: u32|
        #[trigger] rows::exponentials(f, scaled, es, total) && #[trigger] sampling::inverse_of_sum(f, total, inv)
            && rows::scaled_by(f, es, inv, probs);
    let m = rows::row_max(scaled);
    let k = shares::lemma_greatest(scaled);
    assert(float_bits::at_most(scaled[best], m));
    rounding::lemma_finite_is_number(scaled[best]);
    rounding::lemma_finite_is_number(m);
    rounding::lemma_values_order(scaled[best], m);
    assert(rounding::value(m) == rounding::value(scaled[best])) by {
        if k != best {
            assert(rounding::value(scaled[k]) <= lo);
        }
    }
    assert forall|j: int| 0 <= j < es.len() implies #[trigger] es[j] == (if j == best {
        fpu::ONE
    } else {
        fpu::ZERO
    }) by {
        assert(rows::shifted_exp(f, scaled[j], m, es[j]));
        let d = choose|d: u32| fpu::subs(f, scaled[j], m, d) && #[trigger] fpu::exps(f, d, es[j]);
        let n = rounding::value(scaled[j]) - rounding::value(m);
        if j == best {
            rounding::lemma_rounds_to_side(rd, n, 1, fpu::ZERO);
        } else {
            assert(rounding::value(scaled[j]) <= lo);
            rounding::lemma_rounds_to_side(rd, n, 1, VANISHING);
        }
    }
    lemma_single_one(f, rd, es, best, total);
    let d = choose|d: u32| fpu::adds(f, total, SUM_FLOOR, d) && #[trigger] fpu::divs(f, fpu::ONE, d, inv);
    let (half, two) = (0x3f00_0000u32, 0x4000_0000u32);
    rounding::lemma_rounds_to_side(rd, u + rounding::value(SUM_FLOOR), 1, fpu::ONE);
    rounding::lemma_rounds_to_side(rd, u + rounding::value(SUM_FLOOR), 1, two);
    rounding::lemma_finite_between(fpu::ONE, d, two);
    let vd = rounding::value(d);
    let vh = rounding::value(half);
    assert(vh * vd <= u * u && u * u <= u * vd) by (nonlinear_arith)
        requires
            u <= vd <= 2 * u,
            2 * vh == u,
            u > 0,
    ;
    rounding::lemma_rounds_to_side(rd, u * u, vd, half);
    rounding::lemma_rounds_to_side(rd, u * u, vd, fpu::ONE);
    rounding::lemma_finite_between(half, inv, fpu::ONE);
    let vi = rounding::value(inv);
    assert(u * vi == vi * u) by (nonlinear_arith);
    assert(fpu::muls(f, es[best], inv, probs[best]));
    rounding::lemma_rounds_to_side(rd, u * vi, u, inv);
    rounding::lemma_finite_between(inv, probs[best], inv);
    assert forall|j: int| 0 <= j < probs.len() && j != best implies float_bits::is_finite(#[trigger] probs[j])
        && rounding::value(probs[j]) == 0 by {
        assert(es[j] == fpu::ZERO);
        assert(fpu::muls(f, es[j], inv, probs[j]));
        assert(0 * vi == 0) by (nonlinear_arith);
        rounding::lemma_rounds_to_side(rd, 0, u, fpu::ZERO);
        rounding::lemma_finite_between(fpu::ZERO, probs[j], fpu::ZERO);
    }
}

/// A draw from a distribution that is sure of a token falls on it.
#[verifier::rlimit(40)]
proof fn lemma_sure_draw<F: Fpu>(
    f: &F,
    rd: spec_fn(int, int) -> int,
    probs: Seq<u32>,
    top_p: u32,
    draw: u32,
    best: int,
    r: Result<usize, SampleError>,
)
    requires
        rounding::rounds_by(f, rd),
        0 <= best < probs.len() <= usize::MAX,
        float_bits::is_finite(probs[best]),
        rounding::value(probs[best]) > 0,
        forall|j: int|
            0 <= j < probs.len() && j != best ==> float_bits::is_finite(#[trigger] probs[j]) && rounding::value(probs[j]) == 0,
        float_bits::at_most(draw, fpu::ONE),
        sampling::drawn(f, probs, top_p, draw, r),
    ensures
        r == Ok::<usize, SampleError>(best as usize),
{
    let u = rounding::unit();
    rounding::lemma_constants();
    assert forall|j: int| 0 <= j < probs.len() implies !float_bits::is_nan(#[trigger] probs[j]) by {
        assert(j == best || float_bits::is_finite(probs[j]));
        rounding::lemma_finite_is_number(probs[j]);
    }
    assert(sampling::all_numbers(probs));
    let token = r->Ok_0;
    let share = sampling::wanted_share(top_p);
    assert(sampling::draws(f, probs, share, draw, token));
    let (order, sums, accs) = choose|order: Seq<usize>, sums: Seq<u32>, accs: Seq<u32>|
        sampling::is_ranking(probs, 0, probs.len() as int, order) && #[trigger] sampling::is_nucleus(f, probs, order, share, sums)
            && #[trigger] sampling::falls_on(f, probs, order, sums.len() - 1, sums.last(), draw, accs, token);
    sampling::law_ranking_is_complete(probs, order, best as usize);
    let k = choose|k: int| 0 <= k < order.len() && order[k] == best as usize;
    if k > 0 {
        assert(sampling::ranks_before(probs, order[0] as int, order[k] as int));
        let a = order[0] as int;
        assert(a != best);
        rounding::lemma_values_order(probs[a], probs[best]);
        assert(false);
    }
    assert(order[0] == best as usize);
    let p = probs[best];
    let cut = sums.len() - 1;
    assert forall|j: int| 1 <= j <= cut implies float_bits::is_finite(#[trigger] sums[j]) && rounding::value(sums[j])
        == rounding::value(p) by {
        lemma_sum_stays(f, rd, probs, order, sums, best, j);
    }
    let whole = sums.last();
    assert(sums.last() == sums[cut]);
    let vp = rounding::value(p);
    let z: int = 0;
    assert(sampling::share_added(f, accs[z], probs[order[z] as int], whole, accs[z + 1]));
    let q = choose|q: u32| fpu::divs(f, p, whole, q) && #[trigger] fpu::adds(f, accs[0], q, accs[1]);
    assert(u * vp == vp * u) by (nonlinear_arith);
    rounding::lemma_rounds_to_side(rd, vp * u, vp, fpu::ONE);
    rounding::lemma_finite_between(fpu::ONE, q, fpu::ONE);
    rounding::lemma_rounds_to_side(rd, u, 1, fpu::ONE);
    rounding::lemma_values_order(draw, fpu::ONE);
    rounding::lemma_values_order(draw, accs[1]);
    assert(float_bits::at_most(draw, accs[1]));
    assert(accs.len() - 2 == 0) by {
        if accs.len() - 2 > 0 {
            assert(!float_bits::at_most(draw, accs[1]));
        }
    }
}

/// Sums of probabilities stay behind a token that has all of them.
proof fn lemma_sum_stays<F: Fpu>(
    f: &F,
    rd: spec_fn(int, int) -> int,
    probs: Seq<u32>,
    order: Seq<usize>,
    sums: Seq<u32>,
    best: int,
    j: int,
)
    requires
        rounding::rounds_by(f, rd),
        0 <= best < probs.len(),
        float_bits::is_finite(probs[best]),
        forall|j: int|
            0 <= j < probs.len() && j != best ==> float_bits::is_finite(#[trigger] probs[j]) && rounding::value(probs[j]) == 0,
        sampling::is_ranking(probs, 0, probs.len() as int, order),
        order[0] == best,
        sums[0] == fpu::ZERO,
        sums.len() - 1 <= order.len(),
        forall|k: int|
            0 <= k < sums.len() - 1 ==> #[trigger] fpu::adds(f, sums[k], probs[order[k] as int], sums[k + 1]),
        1 <= j < sums.len(),
    ensures
        float_bits::is_finite(sums[j]),
        rounding::value(sums[j]) == rounding::value(probs[best]),
    decreases j,
{
    rounding::lemma_constants();
    let p = probs[best];
    let i = j - 1;
    assert(fpu::adds(f, sums[i], probs[order[i] as int], sums[i + 1]));
    rounding::lemma_rounds_to_side(rd, rounding::value(p), 1, p);
    if i > 0 {
        lemma_sum_stays(f, rd, probs, order, sums, best, i);
        assert(sampling::ranks_before(probs, order[0] as int, order[i] as int));
        assert(order[i] != best);
    }
    rounding::lemma_finite_between(p, sums[j], p);
}

/// A temperature that is low enough makes the draw the greedy choice, whatever the draw: a
/// token is taken whose score, in units of the temperature, is far enough above all others. It
/// is no less than `hi`, the others are no more than `lo`, and `hi` is 104 above `lo`.
pub proof fn law_low_temperature_is_greedy<F: Fpu>(
    f: &F,
    rd: spec_fn(int, int) -> int,
    c: SamplingConfig,
    logits: Seq<u32>,
    recent: Seq<usize>,
    draw: u32,
    r: Result<usize, SampleError>,
    best: int,
    hi: u32,
    lo: u32,
)
    requires
        rounding::rounds_by(f, rd),
        exponentials_vanish(f),
        !float_bits::above(c.repetition_penalty, fpu::ONE),
        !sampling::is_greedy(c.temperature),
        float_bits::is_finite(c.temperature),
        rounding::value(c.temperature) > 0,
        0 <= best < logits.len() <= usize::MAX,
        forall|j: int| 0 <= j < logits.len() ==> spreads(#[trigger] logits[j], c.temperature),
        float_bits::is_finite(hi),
        float_bits::is_finite(lo),
        rounding::value(hi) - rounding::value(lo) >= 104 * rounding::unit(),
        rounding::value(hi) * rounding::value(c.temperature) <= rounding::value(logits[best]) * rounding::unit(),
        forall|j: int|
            0 <= j < logits.len() && j != best ==> rounding::value(#[trigger] logits[j]) * rounding::unit() <= rounding::value(lo)
                * rounding::value(c.temperature),
        float_bits::at_most(draw, fpu::ONE),
        sampling::sampled(f, c, logits, recent, draw, r),
    ensures
        r == Ok::<usize, SampleError>(best as usize),
{
    let t = c.temperature;
    let (scaled, probs) = choose|scaled: Seq<u32>, probs: Seq<u32>|
        sampling::quotients(f, logits, t, scaled) && #[trigger] sampling::is_distribution(f, scaled, probs) && sampling::drawn(
            f,
            probs,
            c.top_p,
            draw,
            r,
        );
    assert forall|j: int| 0 <= j < scaled.len() implies float_bits::is_finite(#[trigger] scaled[j]) && (j == best
        ==> rounding::value(scaled[j]) >= rounding::value(hi)) && (j != best ==> rounding::value(scaled[j])
        <= rounding::value(lo)) by {
        assert(fpu::divs(f, logits[j], t, scaled[j]));
        assert(spreads(logits[j], t));
        lemma_scaled(f, rd, logits[j], t, scaled[j]);
        let n = rounding::value(logits[j]) * rounding::unit();
        rounding::lemma_rounds_to_side(rd, n, rounding::value(t), hi);
        rounding::lemma_rounds_to_side(rd, n, rounding::value(t), lo);
    }
    lemma_sure_distribution(f, rd, scaled, probs, best, rounding::value(hi), rounding::value(lo));
    lemma_sure_draw(f, rd, probs, c.top_p, draw, best, r);
}

/// There is one ranking.
proof fn lemma_one_ranking(probs: Seq<u32>, a: Seq<usize>, b: Seq<usize>, i: int)
    requires
        probs.len() <= usize::MAX,
        sampling::is_ranking(probs, 0, probs.len() as int, a),
        sampling::is_ranking(probs, 0, probs.len() as int, b),
        0 <= i < a.len(),
    ensures
        a[i] == b[i],
        forall|j: int| 0 <= j <= i ==> #[trigger] a[j] == b[j],
    decreases i,
{
    if i > 0 {
        lemma_one_ranking(probs, a, b, i - 1);
    }
    if a[i] != b[i] {
        sampling::law_ranking_is_complete(probs, b, a[i]);
        sampling::law_ranking_is_complete(probs, a, b[i]);
        let k = choose|k: int| 0 <= k < b.len() && b[k] == a[i];
        let l = choose|l: int| 0 <= l < a.len() && a[l] == b[i];
        if k < i {
            assert(a[k] == b[k]);
            assert(sampling::ranks_before(probs, a[k] as int, a[i] as int));
        }
        if l < i {
            assert(a[l] == b[l]);
            assert(sampling::ranks_before(probs, b[l] as int, b[i] as int));
        }
        assert(sampling::ranks_before(probs, b[i] as int, b[k] as int));
        assert(sampling::ranks_before(probs, a[i] as int, a[l] as int));
    }
}

/// Sums of probabilities in a ranking are the same as far as both lists go.
proof fn lemma_same_sums<F: Fpu>(f: &F, probs: Seq<u32>, order: Seq<usize>, share: u32, a: Seq<u32>, b: Seq<u32>, i: int)
    requires
        fpu::fixed_answers(f),
        sampling::is_nucleus(f, probs, order, share, a),
        sampling::is_nucleus(f, probs, order, share, b),
        0 <= i < a.len(),
        i < b.len(),
    ensures
        a[i] == b[i],
    decreases i,
{
    if i > 0 {
        let k = i - 1;
        lemma_same_sums(f, probs, order, share, a, b, k);
        assert(fpu::adds(f, a[k], probs[order[k] as int], a[k + 1]));
        assert(fpu::adds(f, b[k], probs[order[k] as int], b[k + 1]));
    }
}

proof fn lemma_one_nucleus<F: Fpu>(f: &F, probs: Seq<u32>, order: Seq<usize>, share: u32, a: Seq<u32>, b: Seq<u32>)
    requires
        fpu::fixed_answers(f),
        sampling::is_nucleus(f, probs, order, share, a),
        sampling::is_nucleus(f, probs, order, share, b),
    ensures
        a == b,
{
    if a.len() < b.len() {
        let i = a.len() - 1;
        lemma_same_sums(f, probs, order, share, a, b, i);
        assert(!float_bits::at_most(share, b[i]));
    }
    if b.len() < a.len() {
        let i = b.len() - 1;
        lemma_same_sums(f, probs, order, share, a, b, i);
        assert(!float_bits::at_most(share, a[i]));
    }
    assert forall|i: int| 0 <= i < a.len() implies #[trigger] a[i] == b[i] by {
        lemma_same_sums(f, probs, order, share, a, b, i);
    }
    assert(a =~= b);
}

proof fn lemma_same_shares<F: Fpu>(
    f: &F,
    probs: Seq<u32>,
    order: Seq<usize>,
    cut: int,
    whole: u32,
    draw: u32,
    other_draw: u32,
    a: Seq<u32>,
    b: Seq<u32>,
    t: usize,
    s: usize,
    i: int,
)
    requires
        fpu::fixed_answers(f),
        sampling::falls_on(f, probs, order, cut, whole, draw, a, t),
        sampling::falls_on(f, probs, order, cut, whole, other_draw, b, s),
        0 <= i < a.len(),
        i < b.len(),
    ensures
        a[i] == b[i],
    decreases i,
{
    if i > 0 {
        let k = i - 1;
        lemma_same_shares(f, probs, order, cut, whole, draw, other_draw, a, b, t, s, k);
        assert(sampling::share_added(f, a[k], probs[order[k] as int], whole, a[k + 1]));
        assert(sampling::share_added(f, b[k], probs[order[k] as int], whole, b[k + 1]));
    }
}

/// Where the processor answers alike, a greater draw never takes a token that ranks before
/// that of a smaller draw; equal draws take the same token.
#[verifier::rlimit(40)]
pub proof fn law_greater_draws_go_down_the_ranking<F: Fpu>(
    f: &F,
    probs: Seq<u32>,
    top_p: u32,
    draw: u32,
    other_draw: u32,
    r: Result<usize, SampleError>,
    s: Result<usize, SampleError>,
)
    requires
        fpu::fixed_answers(f),
        probs.len() <= usize::MAX,
        sampling::drawn(f, probs, top_p, draw, r),
        sampling::drawn(f, probs, top_p, other_draw, s),
        float_bits::at_most(draw, other_draw) || draw == other_draw,
    ensures
        r is Ok <==> s is Ok,
        r is Err ==> r == s,
        draw == other_draw ==> r == s,
        r is Ok ==> r == s || sampling::ranks_before(probs, r->Ok_0 as int, s->Ok_0 as int),
{
    if r is Ok {
        let share = sampling::wanted_share(top_p);
        let (o1, s1, a1) = choose|order: Seq<usize>, sums: Seq<u32>, accs: Seq<u32>|
            sampling::is_ranking(probs, 0, probs.len() as int, order) && #[trigger] sampling::is_nucleus(
                f,
                probs,
                order,
                share,
                sums,
            ) && #[trigger] sampling::falls_on(f, probs, order, sums.len() - 1, sums.last(), draw, accs, r->Ok_0);
        let (o2, s2, a2) = choose|order: Seq<usize>, sums: Seq<u32>, accs: Seq<u32>|
            sampling::is_ranking(probs, 0, probs.len() as int, order) && #[trigger] sampling::is_nucleus(
                f,
                probs,
                order,
                share,
                sums,
            ) && #[trigger] sampling::falls_on(f, probs, order, sums.len() - 1, sums.last(), other_draw, accs, s->Ok_0);
        lemma_one_ranking(probs, o1, o2, o1.len() - 1);
        assert(o1 =~= o2);
        lemma_one_nucleus(f, probs, o1, share, s1, s2);
        let (i, j) = (a1.len() - 2, a2.len() - 2);
        let cut = s1.len() - 1;
        if i > j {
            lemma_same_shares(f, probs, o1, cut, s1.last(), draw, other_draw, a1, a2, r->Ok_0, s->Ok_0, j + 1);
            assert(!float_bits::at_most(draw, a1[j + 1]));
            assert(float_bits::at_most(other_draw, a2[j + 1]));
            assert(false);
        }
        if i < j {
            if draw == other_draw {
                lemma_same_shares(f, probs, o1, cut, s1.last(), draw, other_draw, a1, a2, r->Ok_0, s->Ok_0, i + 1);
                assert(!float_bits::at_most(other_draw, a2[i + 1]));
                assert(false);
            }
            assert(sampling::ranks_before(probs, o1[i] as int, o1[j] as int));
        }
    }
}

/// Without a share of the probability to draw from, the most likely token is taken, whatever
/// the draw, if its probability is the least share at least.
#[verifier::rlimit(40)]
pub proof fn law_no_share_takes_the_most_likely<F: Fpu>(
    f: &F,
    rd: spec_fn(int, int) -> int,
    probs: Seq<u32>,
    top_p: u32,
    draw: u32,
    token: usize,
    j: int,
)
    requires
        rounding::rounds_by(f, rd),
        probs.len() <= usize::MAX,
        sampling::drawn(f, probs, top_p, draw, Ok(token)),
        float_bits::at_most(top_p, fpu::ZERO),
        forall|i: int| 0 <= i < probs.len() ==> float_bits::is_finite(#[trigger] probs[i]),
        0 <= j < probs.len(),
        float_bits::at_most(sampling::LEAST_SHARE, probs[j]),
    ensures
        token < probs.len(),
        token == j || sampling::ranks_before(probs, token as int, j),
{
    let share = sampling::wanted_share(top_p);
    assert(share == sampling::LEAST_SHARE) by {
        assert(!float_bits::above(fpu::ZERO, sampling::LEAST_SHARE));
    }
    let (order, sums, accs) = choose|order: Seq<usize>, sums: Seq<u32>, accs: Seq<u32>|
        sampling::is_ranking(probs, 0, probs.len() as int, order) && #[trigger] sampling::is_nucleus(f, probs, order, share, sums)
            && #[trigger] sampling::falls_on(f, probs, order, sums.len() - 1, sums.last(), draw, accs, token);
    sampling::law_ranking_is_complete(probs, order, j as usize);
    let k = choose|k: int| 0 <= k < order.len() && order[k] == j as usize;
    let a = order[0] as int;
    if k > 0 {
        assert(sampling::ranks_before(probs, order[0] as int, order[k] as int));
    }
    rounding::lemma_constants();
    let z: int = 0;
    assert(fpu::adds(f, sums[z], probs[order[z] as int], sums[z + 1]));
    rounding::lemma_rounds_to_side(rd, rounding::value(probs[a]), 1, probs[a]);
    rounding::lemma_finite_is_number(probs[a]);
    rounding::lemma_finite_is_number(probs[j]);
    rounding::lemma_values_order(share, probs[j]);
    rounding::lemma_values_order(probs[j], probs[a]);
    rounding::lemma_values_order(share, sums[1]);
    assert(float_bits::at_most(share, sums[1]));
    assert(sums.len() - 1 == 1) by {
        if sums.len() - 1 > 1 {
            assert(!float_bits::at_most(share, sums[1]));
        }
    }
}

/// Equal scaled scores have equal probabilities.
#[verifier::rlimit(40)]
proof fn lemma_one_distribution<F: Fpu>(f: &F, rd: spec_fn(int, int) -> int, xs: Seq<u32>, ys: Seq<u32>, ps: Seq<u32>, qs: Seq<u32>)
    requires
        fpu::fixed_answers(f),
        rounding::rounds_by(f, rd),
        exponentials_vanish(f),
        xs.len() == ys.len(),
        forall|j: int| 0 <= j < xs.len() ==> float_bits::is_finite(#[trigger] xs[j]),
        forall|j: int| 0 <= j < ys.len() ==> float_bits::is_finite(#[trigger] ys[j]),
        forall|j: int| 0 <= j < xs.len() ==> rounding::value(#[trigger] xs[j]) == rounding::value(ys[j]),
        sampling::is_distribution(f, xs, ps),
        sampling::is_distribution(f, ys, qs),
    ensures
        ps == qs,
{
    let (e1, t1, i1) = choose|es: Seq<u32>, total: u32, inv: u32|
        #[trigger] rows::exponentials(f, xs, es, total) && #[trigger] sampling::inverse_of_sum(f, total, inv) && rows::scaled_by(
            f,
            es,
            inv,
            ps,
        );
    let (e2, t2, i2) = choose|es: Seq<u32>, total: u32, inv: u32|
        #[trigger] rows::exponentials(f, ys, es, total) && #[trigger] sampling::inverse_of_sum(f, total, inv) && rows::scaled_by(
            f,
            es,
            inv,
            qs,
        );
    let (m, n) = (rows::row_max(xs), rows::row_max(ys));
    if xs.len() > 0 {
        let k = shares::lemma_greatest(xs);
        let l = shares::lemma_greatest(ys);
        assert(float_bits::at_most(xs[l], m));
        assert(float_bits::at_most(ys[k], n));
        rounding::lemma_finite_is_number(xs[l]);
        rounding::lemma_finite_is_number(ys[k]);
        rounding::lemma_finite_is_number(m);
        rounding::lemma_finite_is_number(n);
        rounding::lemma_values_order(xs[l], m);
        rounding::lemma_values_order(ys[k], n);
        assert(rounding::value(xs[k]) == rounding::value(ys[k]));
        assert(rounding::value(xs[l]) == rounding::value(ys[l]));
        assert(rounding::value(m) == rounding::value(n));
    }
    assert forall|j: int| 0 <= j < e1.len() implies #[trigger] e1[j] == e2[j] by {
        assert(rows::shifted_exp(f, xs[j], m, e1[j]));
        assert(rows::shifted_exp(f, ys[j], n, e2[j]));
        let d1 = choose|d: u32| fpu::subs(f, xs[j], m, d) && #[trigger] fpu::exps(f, d, e1[j]);
        let d2 = choose|d: u32| fpu::subs(f, ys[j], n, d) && #[trigger] fpu::exps(f, d, e2[j]);
        assert(rounding::value(xs[j]) == rounding::value(ys[j]));
        assert(rounding::value(d1) == rounding::value(d2));
    }
    assert(e1 =~= e2);
    fixed::lemma_one_left_sum(f, fpu::ZERO, e1, t1, t2);
    let d1 = choose|d: u32| fpu::adds(f, t1, SUM_FLOOR, d) && #[trigger] fpu::divs(f, fpu::ONE, d, i1);
    let d2 = choose|d: u32| fpu::adds(f, t2, SUM_FLOOR, d) && #[trigger] fpu::divs(f, fpu::ONE, d, i2);
    assert(i1 == i2);
    fixed::lemma_one_scaling(f, e1, i1, ps, qs);
}

/// The temperature is the unit that scores are counted in: only the ratio of the scores to it
/// matters. Scores and a temperature that have all become greater, or smaller, in the same
/// proportion give the same token for the same draw.
#[verifier::rlimit(40)]
pub proof fn law_temperature_is_the_unit_of_scores<F: Fpu>(
    f: &F,
    rd: spec_fn(int, int) -> int,
    c: SamplingConfig,
    logits: Seq<u32>,
    recent: Seq<usize>,
    other_c: SamplingConfig,
    other_logits: Seq<u32>,
    other_recent: Seq<usize>,
    draw: u32,
    r: Result<usize, SampleError>,
    s: Result<usize, SampleError>,
)
    requires
        fpu::fixed_answers(f),
        rounding::rounds_by(f, rd),
        exponentials_vanish(f),
        !float_bits::above(c.repetition_penalty, fpu::ONE),
        !float_bits::above(other_c.repetition_penalty, fpu::ONE),
        !sampling::is_greedy(c.temperature),
        !sampling::is_greedy(other_c.temperature),
        float_bits::is_finite(c.temperature) && rounding::value(c.temperature) > 0,
        float_bits::is_finite(other_c.temperature) && rounding::value(other_c.temperature) > 0,
        c.top_p == other_c.top_p,
        logits.len() == other_logits.len(),
        logits.len() <= usize::MAX,
        forall|j: int| 0 <= j < logits.len() ==> spreads(#[trigger] logits[j], c.temperature),
        forall|j: int| 0 <= j < logits.len() ==> spreads(#[trigger] other_logits[j], other_c.temperature),
        forall|j: int|
            0 <= j < logits.len() ==> rounding::value(#[trigger] logits[j]) * rounding::value(other_c.temperature)
                == rounding::value(other_logits[j]) * rounding::value(c.temperature),
        sampling::sampled(f, c, logits, recent, draw, r),
        sampling::sampled(f, other_c, other_logits, other_recent, draw, s),
    ensures
        r == s,
{
    let (t, w) = (c.temperature, other_c.temperature);
    let u = rounding::unit();
    rounding::lemma_constants();
    let (x1, p1) = choose|scaled: Seq<u32>, probs: Seq<u32>|
        sampling::quotients(f, logits, t, scaled) && #[trigger] sampling::is_distribution(f, scaled, probs) && sampling::drawn(
            f,
            probs,
            c.top_p,
            draw,
            r,
        );
    let (x2, p2) = choose|scaled: Seq<u32>, probs: Seq<u32>|
        sampling::quotients(f, other_logits, w, scaled) && #[trigger] sampling::is_distribution(f, scaled, probs)
            && sampling::drawn(f, probs, c.top_p, draw, s);
    assert forall|j: int| 0 <= j < x1.len() implies rounding::value(#[trigger] x1[j]) == rounding::value(x2[j])
        && float_bits::is_finite(x1[j]) && float_bits::is_finite(x2[j]) by {
        assert(fpu::divs(f, logits[j], t, x1[j]));
        assert(fpu::divs(f, other_logits[j], w, x2[j]));
        assert(spreads(logits[j], t) && spreads(other_logits[j], w));
        lemma_scaled(f, rd, logits[j], t, x1[j]);
        lemma_scaled(f, rd, other_logits[j], w, x2[j]);
        let (a, b, vt, vw) = (
            rounding::value(logits[j]),
            rounding::value(other_logits[j]),
            rounding::value(t),
            rounding::value(w),
        );
        assert((a * u) * vw == (b * u) * vt) by (nonlinear_arith)
            requires
                a * vw == b * vt,
        ;
        rounding::lemma_rounds_alike(rd, a * u, vt, b * u, vw);
    }
    assert forall|j: int| 0 <= j < x2.len() implies float_bits::is_finite(#[trigger] x2[j]) by {
        assert(rounding::value(x1[j]) == rounding::value(x2[j]));
    }
    lemma_one_distribution(f, rd, x1, x2, p1, p2);
    law_greater_draws_go_down_the_ranking(f, p1, c.top_p, draw, draw, r, s);
}

/// The exponential grows with its argument; up to zero it lies between zero and one, and it is
/// one at zero.
pub open spec fn exponentials_grow<F: Fpu>(f: &F) -> bool {
    &&& forall|x: u32, e: u32|
        !float_bits::is_nan(x) && rounding::value(x) <= 0 && #[trigger] fpu::exps(f, x, e) ==> float_bits::is_finite(e) && 0
            <= rounding::value(e) <= rounding::unit() && (rounding::value(x) == 0 ==> rounding::value(e) == rounding::unit())
    &&& forall|x: u32, y: u32, e: u32, g: u32|
        #![trigger fpu::exps(f, x, e), fpu::exps(f, y, g)]
        !float_bits::is_nan(x) && !float_bits::is_nan(y) && rounding::value(x) <= rounding::value(y) && rounding::value(y) <= 0
            && fpu::exps(f, x, e) && fpu::exps(f, y, g) ==> rounding::value(e) <= rounding::value(g)
}

/// Sums of numbers from zero to one, each no greater than another, are in order.
#[verifier::rlimit(40)]
proof fn lemma_sums_in_order<F: Fpu>(f: &F, rd: spec_fn(int, int) -> int, a: Seq<u32>, b: Seq<u32>, s: u32, t: u32)
    requires
        rounding::rounds_by(f, rd),
        a.len() == b.len(),
        a.len() < 0x100_0000,
        forall|j: int|
            0 <= j < a.len() ==> float_bits::is_finite(#[trigger] a[j]) && float_bits::is_finite(b[j]) && 0 <= rounding::value(
                a[j],
            ) <= rounding::value(b[j]) <= rounding::unit(),
        rows::left_sum(f, fpu::ZERO, a, s),
        rows::left_sum(f, fpu::ZERO, b, t),
    ensures
        float_bits::is_finite(s),
        float_bits::is_finite(t),
        0 <= rounding::value(s) <= rounding::value(t) <= a.len() * rounding::unit(),
        forall|j: int| 0 <= j < a.len() ==> rounding::value(#[trigger] a[j]) <= rounding::value(s),
    decreases a.len(),
{
    let u = rounding::unit();
    rounding::lemma_constants();
    if a.len() == 0 {
        assert(0 * u == 0) by (nonlinear_arith);
    } else {
        let (c, d) = (a.drop_last(), b.drop_last());
        let k = a.len() - 1;
        let m = choose|m: u32| rows::left_sum(f, fpu::ZERO, c, m) && #[trigger] fpu::adds(f, m, a.last(), s);
        let n = choose|m: u32| rows::left_sum(f, fpu::ZERO, d, m) && #[trigger] fpu::adds(f, m, b.last(), t);
        assert forall|j: int| 0 <= j < c.len() implies float_bits::is_finite(#[trigger] c[j]) && float_bits::is_finite(d[j])
            && 0 <= rounding::value(c[j]) <= rounding::value(d[j]) <= u by {
            assert(c[j] == a[j] && d[j] == b[j]);
        }
        lemma_sums_in_order(f, rd, c, d, m, n);
        assert(a.last() == a[k] && b.last() == b[k]);
        let top = rounding::lemma_count_is_number(a.len());
        assert((k + 1) * u == k * u + u) by (nonlinear_arith);
        let (x, y) = (rounding::value(m) + rounding::value(a[k]), rounding::value(n) + rounding::value(b[k]));
        rounding::lemma_rounds_in_order(rd, x, 1, y, 1);
        rounding::lemma_rounds_to_side(rd, y, 1, top);
        rounding::lemma_rounds_to_side(rd, x, 1, fpu::ZERO);
        rounding::lemma_rounds_to_side(rd, x, 1, m);
        rounding::lemma_rounds_to_side(rd, x, 1, a[k]);
        rounding::lemma_finite_between(fpu::ZERO, s, top);
        rounding::lemma_finite_between(fpu::ZERO, t, top);
        assert forall|j: int| 0 <= j < a.len() implies rounding::value(#[trigger] a[j]) <= rounding::value(s) by {
            if j < k {
                assert(c[j] == a[j]);
            }
        }
    }
}

/// The probability of the best of scaled scores, and the exponentials it comes of.
#[verifier::rlimit(40)]
proof fn lemma_best_share<F: Fpu>(
    f: &F,
    rd: spec_fn(int, int) -> int,
    xs: Seq<u32>,
    es: Seq<u32>,
    total: u32,
    inv: u32,
    ps: Seq<u32>,
    best: int,
)
    requires
        rounding::rounds_by(f, rd),
        exponentials_grow(f),
        0 <= best < xs.len() < 0x100_0000,
        forall|j: int| 0 <= j < xs.len() ==> float_bits::is_finite(#[trigger] xs[j]),
        forall|j: int| 0 <= j < xs.len() ==> rounding::value(#[trigger] xs[j]) <= rounding::value(xs[best]),
        rows::exponentials(f, xs, es, total),
        sampling::inverse_of_sum(f, total, inv),
        rows::scaled_by(f, es, inv, ps),
    ensures
        rounding::value(rows::row_max(xs)) == rounding::value(xs[best]),
        float_bits::is_finite(rows::row_max(xs)),
        forall|j: int|
            0 <= j < es.len() ==> float_bits::is_finite(#[trigger] es[j]) && 0 <= rounding::value(es[j]) <= rounding::unit(),
        float_bits::is_finite(total),
        rounding::unit() <= rounding::value(total) <= xs.len() * rounding::unit(),
        float_bits::is_finite(ps[best]),
        rounding::value(ps[best]) == rd(
            rounding::unit() * rounding::unit(),
            rd(rounding::value(total) + rounding::value(SUM_FLOOR), 1),
        ),
        rd(rounding::value(total) + rounding::value(SUM_FLOOR), 1) > 0,
{
    let u = rounding::unit();
    rounding::lemma_constants();
    lemma_drawing_constants();
    let m = rows::row_max(xs);
    let k = shares::lemma_greatest(xs);
    assert(float_bits::at_most(xs[best], m));
    rounding::lemma_finite_is_number(xs[best]);
    rounding::lemma_finite_is_number(m);
    rounding::lemma_values_order(xs[best], m);
    assert(rounding::value(xs[k]) <= rounding::value(xs[best]));
    assert forall|j: int| 0 <= j < es.len() implies float_bits::is_finite(#[trigger] es[j]) && 0 <= rounding::value(es[j]) <= u
        && (j == best ==> rounding::value(es[j]) == u) by {
        assert(rows::shifted_exp(f, xs[j], m, es[j]));
        let d = choose|d: u32| fpu::subs(f, xs[j], m, d) && #[trigger] fpu::exps(f, d, es[j]);
        assert(rounding::value(xs[j]) <= rounding::value(xs[best]));
        rounding::lemma_rounds_to_side(rd, rounding::value(xs[j]) - rounding::value(m), 1, fpu::ZERO);
    }
    lemma_sums_in_order(f, rd, es, es, total, total);
    assert(rounding::value(es[best]) <= rounding::value(total));
    let d = choose|d: u32| fpu::adds(f, total, SUM_FLOOR, d) && #[trigger] fpu::divs(f, fpu::ONE, d, inv);
    let n = rounding::value(total) + rounding::value(SUM_FLOOR);
    assert(xs.len() * u + u == (xs.len() + 1) * u) by (nonlinear_arith);
    rounding::lemma_rounds_to_side(rd, n, 1, fpu::ONE);
    let top = lemma_power_above(xs.len());
    rounding::lemma_rounds_to_side(rd, n, 1, top);
    rounding::lemma_finite_between(fpu::ONE, d, top);
    let vd = rounding::value(d);
    assert(0 * vd <= u * u && u * u <= u * vd) by (nonlinear_arith)
        requires
            0 < u <= vd,
    ;
    rounding::lemma_rounds_to_side(rd, u * u, vd, fpu::ONE);
    rounding::lemma_rounds_to_side(rd, u * u, vd, fpu::ZERO);
    rounding::lemma_finite_between(fpu::ZERO, inv, fpu::ONE);
    let vi = rounding::value(inv);
    assert(u * vi == vi * u) by (nonlinear_arith);
    assert(fpu::muls(f, es[best], inv, ps[best]));
    rounding::lemma_rounds_to_side(rd, u * vi, u, inv);
    rounding::lemma_finite_between(inv, ps[best], inv);
}

/// A number above a count and one more.
proof fn lemma_power_above(n: nat) -> (p: u32)
    requires
        n < 0x100_0000,
    ensures
        float_bits::is_finite(p),
        rounding::value(p) >= n * rounding::unit() + rounding::unit(),
{
    let u = rounding::unit();
    rounding::lemma_constants();
    let p = 0x4b80_0000u32;
    vstd::arithmetic::power2::lemma2_to64();
    vstd::arithmetic::power2::lemma_pow2_unfold(150);
    assert(0x4b80_0000u32 / 0x80_0000u32 == 151);
    assert(float_bits::scaled_magnitude(p) == 0x80_0000nat * vstd::arithmetic::power2::pow2(150));
    assert(n * u + u <= 0x100_0000 * u) by (nonlinear_arith)
        requires
            n + 1 <= 0x100_0000,
            u > 0,
    ;
    p
}

/// A lower temperature sharpens: for the same scores the probability of the best token does not
/// fall when the temperature falls. The tokens are drawn with the probabilities `r.0` at the
/// lower temperature and `r.1` at the higher one. Scores over the temperatures are numbers.
#[verifier::rlimit(40)]
pub proof fn law_lower_temperature_sharpens<F: Fpu>(
    f: &F,
    rd: spec_fn(int, int) -> int,
    low: SamplingConfig,
    high: SamplingConfig,
    logits: Seq<u32>,
    recent: Seq<usize>,
    draw: u32,
    x: Result<usize, SampleError>,
    y: Result<usize, SampleError>,
    best: int,
) -> (r: (Seq<u32>, Seq<u32>))
    requires
        rounding::rounds_by(f, rd),
        exponentials_grow(f),
        !float_bits::above(low.repetition_penalty, fpu::ONE),
        !float_bits::above(high.repetition_penalty, fpu::ONE),
        !sampling::is_greedy(low.temperature),
        !sampling::is_greedy(high.temperature),
        float_bits::is_finite(low.temperature) && float_bits::is_finite(high.temperature),
        0 < rounding::value(low.temperature) <= rounding::value(high.temperature),
        0 <= best < logits.len() < 0x100_0000,
        forall|j: int| 0 <= j < logits.len() ==> spreads(#[trigger] logits[j], low.temperature),
        forall|j: int| 0 <= j < logits.len() ==> spreads(#[trigger] logits[j], high.temperature),
        forall|j: int|
            0 <= j < logits.len() ==> rounding::is_number(
                rounding::value(#[trigger] logits[j]) * rounding::unit(),
                rounding::value(low.temperature),
            ),
        forall|j: int|
            0 <= j < logits.len() ==> rounding::is_number(
                rounding::value(#[trigger] logits[j]) * rounding::unit(),
                rounding::value(high.temperature),
            ),
        forall|j: int| 0 <= j < logits.len() ==> rounding::value(#[trigger] logits[j]) <= rounding::value(logits[best]),
        sampling::sampled(f, low, logits, recent, draw, x),
        sampling::sampled(f, high, logits, recent, draw, y),
    ensures
        sampling::drawn(f, r.0, low.top_p, draw, x),
        sampling::drawn(f, r.1, high.top_p, draw, y),
        r.0.len() == logits.len(),
        r.1.len() == logits.len(),
        rounding::value(r.0[best]) >= rounding::value(r.1[best]),
{
    let u = rounding::unit();
    rounding::lemma_constants();
    lemma_drawing_constants();
    let (s, t) = (low.temperature, high.temperature);
    let (x1, p1) = choose|scaled: Seq<u32>, probs: Seq<u32>|
        sampling::quotients(f, logits, s, scaled) && #[trigger] sampling::is_distribution(f, scaled, probs) && sampling::drawn(
            f,
            probs,
            low.top_p,
            draw,
            x,
        );
    let (x2, p2) = choose|scaled: Seq<u32>, probs: Seq<u32>|
        sampling::quotients(f, logits, t, scaled) && #[trigger] sampling::is_distribution(f, scaled, probs) && sampling::drawn(
            f,
            probs,
            high.top_p,
            draw,
            y,
        );
    let (vs, vt) = (rounding::value(s), rounding::value(t));
    assert forall|j: int| 0 <= j < x1.len() implies float_bits::is_finite(#[trigger] x1[j]) && rounding::value(x1[j]) * vs
        == rounding::value(logits[j]) * u by {
        assert(fpu::divs(f, logits[j], s, x1[j]));
        assert(spreads(logits[j], s));
        lemma_scaled(f, rd, logits[j], s, x1[j]);
        rounding::lemma_finite_is_number(x1[j]);
        rounding::lemma_number_stays(rd, rounding::value(logits[j]) * u, vs, x1[j]);
    }
    assert forall|j: int| 0 <= j < x2.len() implies float_bits::is_finite(#[trigger] x2[j]) && rounding::value(x2[j]) * vt
        == rounding::value(logits[j]) * u by {
        assert(fpu::divs(f, logits[j], t, x2[j]));
        assert(spreads(logits[j], t));
        lemma_scaled(f, rd, logits[j], t, x2[j]);
        rounding::lemma_finite_is_number(x2[j]);
        rounding::lemma_number_stays(rd, rounding::value(logits[j]) * u, vt, x2[j]);
    }
    assert forall|j: int| 0 <= j < logits.len() implies rounding::value(#[trigger] x1[j]) <= rounding::value(x1[best])
        && rounding::value(x2[j]) <= rounding::value(x2[best]) && rounding::value(x1[j]) - rounding::value(x1[best])
        <= rounding::value(x2[j]) - rounding::value(x2[best]) by {
        assert(rounding::value(x2[j]) * vt == rounding::value(logits[j]) * u);
        assert(rounding::value(x2[best]) * vt == rounding::value(logits[best]) * u);
        lemma_gap(
            rounding::value(logits[j]),
            rounding::value(logits[best]),
            u,
            vs,
            vt,
            rounding::value(x1[j]),
            rounding::value(x1[best]),
            rounding::value(x2[j]),
            rounding::value(x2[best]),
        );
    }
    assert forall|j: int| 0 <= j < x2.len() implies rounding::value(#[trigger] x2[j]) <= rounding::value(x2[best]) by {
        assert(rounding::value(x1[j]) <= rounding::value(x1[best]));
    }
    let (e1, t1, i1) = choose|es: Seq<u32>, total: u32, inv: u32|
        #[trigger] rows::exponentials(f, x1, es, total) && #[trigger] sampling::inverse_of_sum(f, total, inv) && rows::scaled_by(
            f,
            es,
            inv,
            p1,
        );
    let (e2, t2, i2) = choose|es: Seq<u32>, total: u32, inv: u32|
        #[trigger] rows::exponentials(f, x2, es, total) && #[trigger] sampling::inverse_of_sum(f, total, inv) && rows::scaled_by(
            f,
            es,
            inv,
            p2,
        );
    lemma_best_share(f, rd, x1, e1, t1, i1, p1, best);
    lemma_best_share(f, rd, x2, e2, t2, i2, p2, best);
    assert forall|j: int| 0 <= j < e1.len() implies float_bits::is_finite(#[trigger] e1[j]) && float_bits::is_finite(e2[j]) && 0
        <= rounding::value(e1[j]) <= rounding::value(e2[j]) <= u by {
        let (m, n) = (rows::row_max(x1), rows::row_max(x2));
        assert(rows::shifted_exp(f, x1[j], m, e1[j]));
        assert(rows::shifted_exp(f, x2[j], n, e2[j]));
        let d1 = choose|d: u32| fpu::subs(f, x1[j], m, d) && #[trigger] fpu::exps(f, d, e1[j]);
        let d2 = choose|d: u32| fpu::subs(f, x2[j], n, d) && #[trigger] fpu::exps(f, d, e2[j]);
        let (a, b) = (rounding::value(x1[j]) - rounding::value(m), rounding::value(x2[j]) - rounding::value(n));
        rounding::lemma_rounds_in_order(rd, a, 1, b, 1);
        rounding::lemma_rounds_to_side(rd, b, 1, fpu::ZERO);
        assert(float_bits::is_finite(e2[j]));
    }
    lemma_sums_in_order(f, rd, e1, e2, t1, t2);
    let (n1, n2) = (
        rounding::value(t1) + rounding::value(SUM_FLOOR),
        rounding::value(t2) + rounding::value(SUM_FLOOR),
    );
    rounding::lemma_rounds_in_order(rd, n1, 1, n2, 1);
    let (d1, d2) = (rd(n1, 1), rd(n2, 1));
    assert((u * u) * d1 <= (u * u) * d2) by (nonlinear_arith)
        requires
            d1 <= d2,
    ;
    rounding::lemma_rounds_in_order(rd, u * u, d2, u * u, d1);
    (p1, p2)
}

/// The gap between two scores is greater in units of a lower temperature.
#[verifier::rlimit(40)]
proof fn lemma_gap(x: int, b: int, u: int, s: int, t: int, xs: int, bs: int, xt: int, bt: int)
    requires
        x <= b,
        u > 0,
        0 < s <= t,
        xs * s == x * u,
        bs * s == b * u,
        xt * t == x * u,
        bt * t == b * u,
    ensures
        xs <= bs,
        xt <= bt,
        xs - bs <= xt - bt,
{
    assert(x * u <= b * u) by (nonlinear_arith)
        requires
            x <= b,
            u > 0,
    ;
    let (g, h) = (bs - xs, bt - xt);
    assert(g * s == bs * s - xs * s) by (nonlinear_arith)
        requires
            g == bs - xs,
    ;
    assert(h * t == bt * t - xt * t) by (nonlinear_arith)
        requires
            h == bt - xt,
    ;
    assert(g >= 0) by (nonlinear_arith)
        requires
            g * s >= 0,
            s > 0,
    ;
    assert(h >= 0) by (nonlinear_arith)
        requires
            h * t >= 0,
            t > 0,
    ;
    assert(g >= h) by (nonlinear_arith)
        requires
            g * s == h * t,
            0 < s <= t,
            h >= 0,
    ;
}

/// A penalty above one makes the scores of recent tokens smaller: it moves them towards zero
/// and not beyond it, and leaves all others alone. The token is then the one that would be
/// taken without a penalty from the scores `r`.
pub proof fn law_penalty_shrinks_recent_scores<F: Fpu>(
    f: &F,
    rd: spec_fn(int, int) -> int,
    c: SamplingConfig,
    logits: Seq<u32>,
    recent: Seq<usize>,
    draw: u32,
    x: Result<usize, SampleError>,
) -> (r: Seq<u32>)
    requires
        rounding::rounds_by(f, rd),
        float_bits::above(c.repetition_penalty, fpu::ONE),
        float_bits::is_finite(c.repetition_penalty),
        forall|j: int| 0 <= j < logits.len() ==> float_bits::is_finite(#[trigger] logits[j]),
        sampling::sampled(f, c, logits, recent, draw, x),
    ensures
        r.len() == logits.len(),
        sampling::sampled(f, SamplingConfig { repetition_penalty: fpu::ONE, ..c }, r, recent, draw, x),
        forall|j: int|
            0 <= j < r.len() ==> float_bits::is_finite(#[trigger] r[j]) && shrinks(
                rounding::value(logits[j]),
                rounding::value(r[j]),
            ),
        forall|j: int| 0 <= j < r.len() && !recent.contains(j as usize) && j <= usize::MAX ==> #[trigger] r[j] == logits[j],
        forall|j: int|
            0 <= j < r.len() && j <= usize::MAX && occurs_once(recent, j as usize) ==> rounding::value(#[trigger] r[j]) == rd(
                rounding::value(logits[j]) * rounding::unit(),
                rounding::value(c.repetition_penalty),
            ),
{
    let scores = choose|scores: Seq<u32>| #[trigger]
        sampling::adjusted(f, c, logits, recent, scores) && if sampling::is_greedy(c.temperature) {
            x matches Ok(token) && matvec::is_first_best(scores, fpu::NEG_INFINITY, token as int)
        } else {
            sampling::spread_and_drawn(f, scores, c, draw, x)
        };
    let plain = SamplingConfig { repetition_penalty: fpu::ONE, ..c };
    assert(!float_bits::above(fpu::ONE, fpu::ONE));
    assert(sampling::adjusted(f, plain, scores, recent, scores));
    if !sampling::is_greedy(c.temperature) {
        let (scaled, probs) = choose|scaled: Seq<u32>, probs: Seq<u32>|
            sampling::quotients(f, scores, c.temperature, scaled) && #[trigger] sampling::is_distribution(f, scaled, probs)
                && sampling::drawn(f, probs, c.top_p, draw, x);
        assert(sampling::spread_and_drawn(f, scores, plain, draw, x));
    }
    assert forall|j: int| 0 <= j < logits.len() implies scores.len() == logits.len() && float_bits::is_finite(#[trigger] scores[j])
        && shrinks(rounding::value(logits[j]), rounding::value(scores[j])) && (j <= usize::MAX ==> (!recent.contains(j as usize)
        ==> scores[j] == logits[j]) && (occurs_once(recent, j as usize) ==> rounding::value(scores[j]) == rd(
        rounding::value(logits[j]) * rounding::unit(),
        rounding::value(c.repetition_penalty),
    ))) by {
        lemma_penalized(f, rd, logits, recent, c.repetition_penalty, scores, j);
    }
    lemma_penalized_length(f, logits, recent, c.repetition_penalty, scores);
    scores
}

/// A number lies between zero and another.
pub open spec fn shrinks(x: int, y: int) -> bool {
    0 <= y <= x || x <= y <= 0
}

/// A token occurs at one place.
pub open spec fn occurs_once(s: Seq<usize>, t: usize) -> bool {
    exists|k: int| 0 <= k < s.len() && #[trigger] s[k] == t && forall|j: int| 0 <= j < s.len() && j != k ==> #[trigger] s[j] != t
}

proof fn lemma_penalized_length<F: Fpu>(f: &F, logits: Seq<u32>, recent: Seq<usize>, penalty: u32, r: Seq<u32>)
    requires
        sampling::penalized(f, logits, recent, penalty, r),
    ensures
        r.len() == logits.len(),
    decreases recent.len(),
{
    if recent.len() > 0 {
        let m = choose|m: Seq<u32>|
            sampling::penalized(f, logits, recent.drop_last(), penalty, m) && #[trigger] sampling::penalized_once(
                f,
                m,
                recent.last(),
                penalty,
                r,
            );
        lemma_penalized_length(f, logits, recent.drop_last(), penalty, m);
    }
}

#[verifier::rlimit(40)]
proof fn lemma_penalized<F: Fpu>(
    f: &F,
    rd: spec_fn(int, int) -> int,
    logits: Seq<u32>,
    recent: Seq<usize>,
    penalty: u32,
    r: Seq<u32>,
    j: int,
)
    requires
        rounding::rounds_by(f, rd),
        float_bits::above(penalty, fpu::ONE),
        float_bits::is_finite(penalty),
        forall|j: int| 0 <= j < logits.len() ==> float_bits::is_finite(#[trigger] logits[j]),
        sampling::penalized(f, logits, recent, penalty, r),
        0 <= j < logits.len(),
    ensures
        r.len() == logits.len(),
        float_bits::is_finite(r[j]),
        shrinks(rounding::value(logits[j]), rounding::value(r[j])),
        j <= usize::MAX && !recent.contains(j as usize) ==> r[j] == logits[j],
        j <= usize::MAX && occurs_once(recent, j as usize) ==> rounding::value(r[j]) == rd(
            rounding::value(logits[j]) * rounding::unit(),
            rounding::value(penalty),
        ),
    decreases recent.len(),
{
    rounding::lemma_constants();
    let u = rounding::unit();
    if recent.len() == 0 {
        assert(float_bits::is_finite(logits[j]));
        assert(!recent.contains(j as usize));
    } else {
        let before = recent.drop_last();
        let k = recent.len() - 1;
        let m = choose|m: Seq<u32>|
            sampling::penalized(f, logits, before, penalty, m) && #[trigger] sampling::penalized_once(
                f,
                m,
                recent.last(),
                penalty,
                r,
            );
        lemma_penalized(f, rd, logits, before, penalty, m, j);
        assert(recent.last() == recent[k]);
        assert forall|i: int| 0 <= i < before.len() implies #[trigger] before[i] == recent[i] by {}
        rounding::lemma_finite_is_number(penalty);
        rounding::lemma_values_order(penalty, fpu::ONE);
        let (v, p) = (rounding::value(m[j]), rounding::value(penalty));
        if recent[k] == j {
            assert(fpu::divs(f, m[j], penalty, r[j]));
            let (lo, hi) = if v <= 0 {
                (m[j], fpu::ZERO)
            } else {
                (fpu::ZERO, m[j])
            };
            assert(rounding::value(lo) * p <= v * u <= rounding::value(hi) * p) by (nonlinear_arith)
                requires
                    p > u > 0,
                    v <= 0 ==> rounding::value(lo) == v && rounding::value(hi) == 0,
                    v > 0 ==> rounding::value(lo) == 0 && rounding::value(hi) == v,
            ;
            rounding::lemma_rounds_to_side(rd, v * u, p, lo);
            rounding::lemma_rounds_to_side(rd, v * u, p, hi);
            rounding::lemma_finite_between(lo, r[j], hi);
            assert(recent.contains(j as usize));
            if occurs_once(recent, j as usize) {
                assert(!before.contains(j as usize)) by {
                    if before.contains(j as usize) {
                        let i = choose|i: int| 0 <= i < before.len() && before[i] == j as usize;
                        let w = choose|w: int|
                            0 <= w < recent.len() && #[trigger] recent[w] == j as usize && forall|i: int|
                                0 <= i < recent.len() && i != w ==> #[trigger] recent[i] != j as usize;
                        assert(recent[i] == j as usize && recent[k] == j as usize);
                    }
                }
            }
        } else {
            assert(r[j] == m[j]);
            if j <= usize::MAX {
                if before.contains(j as usize) {
                    let i = choose|i: int| 0 <= i < before.len() && before[i] == j as usize;
                    assert(recent[i] == j as usize);
                }
                if occurs_once(recent, j as usize) {
                    let w = choose|w: int|
                        0 <= w < recent.len() && #[trigger] recent[w] == j as usize && forall|i: int|
                            0 <= i < recent.len() && i != w ==> #[trigger] recent[i] != j as usize;
                    assert(w != k);
                    assert(before[w] == j as usize);
                    assert(occurs_once(before, j as usize));
                }
            }
        }
    }
}

/// The numbers on the way from probabilities to a token.
pub struct Drawn {
    pub share: u32,
    pub order: Seq<usize>,
    pub sums: Seq<u32>,
    pub shares: Seq<u32>,
    pub accs: Seq<u32>,
    pub place: int,
}

/// How a draw falls on a token: the tokens stand by their probabilities, the most likely first
/// and the lower of two that are equally likely; as few of them as together have the share
/// `top_p`, which is brought between a millionth and one, are left; and the token is the first
/// at which the sum of the portions of these reaches the draw, or the last of them.
pub open spec fn falls_in_order(rd: spec_fn(int, int) -> int, probs: Seq<u32>, top_p: u32, draw: u32, token: usize, d: Drawn) -> bool {
    let n = probs.len() as int;
    let cut = d.sums.len() - 1;
    let least = rounding::value(LEAST_SHARE);
    &&& constants::is_nearest(LEAST_SHARE, 1, 1_000_000)
    &&& rounding::value(d.share) == (if rounding::value(top_p) <= least {
        least
    } else if rounding::value(top_p) >= rounding::unit() {
        rounding::unit()
    } else {
        rounding::value(top_p)
    })
    &&& d.order.len() == n
    &&& forall|t: usize| t < n ==> #[trigger] d.order.contains(t)
    &&& forall|i: int| 0 <= i < n ==> #[trigger] d.order[i] < n
    &&& forall|i: int, j: int|
        0 <= i < j < n ==> rounding::value(probs[#[trigger] d.order[i] as int]) > rounding::value(
            probs[#[trigger] d.order[j] as int],
        ) || (rounding::value(probs[d.order[i] as int]) == rounding::value(probs[d.order[j] as int]) && d.order[i] < d.order[j])
    &&& 1 <= cut <= n
    &&& d.sums[0] == fpu::ZERO
    &&& forall|k: int| 0 <= k < cut ==> #[trigger] sums_on(rd, d.sums, k, probs[d.order[k] as int])
    &&& forall|k: int|
        0 < k < cut && !float_bits::is_nan(#[trigger] d.sums[k]) ==> rounding::value(d.sums[k]) < rounding::value(d.share)
    &&& cut == n || (!float_bits::is_nan(d.sums[cut]) && rounding::value(d.share) <= rounding::value(d.sums[cut]))
    &&& 0 <= d.place < cut
    &&& d.accs.len() == d.place + 2
    &&& d.shares.len() == d.place + 1
    &&& d.accs[0] == fpu::ZERO
    &&& forall|k: int|
        0 <= k <= d.place ==> rounding::is_quotient(rd, probs[d.order[k] as int], d.sums[cut], #[trigger] d.shares[k])
    &&& forall|k: int| 0 <= k <= d.place ==> #[trigger] sums_on(rd, d.accs, k, d.shares[k])
    &&& forall|k: int|
        0 < k <= d.place && !float_bits::is_nan(#[trigger] d.accs[k]) ==> rounding::value(d.accs[k]) < rounding::value(draw)
    &&& d.place == cut - 1 || (!float_bits::is_nan(d.accs[d.place + 1]) && rounding::value(draw) <= rounding::value(
        d.accs[d.place + 1],
    ))
    &&& token == d.order[d.place]
}

/// A sum is followed by itself and one more summand.
pub open spec fn sums_on(rd: spec_fn(int, int) -> int, sums: Seq<u32>, k: int, x: u32) -> bool {
    rounding::is_sum(rd, sums[k], x, sums[k + 1])
}

/// A draw from a distribution of numbers falls on a token as it should.
#[verifier::rlimit(40)]
pub proof fn law_draws_fall_in_order<F: Fpu>(
    f: &F,
    rd: spec_fn(int, int) -> int,
    probs: Seq<u32>,
    top_p: u32,
    draw: u32,
    token: usize,
) -> (d: Drawn)
    requires
        rounding::rounds_by(f, rd),
        probs.len() > 0,
        forall|j: int| 0 <= j < probs.len() ==> !float_bits::is_nan(#[trigger] probs[j]),
        !float_bits::is_nan(top_p),
        !float_bits::is_nan(draw),
        sampling::drawn(f, probs, top_p, draw, Ok(token)),
    ensures
        falls_in_order(rd, probs, top_p, draw, token, d),
{
    constants::law_constants_are_nearest();
    lemma_drawing_constants();
    rounding::lemma_constants();
    let share = sampling::wanted_share(top_p);
    lemma_share(top_p);
    let (order, sums, accs) = choose|order: Seq<usize>, sums: Seq<u32>, accs: Seq<u32>|
        sampling::is_ranking(probs, 0, probs.len() as int, order) && #[trigger] sampling::is_nucleus(f, probs, order, share, sums)
            && #[trigger] sampling::falls_on(f, probs, order, sums.len() - 1, sums.last(), draw, accs, token);
    let n = probs.len() as int;
    let cut = sums.len() - 1;
    let place = accs.len() - 2;
    assert(sums.last() == sums[cut]);
    assert forall|t: usize| t < n implies #[trigger] order.contains(t) by {
        sampling::law_ranking_is_complete(probs, order, t);
    }
    assert forall|i: int, j: int| 0 <= i < j < n implies rounding::value(probs[#[trigger] order[i] as int]) > rounding::value(
        probs[#[trigger] order[j] as int],
    ) || (rounding::value(probs[order[i] as int]) == rounding::value(probs[order[j] as int]) && order[i] < order[j]) by {
        assert(sampling::ranks_before(probs, order[i] as int, order[j] as int));
        rounding::lemma_values_order(probs[order[i] as int], probs[order[j] as int]);
    }
    assert forall|k: int| 0 <= k < cut implies #[trigger] sums_on(rd, sums, k, probs[order[k] as int]) by {
        assert(fpu::adds(f, sums[k], probs[order[k] as int], sums[k + 1]));
    }
    assert forall|k: int| 0 < k < cut && !float_bits::is_nan(#[trigger] sums[k]) implies rounding::value(sums[k])
        < rounding::value(share) by {
        assert(!float_bits::at_most(share, sums[k]));
        rounding::lemma_values_order(share, sums[k]);
    }
    if cut != n {
        rounding::lemma_values_order(share, sums[cut]);
    }
    let shares = Seq::new(
        (place + 1) as nat,
        |k: int|
            choose|q: u32| fpu::divs(f, probs[order[k] as int], sums[cut], q) && #[trigger] fpu::adds(f, accs[k], q, accs[k + 1]),
    );
    assert forall|k: int| 0 <= k <= place implies fpu::divs(f, probs[order[k] as int], sums[cut], #[trigger] shares[k]) && fpu::adds(
        f,
        accs[k],
        shares[k],
        accs[k + 1],
    ) by {
        assert(sampling::share_added(f, accs[k], probs[order[k] as int], sums[cut], accs[k + 1]));
        let q = choose|q: u32|
            fpu::divs(f, probs[order[k] as int], sums[cut], q) && #[trigger] fpu::adds(f, accs[k], q, accs[k + 1]);
        assert(shares[k] == q);
    }
    assert forall|k: int| 0 <= k <= place implies #[trigger] sums_on(rd, accs, k, shares[k]) by {
        assert(fpu::adds(f, accs[k], shares[k], accs[k + 1]));
    }
    assert forall|k: int| 0 < k <= place && !float_bits::is_nan(#[trigger] accs[k]) implies rounding::value(accs[k])
        < rounding::value(draw) by {
        assert(!float_bits::at_most(draw, accs[k]));
        rounding::lemma_values_order(draw, accs[k]);
    }
    if place != cut - 1 {
        rounding::lemma_values_order(draw, accs[place + 1]);
    }
    Drawn { share, order, sums, shares, accs, place }
}

/// The share that tokens are drawn from, as a number.
proof fn lemma_share(top_p: u32)
    requires
        !float_bits::is_nan(top_p),
    ensures
        !float_bits::is_nan(sampling::wanted_share(top_p)),
        rounding::value(sampling::wanted_share(top_p)) == (if rounding::value(top_p) <= rounding::value(LEAST_SHARE) {
            rounding::value(LEAST_SHARE)
        } else if rounding::value(top_p) >= rounding::unit() {
            rounding::unit()
        } else {
            rounding::value(top_p)
        }),
{
    rounding::lemma_constants();
    rounding::lemma_finite_is_number(fpu::ZERO);
    rounding::lemma_finite_is_number(fpu::ONE);
    assert(!float_bits::is_nan(LEAST_SHARE));
    rounding::lemma_values_order(fpu::ZERO, top_p);
    rounding::lemma_values_order(top_p, fpu::ONE);
    rounding::lemma_values_order(top_p, LEAST_SHARE);
    rounding::lemma_values_order(fpu::ZERO, LEAST_SHARE);
    rounding::lemma_values_order(fpu::ONE, LEAST_SHARE);
}

/// The numbers on the way from scores to probabilities.
pub struct Likely {
    pub scaled: Seq<u32>,
    pub portions: portions::Portions,
    pub raised: u32,
    pub inverse: u32,
    pub probs: Seq<u32>,
}

/// Scores become probabilities: each is divided by the temperature; its exponential, taken
/// from the greatest on, is divided by the sum of all, which is raised by a billionth; and the
/// token is drawn by these.
#[verifier::rlimit(40)]
pub proof fn law_scores_become_probabilities<F: Fpu>(
    f: &F,
    rd: spec_fn(int, int) -> int,
    c: SamplingConfig,
    logits: Seq<u32>,
    recent: Seq<usize>,
    draw: u32,
    r: Result<usize, SampleError>,
) -> (l: Likely)
    requires
        rounding::rounds_by(f, rd),
        !float_bits::above(c.repetition_penalty, fpu::ONE),
        !sampling::is_greedy(c.temperature),
        float_bits::is_finite(c.temperature),
        rounding::value(c.temperature) > 0,
        logits.len() > 0,
        forall|j: int| 0 <= j < logits.len() ==> spreads(#[trigger] logits[j], c.temperature),
        sampling::sampled(f, c, logits, recent, draw, r),
    ensures
        l.scaled.len() == logits.len(),
        forall|j: int| 0 <= j < logits.len() ==> rounding::is_quotient(rd, logits[j], c.temperature, #[trigger] l.scaled[j]),
        portions::weighs(f, rd, l.scaled, l.portions),
        rounding::is_sum(rd, l.portions.sums.last(), SUM_FLOOR, l.raised),
        constants::is_nearest(SUM_FLOOR, 1, 1_000_000_000),
        rounding::is_quotient(rd, fpu::ONE, l.raised, l.inverse),
        l.probs.len() == logits.len(),
        forall|j: int|
            0 <= j < logits.len() ==> rounding::is_product(rd, l.portions.exponentials[j], l.inverse, #[trigger] l.probs[j]),
        sampling::drawn(f, l.probs, c.top_p, draw, r),
{
    constants::law_constants_are_nearest();
    rounding::lemma_constants();
    let t = c.temperature;
    let (scaled, probs) = choose|scaled: Seq<u32>, probs: Seq<u32>|
        sampling::quotients(f, logits, t, scaled) && #[trigger] sampling::is_distribution(f, scaled, probs) && sampling::drawn(
            f,
            probs,
            c.top_p,
            draw,
            r,
        );
    assert forall|j: int| 0 <= j < logits.len() implies float_bits::is_finite(#[trigger] scaled[j]) && rounding::is_quotient(
        rd,
        logits[j],
        t,
        scaled[j],
    ) by {
        assert(fpu::divs(f, logits[j], t, scaled[j]));
        assert(spreads(logits[j], t));
        lemma_scaled(f, rd, logits[j], t, scaled[j]);
    }
    let (es, total, inv) = choose|es: Seq<u32>, total: u32, inv: u32|
        #[trigger] rows::exponentials(f, scaled, es, total) && #[trigger] sampling::inverse_of_sum(f, total, inv)
            && rows::scaled_by(f, es, inv, probs);
    let raised = choose|d: u32| fpu::adds(f, total, SUM_FLOOR, d) && #[trigger] fpu::divs(f, fpu::ONE, d, inv);
    let p = portions::lemma_weighs(f, rd, scaled, es, total);
    assert forall|j: int| 0 <= j < logits.len() implies rounding::is_product(rd, es[j], inv, #[trigger] probs[j]) by {
        assert(fpu::muls(f, es[j], inv, probs[j]));
    }
    Likely { scaled, portions: p, raised, inverse: inv, probs }
}

/// At a temperature of a hundred thousandth or less, the token with the greatest score is
/// taken; of several, the lowest.
pub proof fn law_greatest_score_is_taken<F: Fpu>(
    f: &F,
    c: SamplingConfig,
    logits: Seq<u32>,
    recent: Seq<usize>,
    draw: u32,
    token: usize,
    j: int,
)
    requires
        !float_bits::above(c.repetition_penalty, fpu::ONE),
        !float_bits::is_nan(c.temperature),
        rounding::value(c.temperature) <= rounding::value(sampling::GREEDY_LIMIT),
        forall|j: int| 0 <= j < logits.len() ==> float_bits::is_finite(#[trigger] logits[j]),
        sampling::sampled(f, c, logits, recent, draw, Ok(token)),
        0 <= j < logits.len(),
    ensures
        token < logits.len(),
        rounding::value(logits[j]) <= rounding::value(logits[token as int]),
        j < token ==> rounding::value(logits[j]) < rounding::value(logits[token as int]),
        constants::is_nearest(sampling::GREEDY_LIMIT, 1, 100_000),
{
    constants::law_constants_are_nearest();
    rounding::lemma_values_order(c.temperature, sampling::GREEDY_LIMIT);
    assert(sampling::is_greedy(c.temperature));
    let best = token as int;
    assert(matvec::is_first_best(logits, fpu::NEG_INFINITY, best));
    assert(matvec::any_above(logits, fpu::NEG_INFINITY)) by {
        rounding::lemma_finite_is_number(logits[j]);
        rounding::lemma_finite_between_infinity(logits[j]);
        rounding::lemma_values_order(logits[j], fpu::NEG_INFINITY);
        assert(float_bits::above(logits[j], fpu::NEG_INFINITY));
    }
    rounding::lemma_finite_is_number(logits[j]);
    rounding::lemma_finite_is_number(logits[best]);
    rounding::lemma_values_order(logits[j], logits[best]);
    rounding::lemma_values_order(logits[best], logits[j]);
    assert(!float_bits::above(logits[j], logits[best]));
}

} // verus!
