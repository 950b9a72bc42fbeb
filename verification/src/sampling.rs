use crate::float_bits;
use crate::float_bits::{is_above, is_at_most};
use crate::fpu;
use crate::fpu::Fpu;
use crate::ops::matvec;
use crate::ops::rows;
use crate::ops::rows::exponentiate;
use vstd::prelude::*;
use vstd::slice::slice_to_vec;

verus! {

/// 1e-5: at this temperature and below, the most likely token is taken.
pub const GREEDY_LIMIT: u32 = 0x3727_c5ac;

/// 1e-9, which keeps a sum of exponentials away from zero.
pub const SUM_FLOOR: u32 = 0x3089_705f;

/// 1e-6: the least share of the probability that tokens are drawn from.
pub const LEAST_SHARE: u32 = 0x3586_37bd;

/// How tokens are drawn, with its three real numbers as single-precision bits.
#[derive(Clone, Copy, Debug, PartialEq, Eq, Structural)]
pub struct SamplingConfig {
    pub temperature: u32,
    pub top_p: u32,
    pub repetition_penalty: u32,
}

/// Why no token could be drawn.
#[derive(Clone, Copy, Debug, PartialEq, Eq, Structural)]
pub enum SampleError {
    NoTokens,
    /// Some of several probabilities is not a number.
    Unordered,
}

/// One use of the penalty.
pub open spec fn penalized_once<F: Fpu>(f: &F, before: Seq<u32>, token: usize, penalty: u32, after: Seq<u32>) -> bool {
    &&& after.len() == before.len()
    &&& if token < before.len() {
        &&& fpu::divs(f, before[token as int], penalty, after[token as int])
        &&& after == before.update(token as int, after[token as int])
    } else {
        after == before
    }
}

/// Each of the recent tokens makes its own score smaller, as often as it occurs.
pub open spec fn penalized<F: Fpu>(f: &F, logits: Seq<u32>, recent: Seq<usize>, penalty: u32, r: Seq<u32>) -> bool
    decreases recent.len(),
{
    if recent.len() == 0 {
        r == logits
    } else {
        exists|m: Seq<u32>|
            penalized(f, logits, recent.drop_last(), penalty, m) && #[trigger] penalized_once(
                f,
                m,
                recent.last(),
                penalty,
                r,
            )
    }
}

/// The scores that tokens are drawn by. A penalty of one or less has no effect.
pub open spec fn adjusted<F: Fpu>(f: &F, c: SamplingConfig, logits: Seq<u32>, recent: Seq<usize>, r: Seq<u32>) -> bool {
    if float_bits::above(c.repetition_penalty, fpu::ONE) {
        penalized(f, logits, recent, c.repetition_penalty, r)
    } else {
        r == logits
    }
}

/// The most likely token is taken.
pub open spec fn is_greedy(temperature: u32) -> bool {
    float_bits::at_most(temperature, GREEDY_LIMIT)
}

pub open spec fn quotients<F: Fpu>(f: &F, xs: Seq<u32>, d: u32, ys: Seq<u32>) -> bool {
    &&& ys.len() == xs.len()
    &&& forall|i: int| 0 <= i < xs.len() ==> fpu::divs(f, xs[i], d, #[trigger] ys[i])
}

/// `1 / (total + floor)`.
pub open spec fn inverse_of_sum<F: Fpu>(f: &F, total: u32, inv: u32) -> bool {
    exists|d: u32| fpu::adds(f, total, SUM_FLOOR, d) && #[trigger] fpu::divs(f, fpu::ONE, d, inv)
}

/// `probs` are the exponentials of the scaled scores, divided by their sum.
pub open spec fn is_distribution<F: Fpu>(f: &F, scaled: Seq<u32>, probs: Seq<u32>) -> bool {
    exists|es: Seq<u32>, total: u32, inv: u32|
        #[trigger] rows::exponentials(f, scaled, es, total) && #[trigger] inverse_of_sum(f, total, inv)
            && rows::scaled_by(f, es, inv, probs)
}

/// No probability is something other than a number.
pub open spec fn all_numbers(probs: Seq<u32>) -> bool {
    forall|i: int| 0 <= i < probs.len() ==> !float_bits::is_nan(#[trigger] probs[i])
}

/// Token `a` stands before token `b`: it is more likely, or as likely and lower.
pub open spec fn ranks_before(probs: Seq<u32>, a: int, b: int) -> bool {
    let x = float_bits::order_key(probs[a]);
    let y = float_bits::order_key(probs[b]);
    x > y || (x == y && a < b)
}

/// The tokens from `lo` to `hi`, the most likely first.
pub open spec fn is_ranking(probs: Seq<u32>, lo: int, hi: int, order: Seq<usize>) -> bool {
    &&& order.len() == hi - lo
    &&& forall|i: int| 0 <= i < order.len() ==> lo <= #[trigger] order[i] < hi
    &&& forall|i: int, j: int|
        0 <= i < j < order.len() ==> ranks_before(probs, #[trigger] order[i] as int, #[trigger] order[j] as int)
}

/// Two rankings in one.
fn merge(probs: &Vec<u32>, a: &Vec<usize>, b: &Vec<usize>, Ghost(lo): Ghost<int>, Ghost(mid): Ghost<int>, Ghost(hi): Ghost<int>) -> (r: Vec<usize>)
    requires
        0 <= lo <= mid <= hi <= probs@.len(),
        all_numbers(probs@),
        is_ranking(probs@, lo, mid, a@),
        is_ranking(probs@, mid, hi, b@),
    ensures
        is_ranking(probs@, lo, hi, r@),
{
    let mut r: Vec<usize> = Vec::with_capacity(0);
    let mut i: usize = 0;
    let mut j: usize = 0;
    while i < a.len() || j < b.len()
        invariant
            0 <= lo <= mid <= hi <= probs@.len(),
            all_numbers(probs@),
            is_ranking(probs@, lo, mid, a@),
            is_ranking(probs@, mid, hi, b@),
            i <= a@.len(),
            j <= b@.len(),
            r@.len() == i + j,
            forall|k: int| 0 <= k < r@.len() ==> lo <= #[trigger] r@[k] < hi,
            forall|k: int, l: int|
                0 <= k < l < r@.len() ==> ranks_before(probs@, #[trigger] r@[k] as int, #[trigger] r@[l] as int),
            forall|k: int, l: int|
                0 <= k < r@.len() && i <= l < a@.len() ==> ranks_before(
                    probs@,
                    #[trigger] r@[k] as int,
                    #[trigger] a@[l] as int,
                ),
            forall|k: int, l: int|
                0 <= k < r@.len() && j <= l < b@.len() ==> ranks_before(
                    probs@,
                    #[trigger] r@[k] as int,
                    #[trigger] b@[l] as int,
                ),
        decreases a@.len() - i + b@.len() - j,
    {
        if j == b.len() || (i < a.len() && !is_above(probs[b[j]], probs[a[i]])) {
            r.push(a[i]);
            i = i + 1;
        } else {
            r.push(b[j]);
            j = j + 1;
        }
    }
    r
}

/// The tokens from `lo` to `hi`, the most likely first and equally likely ones in
/// their own order.
fn rank(probs: &Vec<u32>, lo: usize, hi: usize) -> (order: Vec<usize>)
    requires
        lo <= hi <= probs@.len(),
        hi - lo > 1 ==> all_numbers(probs@),
    ensures
        is_ranking(probs@, lo as int, hi as int, order@),
    decreases hi - lo,
{
    if hi - lo == 0 {
        return Vec::new();
    }
    if hi - lo == 1 {
        let mut order: Vec<usize> = Vec::new();
        order.push(lo);
        return order;
    }
    let mid: usize = lo + (hi - lo) / 2;
    let a = rank(probs, lo, mid);
    let b = rank(probs, mid, hi);
    merge(probs, &a, &b, Ghost(lo as int), Ghost(mid as int), Ghost(hi as int))
}

/// The share of the probability that tokens are drawn from: between the least one and
/// one.
pub open spec fn wanted_share(top_p: u32) -> u32 {
    let clamped = if float_bits::above(fpu::ZERO, top_p) {
        fpu::ZERO
    } else if float_bits::above(top_p, fpu::ONE) {
        fpu::ONE
    } else {
        top_p
    };
    if float_bits::above(clamped, LEAST_SHARE) {
        clamped
    } else {
        LEAST_SHARE
    }
}

fn share_of(top_p: u32) -> (share: u32)
    ensures
        share == wanted_share(top_p),
{
    let clamped: u32 = if is_above(fpu::ZERO, top_p) {
        fpu::ZERO
    } else if is_above(top_p, fpu::ONE) {
        fpu::ONE
    } else {
        top_p
    };
    if is_above(clamped, LEAST_SHARE) {
        clamped
    } else {
        LEAST_SHARE
    }
}

/// The first tokens of a ranking, as few as have the share, or all of them. Behind each
/// of them stands the sum of the probabilities so far.
pub open spec fn is_nucleus<F: Fpu>(f: &F, probs: Seq<u32>, order: Seq<usize>, share: u32, sums: Seq<u32>) -> bool {
    let cut = sums.len() - 1;
    &&& 1 <= cut <= order.len()
    &&& sums[0] == fpu::ZERO
    &&& forall|k: int| 0 <= k < cut ==> #[trigger] fpu::adds(f, sums[k], probs[order[k] as int], sums[k + 1])
    &&& forall|k: int| 0 < k < cut ==> !float_bits::at_most(share, #[trigger] sums[k])
    &&& cut == order.len() || float_bits::at_most(share, sums[cut])
}

/// The next sum of shares.
pub open spec fn share_added<F: Fpu>(f: &F, acc: u32, p: u32, whole: u32, r: u32) -> bool {
    exists|q: u32| fpu::divs(f, p, whole, q) && #[trigger] fpu::adds(f, acc, q, r)
}

/// The token at the first place where the shares of the whole reach the draw, or at the
/// last place.
pub open spec fn falls_on<F: Fpu>(
    f: &F,
    probs: Seq<u32>,
    order: Seq<usize>,
    cut: int,
    whole: u32,
    draw: u32,
    accs: Seq<u32>,
    token: usize,
) -> bool {
    let place = accs.len() - 2;
    &&& 0 <= place < cut
    &&& accs[0] == fpu::ZERO
    &&& forall|k: int| 0 <= k <= place ==> #[trigger] share_added(f, accs[k], probs[order[k] as int], whole, accs[k + 1])
    &&& forall|k: int| 0 < k <= place ==> !float_bits::at_most(draw, #[trigger] accs[k])
    &&& place == cut - 1 || float_bits::at_most(draw, accs[place + 1])
    &&& token == order[place]
}

/// What a draw from a distribution gives.
pub open spec fn drawn<F: Fpu>(f: &F, probs: Seq<u32>, top_p: u32, draw: u32, r: Result<usize, SampleError>) -> bool {
    if probs.len() == 0 {
        r == Err::<usize, SampleError>(SampleError::NoTokens)
    } else if probs.len() > 1 && !all_numbers(probs) {
        r == Err::<usize, SampleError>(SampleError::Unordered)
    } else {
        r matches Ok(token) && draws(f, probs, wanted_share(top_p), draw, token)
    }
}

/// The token that a draw from a distribution falls on.
pub open spec fn draws<F: Fpu>(f: &F, probs: Seq<u32>, share: u32, draw: u32, token: usize) -> bool {
    exists|order: Seq<usize>, sums: Seq<u32>, accs: Seq<u32>|
        is_ranking(probs, 0, probs.len() as int, order) && #[trigger] is_nucleus(f, probs, order, share, sums)
            && #[trigger] falls_on(f, probs, order, sums.len() - 1, sums.last(), draw, accs, token)
}

/// Draws a token from the most likely ones. The draw is a number between zero and one.
pub fn draw_token<F: Fpu>(probs: &Vec<u32>, top_p: u32, draw: u32, f: &F) -> (r: Result<usize, SampleError>)
    ensures
        drawn(f, probs@, top_p, draw, r),
{
    let n: usize = probs.len();
    if n == 0 {
        return Err(SampleError::NoTokens);
    }
    if n > 1 {
        for i in 0..n
            invariant
                n == probs@.len(),
                n > 1,
                forall|j: int| 0 <= j < i ==> !float_bits::is_nan(#[trigger] probs@[j]),
        {
            if probs[i] % 0x8000_0000 > 0x7f80_0000 {
                assert(float_bits::is_nan(probs@[i as int]));
                return Err(SampleError::Unordered);
            }
        }
    }
    let order = rank(probs, 0, n);
    let share: u32 = share_of(top_p);
    let mut whole: u32 = fpu::ZERO;
    let mut cut: usize = 0;
    let ghost mut sums: Seq<u32> = seq![fpu::ZERO];
    while cut < n && (cut == 0 || !is_at_most(share, whole))
        invariant
            n == probs@.len(),
            n > 0,
            is_ranking(probs@, 0, n as int, order@),
            cut <= n,
            sums.len() == cut + 1,
            sums[0] == fpu::ZERO,
            sums[cut as int] == whole,
            forall|k: int|
                0 <= k < cut ==> #[trigger] fpu::adds(f, sums[k], probs@[order@[k] as int], sums[k + 1]),
            forall|k: int| 0 < k < cut ==> !float_bits::at_most(share, #[trigger] sums[k]),
        decreases n - cut,
    {
        let p: u32 = probs[order[cut]];
        let next: u32 = f.add(whole, p);
        let ghost before = sums;
        proof {
            sums = sums.push(next);
            assert(fpu::adds(f, sums[cut as int], p, sums[cut + 1]));
            assert forall|k: int| 0 <= k < cut implies #[trigger] fpu::adds(
                f,
                sums[k],
                probs@[order@[k] as int],
                sums[k + 1],
            ) by {
                assert(fpu::adds(f, before[k], probs@[order@[k] as int], before[k + 1]));
            }
        }
        whole = next;
        cut = cut + 1;
    }
    assert(is_nucleus(f, probs@, order@, share, sums));
    assert(sums.last() == whole);
    let mut place: usize = 0;
    let mut acc: u32 = fpu::ZERO;
    let ghost mut accs: Seq<u32> = seq![fpu::ZERO];
    loop
        invariant
            n == probs@.len(),
            probs@.len() > 0,
            probs@.len() > 1 ==> all_numbers(probs@),
            is_ranking(probs@, 0, n as int, order@),
            1 <= cut <= n,
            share == wanted_share(top_p),
            is_nucleus(f, probs@, order@, share, sums),
            sums.len() == cut + 1,
            sums.last() == whole,
            place < cut,
            accs.len() == place + 1,
            accs[0] == fpu::ZERO,
            accs[place as int] == acc,
            forall|k: int|
                0 <= k < place ==> #[trigger] share_added(f, accs[k], probs@[order@[k] as int], whole, accs[k + 1]),
            forall|k: int| 0 < k <= place ==> !float_bits::at_most(draw, #[trigger] accs[k]),
        decreases cut - place,
    {
        let token: usize = order[place];
        let q: u32 = f.div(probs[token], whole);
        let next: u32 = f.add(acc, q);
        let ghost before = accs;
        proof {
            accs = accs.push(next);
            assert(fpu::divs(f, probs@[token as int], whole, q) && fpu::adds(f, acc, q, next));
            assert(share_added(f, accs[place as int], probs@[order@[place as int] as int], whole, accs[place + 1]));
            assert forall|k: int| 0 <= k < place implies #[trigger] share_added(
                f,
                accs[k],
                probs@[order@[k] as int],
                whole,
                accs[k + 1],
            ) by {
                assert(share_added(f, before[k], probs@[order@[k] as int], whole, before[k + 1]));
            }
        }
        if is_at_most(draw, next) || place == cut - 1 {
            assert(falls_on(f, probs@, order@, cut as int, whole, draw, accs, token));
            return Ok(token);
        }
        acc = next;
        place = place + 1;
    }
}

/// The token that comes next, given a draw between zero and one.
pub open spec fn sampled<F: Fpu>(
    f: &F,
    c: SamplingConfig,
    logits: Seq<u32>,
    recent: Seq<usize>,
    draw: u32,
    r: Result<usize, SampleError>,
) -> bool {
    exists|scores: Seq<u32>| #[trigger] adjusted(f, c, logits, recent, scores) && if is_greedy(c.temperature) {
        r matches Ok(token) && matvec::is_first_best(scores, fpu::NEG_INFINITY, token as int)
    } else {
        spread_and_drawn(f, scores, c, draw, r)
    }
}

/// A draw from the distribution that scores give at a temperature.
pub open spec fn spread_and_drawn<F: Fpu>(
    f: &F,
    scores: Seq<u32>,
    c: SamplingConfig,
    draw: u32,
    r: Result<usize, SampleError>,
) -> bool {
    exists|scaled: Seq<u32>, probs: Seq<u32>|
        quotients(f, scores, c.temperature, scaled) && #[trigger] is_distribution(f, scaled, probs) && drawn(
            f,
            probs,
            c.top_p,
            draw,
            r,
        )
}

fn penalize<F: Fpu>(logits: &[u32], recent: &[usize], penalty: u32, f: &F) -> (scores: Vec<u32>)
    ensures
        penalized(f, logits@, recent@, penalty, scores@),
{
    let mut scores: Vec<u32> = slice_to_vec(logits);
    assert(recent@.take(0) =~= Seq::<usize>::empty());
    for i in 0..recent.len()
        invariant
            scores@.len() == logits@.len(),
            penalized(f, logits@, recent@.take(i as int), penalty, scores@),
    {
        let ghost before = scores@;
        let token: usize = recent[i];
        if token < scores.len() {
            let q: u32 = f.div(scores[token], penalty);
            scores.set(token, q);
        }
        proof {
            assert(recent@.take(i + 1).drop_last() =~= recent@.take(i as int));
            assert(penalized_once(f, before, recent@.take(i + 1).last(), penalty, scores@));
        }
    }
    assert(recent@.take(recent@.len() as int) =~= recent@);
    scores
}

fn best_token(scores: &Vec<u32>) -> (best: usize)
    ensures
        matvec::is_first_best(scores@, fpu::NEG_INFINITY, best as int),
{
    let mut best: usize = 0;
    let mut held: u32 = fpu::NEG_INFINITY;
    for i in 0..scores.len()
        invariant
            matvec::is_first_best(scores@.take(i as int), fpu::NEG_INFINITY, best as int),
            held == matvec::best_score(scores@.take(i as int), fpu::NEG_INFINITY, best as int),
    {
        let score: u32 = scores[i];
        proof {
            matvec::lemma_next_score(scores@.take(i as int), fpu::NEG_INFINITY, best as int, score);
            assert(scores@.take(i + 1) =~= scores@.take(i as int).push(score));
        }
        if is_above(score, held) {
            held = score;
            best = i;
        }
    }
    assert(scores@.take(scores@.len() as int) =~= scores@);
    best
}

/// The probabilities of the tokens at a temperature.
fn spread<F: Fpu>(scores: &Vec<u32>, temperature: u32, f: &F) -> (probs: Vec<u32>)
    ensures
        exists|scaled: Seq<u32>|
            quotients(f, scores@, temperature, scaled) && #[trigger] is_distribution(f, scaled, probs@),
{
    let mut scaled: Vec<u32> = Vec::with_capacity(scores.len());
    for i in 0..scores.len()
        invariant
            scaled@.len() == i,
            forall|j: int| 0 <= j < i ==> fpu::divs(f, scores@[j], temperature, #[trigger] scaled@[j]),
    {
        scaled.push(f.div(scores[i], temperature));
    }
    let (es, total) = exponentiate(scaled.as_slice(), f);
    let d: u32 = f.add(total, SUM_FLOOR);
    let inv: u32 = f.div(fpu::ONE, d);
    let mut probs: Vec<u32> = Vec::with_capacity(es.len());
    for i in 0..es.len()
        invariant
            probs@.len() == i,
            forall|j: int| 0 <= j < i ==> fpu::muls(f, es@[j], inv, #[trigger] probs@[j]),
    {
        probs.push(f.mul(es[i], inv));
    }
    proof {
        assert(fpu::adds(f, total, SUM_FLOOR, d) && fpu::divs(f, fpu::ONE, d, inv));
        assert(inverse_of_sum(f, total, inv));
        assert(rows::exponentials(f, scaled@, es@, total) && rows::scaled_by(f, es@, inv, probs@));
        assert(is_distribution(f, scaled@, probs@));
    }
    probs
}

/// The token that comes next. The draw is a number between zero and one.
pub fn sample_top_p<F: Fpu>(logits: &[u32], c: &SamplingConfig, recent: &[usize], draw: u32, f: &F) -> (r: Result<
    usize,
    SampleError,
>)
    ensures
        sampled(f, *c, logits@, recent@, draw, r),
{
    let scores = if is_above(c.repetition_penalty, fpu::ONE) {
        penalize(logits, recent, c.repetition_penalty, f)
    } else {
        slice_to_vec(logits)
    };
    assert(adjusted(f, *c, logits@, recent@, scores@));
    if is_at_most(c.temperature, GREEDY_LIMIT) {
        return Ok(best_token(&scores));
    }
    let probs = spread(&scores, c.temperature, f);
    let r = draw_token(&probs, c.top_p, draw, f);
    assert(spread_and_drawn(f, scores@, *c, draw, r));
    r
}

/// A ranking holds each token.
pub proof fn law_ranking_is_complete(probs: Seq<u32>, order: Seq<usize>, token: usize)
    requires
        is_ranking(probs, 0, probs.len() as int, order),
        token < probs.len(),
    ensures
        order.contains(token),
{
    if !order.contains(token) {
        let extended = order.push(token);
        assert forall|i: int, j: int| 0 <= i < j < extended.len() implies extended[i] != extended[j] by {
            if j < order.len() {
                assert(ranks_before(probs, order[i] as int, order[j] as int));
            } else {
                assert(order.contains(order[i]));
            }
        }
        assert(extended.no_duplicates());
        let ints = extended.map_values(|x: usize| x as int);
        assert(ints.no_duplicates());
        ints.unique_seq_to_set();
        let range = vstd::set_lib::set_int_range(0, probs.len() as int);
        vstd::set_lib::lemma_int_range(0, probs.len() as int);
        assert(ints.to_set().subset_of(range)) by {
            assert forall|v: int| ints.to_set().contains(v) implies range.contains(v) by {
                let i = choose|i: int| 0 <= i < ints.len() && ints[i] == v;
                assert(ints[i] == extended[i]);
            }
        }
        vstd::set_lib::lemma_len_subset(ints.to_set(), range);
    }
}

/// What is drawn is one of the tokens.
pub proof fn law_token_is_in_range<F: Fpu>(
    f: &F,
    c: SamplingConfig,
    logits: Seq<u32>,
    recent: Seq<usize>,
    draw: u32,
    token: usize,
)
    requires
        logits.len() > 0,
        sampled(f, c, logits, recent, draw, Ok(token)),
    ensures
        token < logits.len(),
{
    let scores = choose|scores: Seq<u32>| #[trigger]
        adjusted(f, c, logits, recent, scores) && if is_greedy(c.temperature) {
            matvec::is_first_best(scores, fpu::NEG_INFINITY, token as int)
        } else {
            spread_and_drawn(f, scores, c, draw, Ok(token))
        };
    if float_bits::above(c.repetition_penalty, fpu::ONE) {
        lemma_penalized_len(f, logits, recent, c.repetition_penalty, scores);
    }
    if !is_greedy(c.temperature) {
        let (scaled, probs) = choose|scaled: Seq<u32>, probs: Seq<u32>|
            quotients(f, scores, c.temperature, scaled) && #[trigger] is_distribution(f, scaled, probs) && drawn(
                f,
                probs,
                c.top_p,
                draw,
                Ok(token),
            );
        assert(probs.len() == logits.len());
        assert(draws(f, probs, wanted_share(c.top_p), draw, token));
        let (order, sums, accs) = choose|order: Seq<usize>, sums: Seq<u32>, accs: Seq<u32>|
            is_ranking(probs, 0, probs.len() as int, order) && #[trigger] is_nucleus(
                f,
                probs,
                order,
                wanted_share(c.top_p),
                sums,
            ) && #[trigger] falls_on(f, probs, order, sums.len() - 1, sums.last(), draw, accs, token);
        assert(order[accs.len() - 2] == token);
    }
}

proof fn lemma_penalized_len<F: Fpu>(f: &F, logits: Seq<u32>, recent: Seq<usize>, penalty: u32, r: Seq<u32>)
    requires
        penalized(f, logits, recent, penalty, r),
    ensures
        r.len() == logits.len(),
    decreases recent.len(),
{
    if recent.len() > 0 {
        let m = choose|m: Seq<u32>|
            penalized(f, logits, recent.drop_last(), penalty, m) && #[trigger] penalized_once(
                f,
                m,
                recent.last(),
                penalty,
                r,
            );
        lemma_penalized_len(f, logits, recent.drop_last(), penalty, m);
    }
}

} // verus!
