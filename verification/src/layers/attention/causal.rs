use crate::array::NdArray;
use crate::fixed;
use crate::float_bits;
use crate::fpu;
use crate::fpu::Fpu;
use crate::layers::attention::attend;
use crate::layers::attention::attend::WEIGHT_FLOOR;
use crate::ops::matmul;
use crate::ops::matvec;
use crate::ops::rows;
use vstd::prelude::*;

verus! {

/// The first `n` weights and values are those of another sum, and what follows are weights
/// of zero for finite values.
pub open spec fn padded(ws: Seq<u32>, vs: Seq<u32>, n: int) -> bool {
    &&& ws.len() == vs.len()
    &&& n <= ws.len()
    &&& forall|j: int| n <= j < ws.len() ==> #[trigger] ws[j] == fpu::ZERO
    &&& forall|j: int| n <= j < vs.len() ==> float_bits::is_finite(#[trigger] vs[j])
}

/// Infinities and zeros behave as they do in IEEE 754, and products with a zero do not
/// change a sum of products that they stand at the end of.
pub open spec fn zeros_vanish<F: Fpu>(f: &F) -> bool {
    &&& forall|a: u32, b: u32, r: u32|
        float_bits::is_finite(a) && float_bits::is_finite(b) && #[trigger] fpu::subs(f, a, b, r) ==> !float_bits::is_nan(r)
    &&& forall|b: u32, r: u32|
        float_bits::is_finite(b) && #[trigger] fpu::subs(f, fpu::NEG_INFINITY, b, r) ==> r == fpu::NEG_INFINITY
    &&& forall|a: u32, r: u32| !float_bits::is_nan(a) && #[trigger] fpu::exps(f, a, r) ==> float_bits::is_unsigned(r)
    &&& forall|r: u32| #[trigger] fpu::exps(f, fpu::NEG_INFINITY, r) ==> r == fpu::ZERO
    &&& forall|a: u32, b: u32, r: u32|
        float_bits::is_unsigned(a) && float_bits::is_unsigned(b) && #[trigger] fpu::adds(f, a, b, r) ==> float_bits::is_unsigned(r) && r >= b
    &&& forall|a: u32, r: u32| float_bits::is_unsigned(a) && #[trigger] fpu::adds(f, a, fpu::ZERO, r) ==> r == a
    &&& forall|a: u32, r: u32|
        WEIGHT_FLOOR <= a && float_bits::is_unsigned(a) && #[trigger] fpu::divs(f, fpu::ONE, a, r) ==> float_bits::is_unsigned(r) && float_bits::is_finite(r)
    &&& forall|a: u32, r: u32|
        float_bits::is_unsigned(a) && float_bits::is_finite(a) && #[trigger] fpu::muls(f, fpu::ZERO, a, r) ==> r == fpu::ZERO
    &&& forall|ws: Seq<u32>, vs: Seq<u32>, xs: Seq<u32>, ys: Seq<u32>, n: int, r: u32, s: u32|
        #![trigger fpu::dots(f, ws, vs, r), fpu::dots(f, xs, ys, s), ws.take(n)]
        0 <= n && padded(ws, vs, n) && padded(xs, ys, n) && ws.take(n) == xs.take(n) && vs.take(n) == ys.take(n)
            && fpu::dots(f, ws, vs, r) && fpu::dots(f, xs, ys, s) ==> r == s
}

/// The same `n` rows stand in both lists.
pub open spec fn rows_alike(a: Seq<u32>, base: int, b: Seq<u32>, other: int, n: int, d: int) -> bool {
    &&& 0 <= base
    &&& 0 <= other
    &&& (base + n) * d <= a.len()
    &&& (other + n) * d <= b.len()
    &&& forall|j: int| 0 <= j < n ==> #[trigger] matmul::flat_row(a, base + j, d) == matmul::flat_row(b, other + j, d)
}

/// The scores of the first `n` keys are finite.
pub open spec fn scores_finite<F: Fpu>(f: &F, q: Seq<u32>, keys: Seq<u32>, base: int, n: int, scale: u32) -> bool {
    forall|j: int, p: u32, s: u32|
        0 <= j < n && #[trigger] fpu::dots(f, q, matmul::flat_row(keys, base + j, q.len() as int), p)
            && #[trigger] fpu::muls(f, p, scale, s) ==> float_bits::is_finite(s)
}

/// The values from one key up to another are finite.
pub open spec fn values_finite(vals: Seq<u32>, base: int, from: int, to: int, d: int) -> bool {
    forall|c: int, j: int|
        0 <= c < d && from <= j < to ==> float_bits::is_finite(#[trigger] attend::value_col(vals, base, to, d, c)[j])
}

/// Alike rows have alike columns.
pub proof fn lemma_columns_alike(a: Seq<u32>, base: int, b: Seq<u32>, other: int, n: int, d: int, c: int)
    requires
        rows_alike(a, base, b, other, n, d),
        0 <= c < d,
        0 <= n,
    ensures
        attend::value_col(a, base, n, d, c) == attend::value_col(b, other, n, d, c),
{
    let x = attend::value_col(a, base, n, d, c);
    let y = attend::value_col(b, other, n, d, c);
    assert forall|j: int| 0 <= j < n implies #[trigger] x[j] == y[j] by {
        assert(0 <= (base + j) * d && (base + j) * d + d <= (base + n) * d) by (nonlinear_arith)
            requires
                0 <= base,
                0 <= j < n,
                0 < d,
        ;
        assert(0 <= (other + j) * d && (other + j) * d + d <= (other + n) * d) by (nonlinear_arith)
            requires
                0 <= other,
                0 <= j < n,
                0 < d,
        ;
        let p = matmul::flat_row(a, base + j, d);
        let q = matmul::flat_row(b, other + j, d);
        assert(p == q);
        assert(p[c] == a[(base + j) * d + c]);
        assert(q[c] == b[(other + j) * d + c]);
    }
    assert(x =~= y);
}

/// The greatest of some values is a number.
proof fn lemma_greatest_is_number(xs: Seq<u32>)
    ensures
        !float_bits::is_nan(rows::row_max(xs)),
    decreases xs.len(),
{
    if xs.len() > 0 {
        lemma_greatest_is_number(xs.drop_last());
    }
}

/// Hidden scores are never the greatest.
proof fn lemma_greatest_is_visible(xs: Seq<u32>, n: int)
    requires
        0 <= n <= xs.len(),
        forall|j: int| n <= j < xs.len() ==> #[trigger] xs[j] == fpu::NEG_INFINITY,
    ensures
        rows::row_max(xs) == rows::row_max(xs.take(n)),
    decreases xs.len(),
{
    if xs.len() == n {
        assert(xs.take(n) =~= xs);
    } else {
        let before = xs.drop_last();
        lemma_greatest_is_visible(before, n);
        lemma_greatest_is_number(before);
        assert(before.take(n) =~= xs.take(n));
        assert(xs.last() == xs[xs.len() - 1]);
    }
}

/// The greatest of finite values is finite.
proof fn lemma_greatest_is_finite(xs: Seq<u32>)
    requires
        xs.len() > 0,
        forall|j: int| 0 <= j < xs.len() ==> float_bits::is_finite(#[trigger] xs[j]),
    ensures
        float_bits::is_finite(rows::row_max(xs)),
    decreases xs.len(),
{
    let before = xs.drop_last();
    assert(xs.last() == xs[xs.len() - 1]);
    lemma_greatest_is_number(before);
    if before.len() > 0 {
        assert forall|j: int| 0 <= j < before.len() implies float_bits::is_finite(#[trigger] before[j]) by {
            assert(before[j] == xs[j]);
        }
        lemma_greatest_is_finite(before);
    } else {
        assert(rows::row_max(before) == fpu::NEG_INFINITY);
    }
}

/// A sum of numbers without a sign is one, and zeros at its end leave it as it is.
proof fn lemma_zeros_add_nothing<F: Fpu>(f: &F, es: Seq<u32>, n: int, total: u32)
    requires
        zeros_vanish(f),
        0 <= n <= es.len(),
        forall|j: int| 0 <= j < es.len() ==> float_bits::is_unsigned(#[trigger] es[j]),
        forall|j: int| n <= j < es.len() ==> #[trigger] es[j] == fpu::ZERO,
        rows::left_sum(f, fpu::ZERO, es, total),
    ensures
        float_bits::is_unsigned(total),
        rows::left_sum(f, fpu::ZERO, es.take(n), total),
    decreases es.len(),
{
    if es.len() == 0 {
        assert(es.take(n) =~= es);
    } else {
        let m = choose|m: u32| rows::left_sum(f, fpu::ZERO, es.drop_last(), m) && #[trigger] fpu::adds(f, m, es.last(), total);
        let before = es.drop_last();
        assert(es.last() == es[es.len() - 1]);
        assert forall|j: int| 0 <= j < before.len() implies float_bits::is_unsigned(#[trigger] before[j]) by {
            assert(before[j] == es[j]);
        }
        if n == es.len() {
            assert(es.take(n) =~= es);
            lemma_zeros_add_nothing(f, before, before.len() as int, m);
        } else {
            lemma_zeros_add_nothing(f, before, n, m);
            assert(before.take(n) =~= es.take(n));
            assert(fpu::adds(f, m, fpu::ZERO, total));
        }
    }
}

/// What becomes of scores of which only the first are seen: the weights behind them are
/// zero, and the others are those that the first scores have among themselves.
proof fn lemma_hidden_weights_vanish<F: Fpu>(
    f: &F,
    scaled: Seq<u32>,
    es: Seq<u32>,
    total: u32,
    raised: u32,
    inv: u32,
    ws: Seq<u32>,
    n: int,
)
    requires
        zeros_vanish(f),
        0 < n <= scaled.len(),
        forall|j: int| 0 <= j < n ==> float_bits::is_finite(#[trigger] scaled[j]),
        forall|j: int| n <= j < scaled.len() ==> #[trigger] scaled[j] == fpu::NEG_INFINITY,
        rows::exponentials(f, scaled, es, total),
        fpu::adds(f, total, WEIGHT_FLOOR, raised),
        fpu::divs(f, fpu::ONE, raised, inv),
        rows::scaled_by(f, es, inv, ws),
    ensures
        rows::row_max(scaled) == rows::row_max(scaled.take(n)),
        rows::left_sum(f, fpu::ZERO, es.take(n), total),
        forall|j: int| n <= j < ws.len() ==> #[trigger] ws[j] == fpu::ZERO,
{
    let m = rows::row_max(scaled);
    lemma_greatest_is_visible(scaled, n);
    let first = scaled.take(n);
    assert forall|j: int| 0 <= j < first.len() implies float_bits::is_finite(#[trigger] first[j]) by {
        assert(first[j] == scaled[j]);
    }
    lemma_greatest_is_finite(first);
    assert forall|j: int| 0 <= j < es.len() implies float_bits::is_unsigned(#[trigger] es[j]) && (n <= j ==> es[j] == fpu::ZERO) by {
        assert(rows::shifted_exp(f, scaled[j], m, es[j]));
        let d = choose|d: u32| fpu::subs(f, scaled[j], m, d) && #[trigger] fpu::exps(f, d, es[j]);
        if n <= j {
            assert(scaled[j] == fpu::NEG_INFINITY);
            assert(d == fpu::NEG_INFINITY);
        } else {
            assert(float_bits::is_finite(scaled[j]));
        }
    }
    lemma_zeros_add_nothing(f, es, n, total);
    assert(float_bits::is_unsigned(WEIGHT_FLOOR));
    assert forall|j: int| n <= j < ws.len() implies #[trigger] ws[j] == fpu::ZERO by {
        assert(es[j] == fpu::ZERO);
        assert(fpu::muls(f, es[j], inv, ws[j]));
    }
}

/// The weights of the keys that are seen do not depend on how many keys follow.
proof fn lemma_one_set_of_weights<F: Fpu>(
    f: &F,
    xs: Seq<u32>,
    ys: Seq<u32>,
    scale: u32,
    n: int,
    ws: Seq<u32>,
    us: Seq<u32>,
)
    requires
        fpu::fixed_answers(f),
        zeros_vanish(f),
        0 < n <= xs.len(),
        n <= ys.len(),
        xs.take(n) == ys.take(n),
        forall|j: int, s: u32| 0 <= j < n && #[trigger] fpu::muls(f, xs[j], scale, s) ==> float_bits::is_finite(s),
        attend::attention_weights(f, xs, scale, n, ws),
        attend::attention_weights(f, ys, scale, n, us),
    ensures
        ws.len() == xs.len(),
        us.len() == ys.len(),
        ws.take(n) == us.take(n),
        forall|j: int| n <= j < ws.len() ==> #[trigger] ws[j] == fpu::ZERO,
        forall|j: int| n <= j < us.len() ==> #[trigger] us[j] == fpu::ZERO,
{
    let (s1, e1, t1, r1, i1) = choose|scaled: Seq<u32>, es: Seq<u32>, total: u32, raised: u32, inv: u32|
        #[trigger] attend::scaled_or_hidden(f, xs, scale, n, scaled) && #[trigger] rows::exponentials(f, scaled, es, total)
            && #[trigger] fpu::adds(f, total, WEIGHT_FLOOR, raised) && #[trigger] fpu::divs(f, fpu::ONE, raised, inv)
            && rows::scaled_by(f, es, inv, ws);
    let (s2, e2, t2, r2, i2) = choose|scaled: Seq<u32>, es: Seq<u32>, total: u32, raised: u32, inv: u32|
        #[trigger] attend::scaled_or_hidden(f, ys, scale, n, scaled) && #[trigger] rows::exponentials(f, scaled, es, total)
            && #[trigger] fpu::adds(f, total, WEIGHT_FLOOR, raised) && #[trigger] fpu::divs(f, fpu::ONE, raised, inv)
            && rows::scaled_by(f, es, inv, us);
    assert forall|j: int| 0 <= j < n implies #[trigger] s1[j] == s2[j] && float_bits::is_finite(s1[j]) by {
        assert(xs.take(n)[j] == xs[j] && ys.take(n)[j] == ys[j]);
        assert(fpu::muls(f, xs[j], scale, s1[j]));
        assert(fpu::muls(f, ys[j], scale, s2[j]));
    }
    assert forall|j: int| n <= j < s1.len() implies #[trigger] s1[j] == fpu::NEG_INFINITY by {}
    assert forall|j: int| n <= j < s2.len() implies #[trigger] s2[j] == fpu::NEG_INFINITY by {}
    assert forall|j: int| 0 <= j < n implies float_bits::is_finite(#[trigger] s2[j]) by {
        assert(s1[j] == s2[j]);
    }
    lemma_hidden_weights_vanish(f, s1, e1, t1, r1, i1, ws, n);
    lemma_hidden_weights_vanish(f, s2, e2, t2, r2, i2, us, n);
    assert(s1.take(n) =~= s2.take(n));
    let m = rows::row_max(s1);
    assert forall|j: int| 0 <= j < n implies #[trigger] e1[j] == e2[j] by {
        assert(s1[j] == s2[j]);
        assert(rows::shifted_exp(f, s1[j], m, e1[j]) && rows::shifted_exp(f, s2[j], m, e2[j]));
    }
    assert(e1.take(n) =~= e2.take(n));
    fixed::lemma_one_left_sum(f, fpu::ZERO, e1.take(n), t1, t2);
    assert(r1 == r2);
    assert(i1 == i2);
    assert forall|j: int| 0 <= j < n implies #[trigger] ws[j] == us[j] by {
        assert(e1[j] == e2[j]);
        assert(fpu::muls(f, e1[j], i1, ws[j]) && fpu::muls(f, e2[j], i2, us[j]));
    }
    assert(ws.take(n) =~= us.take(n));
}

/// Where the processor answers alike, scores have one set of weights.
proof fn lemma_weights_are_fixed<F: Fpu>(f: &F, xs: Seq<u32>, scale: u32, visible: int, ws: Seq<u32>, us: Seq<u32>)
    requires
        fpu::fixed_answers(f),
        attend::attention_weights(f, xs, scale, visible, ws),
        attend::attention_weights(f, xs, scale, visible, us),
    ensures
        ws == us,
{
    let (s1, e1, t1, r1, i1) = choose|scaled: Seq<u32>, es: Seq<u32>, total: u32, raised: u32, inv: u32|
        #[trigger] attend::scaled_or_hidden(f, xs, scale, visible, scaled) && #[trigger] rows::exponentials(
            f,
            scaled,
            es,
            total,
        ) && #[trigger] fpu::adds(f, total, WEIGHT_FLOOR, raised) && #[trigger] fpu::divs(f, fpu::ONE, raised, inv)
            && rows::scaled_by(f, es, inv, ws);
    let (s2, e2, t2, r2, i2) = choose|scaled: Seq<u32>, es: Seq<u32>, total: u32, raised: u32, inv: u32|
        #[trigger] attend::scaled_or_hidden(f, xs, scale, visible, scaled) && #[trigger] rows::exponentials(
            f,
            scaled,
            es,
            total,
        ) && #[trigger] fpu::adds(f, total, WEIGHT_FLOOR, raised) && #[trigger] fpu::divs(f, fpu::ONE, raised, inv)
            && rows::scaled_by(f, es, inv, us);
    assert forall|j: int| 0 <= j < xs.len() implies #[trigger] s1[j] == s2[j] by {
        if j < visible {
            assert(fpu::muls(f, xs[j], scale, s1[j]) && fpu::muls(f, xs[j], scale, s2[j]));
        }
    }
    assert(s1 =~= s2);
    let m = rows::row_max(s1);
    assert forall|j: int| 0 <= j < e1.len() implies #[trigger] e1[j] == e2[j] by {
        assert(rows::shifted_exp(f, s1[j], m, e1[j]) && rows::shifted_exp(f, s1[j], m, e2[j]));
    }
    assert(e1 =~= e2);
    fixed::lemma_one_left_sum(f, fpu::ZERO, e1, t1, t2);
    assert(r1 == r2);
    assert(i1 == i2);
    fixed::lemma_one_scaling(f, e1, i1, ws, us);
}

/// Where the processor answers alike, a query gathers the same from the same keys and values,
/// wherever they stand.
pub proof fn law_keys_and_values_alone_matter<F: Fpu>(
    f: &F,
    q: Seq<u32>,
    keys: Seq<u32>,
    vals: Seq<u32>,
    base: int,
    other_keys: Seq<u32>,
    other_vals: Seq<u32>,
    other_base: int,
    l: int,
    scale: u32,
    visible: int,
    out: Seq<u32>,
    other_out: Seq<u32>,
)
    requires
        fpu::fixed_answers(f),
        0 <= l,
        rows_alike(keys, base, other_keys, other_base, l, q.len() as int),
        rows_alike(vals, base, other_vals, other_base, l, q.len() as int),
        attend::row_attended(f, q, keys, vals, base, l, scale, visible, out),
        attend::row_attended(f, q, other_keys, other_vals, other_base, l, scale, visible, other_out),
    ensures
        out == other_out,
{
    let d = q.len() as int;
    let (xs, ws) = choose|scores: Seq<u32>, weights: Seq<u32>|
        #[trigger] attend::key_scores(f, q, keys, base, l, scores) && #[trigger] attend::attention_weights(
            f,
            scores,
            scale,
            visible,
            weights,
        ) && weights.len() == l && attend::weighted_values(f, weights, vals, base, d, out);
    let (ys, us) = choose|scores: Seq<u32>, weights: Seq<u32>|
        #[trigger] attend::key_scores(f, q, other_keys, other_base, l, scores) && #[trigger] attend::attention_weights(
            f,
            scores,
            scale,
            visible,
            weights,
        ) && weights.len() == l && attend::weighted_values(f, weights, other_vals, other_base, d, other_out);
    assert forall|j: int| 0 <= j < l implies #[trigger] xs[j] == ys[j] by {
        assert(matmul::flat_row(keys, base + j, d) == matmul::flat_row(other_keys, other_base + j, d));
        assert(fpu::dots(f, q, matmul::flat_row(keys, base + j, d), xs[j]));
        assert(fpu::dots(f, q, matmul::flat_row(other_keys, other_base + j, d), ys[j]));
    }
    assert(xs =~= ys);
    lemma_weights_are_fixed(f, xs, scale, visible, ws, us);
    assert forall|c: int| 0 <= c < d implies #[trigger] out[c] == other_out[c] by {
        lemma_columns_alike(vals, base, other_vals, other_base, l, d, c);
        let col = attend::value_col(vals, base, l, d, c);
        assert(fpu::dots(f, ws, col, out[c]));
        assert(fpu::dots(f, us, attend::value_col(other_vals, other_base, l, d, c), other_out[c]));
    }
    assert(out =~= other_out);
}

/// Where the processor answers alike and zeros vanish, a query gathers the same whatever
/// keys and values follow those that it sees, and however many: its scores have to be
/// finite, and so do the values that follow.
pub proof fn law_later_keys_and_values_do_not_matter<F: Fpu>(
    f: &F,
    q: Seq<u32>,
    keys: Seq<u32>,
    vals: Seq<u32>,
    base: int,
    l: int,
    other_keys: Seq<u32>,
    other_vals: Seq<u32>,
    other_base: int,
    other_l: int,
    scale: u32,
    visible: int,
    out: Seq<u32>,
    other_out: Seq<u32>,
)
    requires
        fpu::fixed_answers(f),
        zeros_vanish(f),
        0 < visible <= l,
        visible <= other_l,
        rows_alike(keys, base, other_keys, other_base, visible, q.len() as int),
        rows_alike(vals, base, other_vals, other_base, visible, q.len() as int),
        scores_finite(f, q, keys, base, visible, scale),
        values_finite(vals, base, visible, l, q.len() as int),
        values_finite(other_vals, other_base, visible, other_l, q.len() as int),
        attend::row_attended(f, q, keys, vals, base, l, scale, visible, out),
        attend::row_attended(f, q, other_keys, other_vals, other_base, other_l, scale, visible, other_out),
    ensures
        out == other_out,
{
    let d = q.len() as int;
    let (xs, ws) = choose|scores: Seq<u32>, weights: Seq<u32>|
        #[trigger] attend::key_scores(f, q, keys, base, l, scores) && #[trigger] attend::attention_weights(
            f,
            scores,
            scale,
            visible,
            weights,
        ) && weights.len() == l && attend::weighted_values(f, weights, vals, base, d, out);
    let (ys, us) = choose|scores: Seq<u32>, weights: Seq<u32>|
        #[trigger] attend::key_scores(f, q, other_keys, other_base, other_l, scores) && #[trigger] attend::attention_weights(
            f,
            scores,
            scale,
            visible,
            weights,
        ) && weights.len() == other_l && attend::weighted_values(f, weights, other_vals, other_base, d, other_out);
    assert forall|j: int| 0 <= j < visible implies #[trigger] xs[j] == ys[j] by {
        assert(matmul::flat_row(keys, base + j, d) == matmul::flat_row(other_keys, other_base + j, d));
        assert(fpu::dots(f, q, matmul::flat_row(keys, base + j, d), xs[j]));
        assert(fpu::dots(f, q, matmul::flat_row(other_keys, other_base + j, d), ys[j]));
    }
    assert(xs.take(visible) =~= ys.take(visible));
    assert forall|j: int, s: u32| 0 <= j < visible && #[trigger] fpu::muls(f, xs[j], scale, s) implies float_bits::is_finite(s) by {
        assert(fpu::dots(f, q, matmul::flat_row(keys, base + j, d), xs[j]));
    }
    lemma_one_set_of_weights(f, xs, ys, scale, visible, ws, us);
    assert forall|c: int| 0 <= c < d implies #[trigger] out[c] == other_out[c] by {
        let a = attend::value_col(vals, base, l, d, c);
        let b = attend::value_col(other_vals, other_base, other_l, d, c);
        lemma_columns_alike(vals, base, other_vals, other_base, visible, d, c);
        assert(a.take(visible) =~= attend::value_col(vals, base, visible, d, c));
        assert(b.take(visible) =~= attend::value_col(other_vals, other_base, visible, d, c));
        assert(padded(ws, a, visible));
        assert(padded(us, b, visible));
        assert(fpu::dots(f, ws, a, out[c]));
        assert(fpu::dots(f, us, b, other_out[c]));
        assert(ws.take(visible) == us.take(visible));
    }
    assert(out =~= other_out);
}

/// Where the processor answers alike, a single query gathers the same whatever keys and
/// values follow its own position.
pub proof fn law_single_step_sees_the_past_alone<F: Fpu>(
    f: &F,
    q: Seq<u32>,
    keys: Seq<u32>,
    vals: Seq<u32>,
    base: int,
    l: int,
    other_keys: Seq<u32>,
    other_vals: Seq<u32>,
    other_base: int,
    other_l: int,
    scale: u32,
    position: int,
    out: Seq<u32>,
    other_out: Seq<u32>,
)
    requires
        fpu::fixed_answers(f),
        0 <= position < l,
        position < other_l,
        rows_alike(keys, base, other_keys, other_base, position + 1, q.len() as int),
        rows_alike(vals, base, other_vals, other_base, position + 1, q.len() as int),
        attend::query_attended(
            f,
            true,
            q,
            keys,
            vals,
            base,
            l,
            scale,
            attend::seen_keys(true, position, l),
            out,
        ),
        attend::query_attended(
            f,
            true,
            q,
            other_keys,
            other_vals,
            other_base,
            other_l,
            scale,
            attend::seen_keys(true, position, other_l),
            other_out,
        ),
    ensures
        out == other_out,
{
    let d = q.len() as int;
    let n = position + 1;
    let (x1, e1, t1, c1, r1, i1) = choose|
        scores: Seq<u32>,
        es: Seq<u32>,
        total: u32,
        ctx: Seq<u32>,
        raised: u32,
        inv: u32,
    |
        #[trigger] attend::step_scores(f, q, keys, base, n, scale, scores) && #[trigger] rows::exponentials(f, scores, es, total)
            && #[trigger] attend::step_context(f, es, vals, base, d, ctx) && #[trigger] fpu::adds(
            f,
            total,
            WEIGHT_FLOOR,
            raised,
        ) && #[trigger] fpu::divs(f, fpu::ONE, raised, inv) && rows::scaled_by(f, ctx, inv, out);
    let (x2, e2, t2, c2, r2, i2) = choose|
        scores: Seq<u32>,
        es: Seq<u32>,
        total: u32,
        ctx: Seq<u32>,
        raised: u32,
        inv: u32,
    |
        #[trigger] attend::step_scores(f, q, other_keys, other_base, n, scale, scores) && #[trigger] rows::exponentials(
            f,
            scores,
            es,
            total,
        ) && #[trigger] attend::step_context(f, es, other_vals, other_base, d, ctx) && #[trigger] fpu::adds(
            f,
            total,
            WEIGHT_FLOOR,
            raised,
        ) && #[trigger] fpu::divs(f, fpu::ONE, raised, inv) && rows::scaled_by(f, ctx, inv, other_out);
    assert forall|j: int| 0 <= j < n implies #[trigger] x1[j] == x2[j] by {
        let key = matmul::flat_row(keys, base + j, d);
        assert(key == matmul::flat_row(other_keys, other_base + j, d));
        assert(attend::step_score(f, q, key, scale, x1[j]) && attend::step_score(f, q, key, scale, x2[j]));
        let p1 = choose|p: u32| matvec::straight_sum(f, key, q, p) && #[trigger] fpu::muls(f, p, scale, x1[j]);
        let p2 = choose|p: u32| matvec::straight_sum(f, key, q, p) && #[trigger] fpu::muls(f, p, scale, x2[j]);
        fixed::lemma_one_sum(f, key, q, matvec::tailed(matvec::SumTree::Zero, 0, key.len() as int), p1, p2);
    }
    assert(x1 =~= x2);
    assert forall|j: int| 0 <= j < n implies #[trigger] e1[j] == e2[j] by {
        let m = rows::row_max(x1);
        assert(rows::shifted_exp(f, x1[j], m, e1[j]) && rows::shifted_exp(f, x1[j], m, e2[j]));
    }
    assert(e1 =~= e2);
    fixed::lemma_one_left_sum(f, fpu::ZERO, e1, t1, t2);
    assert forall|c: int| 0 <= c < d implies #[trigger] c1[c] == c2[c] by {
        let col = attend::value_col(vals, base, n, d, c);
        lemma_columns_alike(vals, base, other_vals, other_base, n, d, c);
        assert(matvec::straight_sum(f, col, e1, c1[c]) && matvec::straight_sum(f, col, e1, c2[c]));
        fixed::lemma_one_sum(f, col, e1, matvec::tailed(matvec::SumTree::Zero, 0, col.len() as int), c1[c], c2[c]);
    }
    assert(c1 =~= c2);
    assert(r1 == r2);
    assert(i1 == i2);
    fixed::lemma_one_scaling(f, c1, i1, out, other_out);
}

/// The row of features of a head at a step, among all heads of all steps.
pub open spec fn head_at(b: int, h: int, s: int, heads: int, steps: int) -> int {
    (b * heads + h) * steps + s
}

pub proof fn lemma_head_at(b: int, h: int, s: int, batch: int, heads: int, steps: int)
    requires
        0 <= b < batch,
        0 <= h < heads,
        0 <= s < steps,
    ensures
        0 <= head_at(b, h, s, heads, steps) < (batch * heads) * steps,
        head_at(b, h, s, heads, steps) % steps == s,
{
    let a = b * heads + h;
    assert(0 <= a < batch * heads) by (nonlinear_arith)
        requires
            0 <= b < batch,
            0 <= h < heads,
            a == b * heads + h,
    ;
    assert(0 <= a * steps + s < (batch * heads) * steps) by (nonlinear_arith)
        requires
            0 <= a < batch * heads,
            0 <= s < steps,
    ;
    vstd::arithmetic::div_mod::lemma_fundamental_div_mod_converse(a * steps + s, steps, a, s);
}

/// Where a head of a step stands among the rows that attention gathers.
pub proof fn lemma_gathered_at(b: int, s: int, h: int, batch: int, steps: int, heads: int, n_rep: int, kv: int, room: int)
    requires
        0 <= b < batch,
        0 <= s < steps,
        0 <= h < heads,
    ensures
        0 <= (b * steps + s) * heads + h < (batch * steps) * heads,
        attend::step_of((b * steps + s) * heads + h, heads, steps) == s,
        attend::query_row((b * steps + s) * heads + h, heads, steps) == head_at(b, h, s, heads, steps),
        attend::cache_row((b * steps + s) * heads + h, heads, steps, n_rep, kv, room) == (b * kv + h / n_rep) * room,
{
    let t = b * steps + s;
    let i = t * heads + h;
    assert(0 <= t < batch * steps) by (nonlinear_arith)
        requires
            0 <= b < batch,
            0 <= s < steps,
            t == b * steps + s,
    ;
    assert(0 <= i < (batch * steps) * heads) by (nonlinear_arith)
        requires
            0 <= t < batch * steps,
            0 <= h < heads,
            i == t * heads + h,
    ;
    vstd::arithmetic::div_mod::lemma_fundamental_div_mod_converse(i, heads, t, h);
    vstd::arithmetic::div_mod::lemma_fundamental_div_mod_converse(t, steps, b, s);
}

/// The keys or values of a head at the first `n` positions are those of another cache.
pub open spec fn head_alike(a: NdArray<u32>, c: NdArray<u32>, b: int, h: int, n: int) -> bool {
    forall|j: int|
        0 <= j < n ==> #[trigger] matmul::flat_row(
            a.data@,
            head_at(b, h, j, a.shape@[1] as int, a.shape@[2] as int),
            a.shape@[3] as int,
        ) == matmul::flat_row(c.data@, head_at(b, h, j, c.shape@[1] as int, c.shape@[2] as int), c.shape@[3] as int)
}

proof fn lemma_head_rows(a: &NdArray<u32>, c: &NdArray<u32>, b: int, h: int, n: int)
    requires
        a.wf(),
        c.wf(),
        a.shape@.len() == 4,
        c.shape@.len() == 4,
        a.shape@[1] == c.shape@[1],
        a.shape@[3] == c.shape@[3],
        head_alike(*a, *c, b, h, n),
        0 <= b < a.shape@[0],
        b < c.shape@[0],
        0 <= h < a.shape@[1],
        0 <= n <= a.shape@[2],
        n <= c.shape@[2],
    ensures
        rows_alike(
            a.data@,
            (b * a.shape@[1] + h) * a.shape@[2],
            c.data@,
            (b * c.shape@[1] + h) * c.shape@[2],
            n,
            a.shape@[3] as int,
        ),
{
    lemma_head_inside(a, b, h, n);
    lemma_head_inside(c, b, h, n);
    let (kv, d) = (a.shape@[1] as int, a.shape@[3] as int);
    let base = (b * kv + h) * a.shape@[2];
    let other = (b * kv + h) * c.shape@[2];
    assert forall|j: int| 0 <= j < n implies #[trigger] matmul::flat_row(a.data@, base + j, d) == matmul::flat_row(
        c.data@,
        other + j,
        d,
    ) by {
        assert(head_at(b, h, j, kv, a.shape@[2] as int) == base + j);
        assert(head_at(b, h, j, kv, c.shape@[2] as int) == other + j);
    }
}

/// The positions of a head lie inside a cache.
proof fn lemma_head_inside(a: &NdArray<u32>, b: int, h: int, n: int)
    requires
        a.wf(),
        a.shape@.len() == 4,
        0 <= b < a.shape@[0],
        0 <= h < a.shape@[1],
        0 <= n <= a.shape@[2],
    ensures
        0 <= (b * a.shape@[1] + h) * a.shape@[2],
        ((b * a.shape@[1] + h) * a.shape@[2] + n) * a.shape@[3] <= a.data@.len(),
{
    let (batch, kv, room, d) = (a.shape@[0] as int, a.shape@[1] as int, a.shape@[2] as int, a.shape@[3] as int);
    matmul::lemma_product4(a.shape@);
    let q = b * kv + h;
    let base = q * room;
    assert(0 <= q < batch * kv) by (nonlinear_arith)
        requires
            0 <= b < batch,
            0 <= h < kv,
            q == b * kv + h,
    ;
    let total = (batch * kv) * room;
    assert(0 <= base && base + room <= total) by (nonlinear_arith)
        requires
            0 <= q < batch * kv,
            base == q * room,
            0 <= room,
            total == (batch * kv) * room,
    ;
    assert((base + n) * d <= total * d) by (nonlinear_arith)
        requires
            base + n <= total,
            0 <= d,
    ;
}

/// A query at an absolute position never sees later keys or values. Where the processor
/// answers alike, its row comes out the same when they are exchanged for others, or when
/// there are more or fewer of them. Where there are several queries, zeros have to vanish
/// and the scores and the values that the queries do not see have to be finite.
pub proof fn law_attention_is_causal<F: Fpu>(
    f: &F,
    q: NdArray<u32>,
    keys: NdArray<u32>,
    vals: NdArray<u32>,
    l: int,
    other_keys: NdArray<u32>,
    other_vals: NdArray<u32>,
    other_l: int,
    scale: u32,
    n_rep: int,
    past: int,
    r: NdArray<u32>,
    other: NdArray<u32>,
    b: int,
    i: int,
    h: int,
)
    requires
        fpu::fixed_answers(f),
        q.wf() && keys.wf() && vals.wf() && other_keys.wf() && other_vals.wf(),
        q.shape@.len() == 4,
        keys.shape@.len() == 4,
        other_keys.shape@.len() == 4,
        vals.shape@ == keys.shape@,
        other_vals.shape@ == other_keys.shape@,
        other_keys.shape@ == keys.shape@.update(2, other_keys.shape@[2]),
        keys.shape@[0] == q.shape@[0],
        keys.shape@[3] == q.shape@[3],
        n_rep > 0,
        q.shape@[1] == keys.shape@[1] * n_rep,
        0 <= past,
        past + q.shape@[2] <= l <= keys.shape@[2],
        past + q.shape@[2] <= other_l <= other_keys.shape@[2],
        attend::grouped_attended(f, q, keys, vals, l, scale, true, n_rep, past, r),
        attend::grouped_attended(f, q, other_keys, other_vals, other_l, scale, true, n_rep, past, other),
        0 <= b < q.shape@[0],
        0 <= i < q.shape@[2],
        0 <= h < q.shape@[1],
        head_alike(keys, other_keys, b, h / n_rep, past + i + 1),
        head_alike(vals, other_vals, b, h / n_rep, past + i + 1),
        q.shape@[2] > 1 ==> {
            &&& zeros_vanish(f)
            &&& scores_finite(
                f,
                matmul::flat_row(q.data@, head_at(b, h, i, q.shape@[1] as int, q.shape@[2] as int), q.shape@[3] as int),
                keys.data@,
                head_at(b, h / n_rep, 0, keys.shape@[1] as int, keys.shape@[2] as int),
                past + i + 1,
                scale,
            )
            &&& values_finite(
                vals.data@,
                head_at(b, h / n_rep, 0, keys.shape@[1] as int, keys.shape@[2] as int),
                past + i + 1,
                l,
                q.shape@[3] as int,
            )
            &&& values_finite(
                other_vals.data@,
                head_at(b, h / n_rep, 0, keys.shape@[1] as int, other_keys.shape@[2] as int),
                past + i + 1,
                other_l,
                q.shape@[3] as int,
            )
        },
    ensures
        r.shape@ == seq![q.shape@[0], q.shape@[2], q.shape@[1], q.shape@[3]],
        other.shape@ == r.shape@,
        matmul::flat_row(r.data@, (b * q.shape@[2] + i) * q.shape@[1] + h, q.shape@[3] as int) == matmul::flat_row(
            other.data@,
            (b * q.shape@[2] + i) * q.shape@[1] + h,
            q.shape@[3] as int,
        ),
{
    let (batch, heads, steps, d) = (
        q.shape@[0] as int,
        q.shape@[1] as int,
        q.shape@[2] as int,
        q.shape@[3] as int,
    );
    let (kv, room, other_room) = (keys.shape@[1] as int, keys.shape@[2] as int, other_keys.shape@[2] as int);
    let at = (b * steps + i) * heads + h;
    lemma_gathered_at(b, i, h, batch, steps, heads, n_rep, kv, room);
    lemma_gathered_at(b, i, h, batch, steps, heads, n_rep, kv, other_room);
    let hk = h / n_rep;
    assert(0 <= hk < kv) by (nonlinear_arith)
        requires
            0 <= h < kv * n_rep,
            n_rep > 0,
            hk == h / n_rep,
    ;
    let base = (b * kv + hk) * room;
    let other_base = (b * kv + hk) * other_room;
    let visible = past + i + 1;
    lemma_head_rows(&keys, &other_keys, b, hk, visible);
    lemma_head_rows(&vals, &other_vals, b, hk, visible);
    let row = matmul::flat_row(q.data@, head_at(b, h, i, heads, steps), d);
    lemma_head_at(b, h, i, batch, heads, steps);
    matmul::lemma_product4(q.shape@);
    let total = (batch * heads) * steps;
    let qr = head_at(b, h, i, heads, steps);
    assert(0 <= qr * d && qr * d + d <= total * d) by (nonlinear_arith)
        requires
            0 <= qr < total,
            0 <= d,
    ;
    assert(row.len() == d);
    let out = matmul::flat_row(r.data@, at, d);
    let other_out = matmul::flat_row(other.data@, at, d);
    assert(attend::query_attended(
        f,
        steps == 1,
        row,
        keys.data@,
        vals.data@,
        base,
        l,
        scale,
        attend::seen_keys(true, past + attend::step_of(at, heads, steps), l),
        out,
    ));
    assert(attend::query_attended(
        f,
        steps == 1,
        row,
        other_keys.data@,
        other_vals.data@,
        other_base,
        other_l,
        scale,
        attend::seen_keys(true, past + attend::step_of(at, heads, steps), other_l),
        other_out,
    ));
    if steps == 1 {
        law_single_step_sees_the_past_alone(
            f,
            row,
            keys.data@,
            vals.data@,
            base,
            l,
            other_keys.data@,
            other_vals.data@,
            other_base,
            other_l,
            scale,
            past + i,
            out,
            other_out,
        );
    } else {
        law_later_keys_and_values_do_not_matter(
            f,
            row,
            keys.data@,
            vals.data@,
            base,
            l,
            other_keys.data@,
            other_vals.data@,
            other_base,
            other_l,
            scale,
            visible,
            out,
            other_out,
        );
    }
}

} // verus!
