use crate::array::NdArray;
use crate::autograd;
use crate::autograd::{GradMode, Tensor};
use crate::fixed;
use crate::float_bits;
use crate::fpu;
use crate::fpu::Fpu;
use crate::layers::activation;
use crate::layers::norm::rms_norm;
use crate::layers::norm::rms_norm::{RMSNorm, RmsNormBackward};
use crate::layers::portions;
use crate::ops::matmul;
use crate::ops::rows;
use crate::ops::totals;
use crate::rounding;
use vstd::prelude::*;

verus! {

/// The numbers on the way from a row to its level: the squares, their partial sums, how many
/// there are, their mean, the mean with a little added, the root of it, and its inverse.
pub struct Level {
    pub squares: Seq<u32>,
    pub sums: Seq<u32>,
    pub count: u32,
    pub mean: u32,
    pub raised: u32,
    pub root: u32,
    pub inverse: u32,
}

/// The inverse of the root of the mean square of a row, raised by a little.
pub open spec fn is_level(rd: spec_fn(int, int) -> int, xs: Seq<u32>, eps: u32, l: Level) -> bool {
    &&& l.squares.len() == xs.len()
    &&& forall|i: int| 0 <= i < xs.len() ==> rounding::is_product(rd, xs[i], xs[i], #[trigger] l.squares[i])
    &&& rounding::partial_sums(rd, l.squares, l.sums)
    &&& float_bits::is_finite(l.count)
    &&& rounding::value(l.count) == xs.len() * rounding::unit()
    &&& rounding::is_quotient(rd, l.sums.last(), l.count, l.mean)
    &&& rounding::is_sum(rd, l.mean, eps, l.raised)
    &&& float_bits::is_finite(l.raised) && rounding::value(l.raised) >= 0 ==> rounding::is_root(l.raised, l.root)
    &&& rounding::is_quotient(rd, fpu::ONE, l.root, l.inverse)
}

proof fn lemma_level<F: Fpu>(f: &F, rd: spec_fn(int, int) -> int, xs: Seq<u32>, eps: u32, inv: u32) -> (l: Level)
    requires
        rounding::rounds_by(f, rd),
        xs.len() < 0x100_0000,
        xs.len() <= usize::MAX,
        rms_norm::inverse_rms(f, xs, eps, inv),
    ensures
        is_level(rd, xs, eps, l),
        l.inverse == inv,
{
    rounding::lemma_constants();
    let (mean, raised, root) = choose|q: u32, a: u32, r: u32|
        rms_norm::mean_square(f, xs, q) && #[trigger] fpu::adds(f, q, eps, a) && #[trigger] fpu::sqrts(f, a, r) && fpu::divs(
            f,
            fpu::ONE,
            r,
            inv,
        );
    let (squares, s, count) = choose|sq: Seq<u32>, s: u32, n: u32| #[trigger]
        rms_norm::squares(f, xs, sq) && rows::left_sum(f, fpu::ZERO, sq, s) && fpu::counts(f, xs.len() as usize, n)
            && #[trigger] fpu::divs(f, s, n, mean);
    let sums = portions::lemma_partial_sums(f, rd, squares, s);
    rounding::lemma_count_is_exact(f, rd, xs.len() as usize, count);
    assert forall|i: int| 0 <= i < xs.len() implies rounding::is_product(rd, xs[i], xs[i], #[trigger] squares[i]) by {
        assert(fpu::muls(f, xs[i], xs[i], squares[i]));
    }
    Level { squares, sums, count, mean, raised, root, inverse: inv }
}

/// Normalization divides each element of a row by the root of the mean of the squares of the
/// row, which is raised by a little first, and multiplies it by the weight of its column. The
/// elements before they are weighted are the result `r.1`.
#[verifier::rlimit(40)]
pub proof fn law_rows_are_levelled<F: Fpu>(
    f: &F,
    rd: spec_fn(int, int) -> int,
    layer: RMSNorm,
    input: Tensor,
    mode: GradMode,
    t: Tensor,
    x: NdArray<u32>,
    w: NdArray<u32>,
    row: int,
) -> (r: (Level, Seq<u32>))
    requires
        rounding::rounds_by(f, rd),
        fpu::fixed_answers(f),
        input.wf(),
        input.spec_shape().len() > 0,
        0 < input.spec_shape().last() < 0x100_0000,
        autograd::reads_as(f, input.storage, x),
        autograd::reads_as(f, layer.weight.storage, w),
        layer.norm_result(f, input, mode, t),
        t.storage is F32,
        0 <= row < x.data@.len() as int / input.spec_shape().last() as int,
    ensures
        ({
            let k = input.spec_shape().last() as int;
            let xs = matmul::flat_row(x.data@, row, k);
            let ys = matmul::flat_row(t.storage->F32_0.data@, row, k);
            &&& is_level(rd, xs, layer.eps, r.0)
            &&& r.1.len() == k
            &&& forall|i: int| 0 <= i < k && i < w.data@.len() ==> rounding::is_product(rd, xs[i], r.0.inverse, #[trigger] r.1[i])
            &&& forall|i: int| 0 <= i < k && i < w.data@.len() ==> rounding::is_product(rd, r.1[i], w.data@[i], #[trigger] ys[i])
        }),
{
    let k = input.spec_shape().last() as int;
    let (a, v, b) = choose|a: NdArray<u32>, w: NdArray<u32>, b: NdArray<u32>|
        autograd::reads_as(f, input.storage, a) && autograd::reads_as(f, layer.weight.storage, w) && #[trigger]
            rms_norm::rows_normalized(f, a, w.data@, layer.eps, b) && autograd::stored_as(f, b, t.spec_dtype(), t.storage);
    fixed::lemma_one_reading(f, input.storage, &a, &x);
    fixed::lemma_one_reading(f, layer.weight.storage, &v, &w);
    activation::lemma_whole_rows(x.shape@, x.data@.len() as int);
    let n = x.data@.len() as int / k;
    assert(0 <= row * k && row * k + k <= n * k) by (nonlinear_arith)
        requires
            0 <= row < n,
            k > 0,
    ;
    let xs = matmul::flat_row(a.data@, row, k);
    let ys = matmul::flat_row(b.data@, row, k);
    assert(rms_norm::normalized(f, xs, w.data@, layer.eps, ys));
    let inv = choose|inv: u32|
        rms_norm::inverse_rms(f, xs, layer.eps, inv) && #[trigger] rms_norm::normalized_by(f, xs, w.data@, inv, ys);
    let level = lemma_level(f, rd, xs, layer.eps, inv);
    let ms = Seq::new(
        k as nat,
        |i: int| choose|m: u32| fpu::muls(f, xs[i], inv, m) && #[trigger] fpu::muls(f, m, w.data@[i], ys[i]),
    );
    assert forall|i: int| 0 <= i < k && i < w.data@.len() implies fpu::muls(f, xs[i], inv, #[trigger] ms[i]) && fpu::muls(
        f,
        ms[i],
        w.data@[i],
        ys[i],
    ) by {
        assert(rms_norm::weighted(f, xs[i], inv, w.data@[i], ys[i]));
        let m = choose|m: u32| fpu::muls(f, xs[i], inv, m) && #[trigger] fpu::muls(f, m, w.data@[i], ys[i]);
        assert(ms[i] == m);
    }
    assert forall|i: int| 0 <= i < k && i < w.data@.len() implies rounding::is_product(
        rd,
        ms[i],
        w.data@[i],
        #[trigger] ys[i],
    ) by {
        assert(fpu::muls(f, xs[i], inv, ms[i]));
    }
    (level, ms)
}

/// The numbers on the way to the gradient of a row: the gradients times the weights, the
/// elements times the inverse level, the products of both, their partial sums, one over their
/// number, and the mean.
pub struct LevelGradient {
    pub level: Level,
    pub weighted: Seq<u32>,
    pub levelled: Seq<u32>,
    pub terms: Seq<u32>,
    pub sums: Seq<u32>,
    pub count: u32,
    pub share: u32,
    pub mean: u32,
    pub off: Seq<u32>,
    pub rest: Seq<u32>,
}

/// The gradient of an element of a row is that of its weighted result, less the levelled
/// element times the mean of the products of both over the row, times the inverse level.
#[verifier::rlimit(40)]
pub proof fn law_gradient_of_level<F: Fpu>(
    f: &F,
    rd: spec_fn(int, int) -> int,
    back: RmsNormBackward,
    g: NdArray<u32>,
    r: NdArray<u32>,
    row: int,
) -> (p: LevelGradient)
    requires
        rounding::rounds_by(f, rd),
        back.sends(f, g, 0, r),
        0 < g.shape@.last() < 0x100_0000,
        0 <= row < g.data@.len() as int / g.shape@.last() as int,
        matmul::flat_row(back.input.data@, row, g.shape@.last() as int).len() == g.shape@.last(),
    ensures
        ({
            let k = g.shape@.last() as int;
            let xs = matmul::flat_row(back.input.data@, row, k);
            let gs = matmul::flat_row(g.data@, row, k);
            let rs = matmul::flat_row(r.data@, row, k);
            let w = back.weight.data@;
            &&& is_level(rd, xs, back.eps, p.level)
            &&& p.weighted.len() == k && p.levelled.len() == k && p.terms.len() == k && p.off.len() == k && p.rest.len() == k
            &&& forall|i: int| 0 <= i < k ==> rounding::is_product(rd, gs[i], w[i], #[trigger] p.weighted[i])
            &&& forall|i: int| 0 <= i < k ==> rounding::is_product(rd, xs[i], p.level.inverse, #[trigger] p.levelled[i])
            &&& forall|i: int| 0 <= i < k ==> is_term(rd, gs[i], w[i], xs[i], p.level.inverse, #[trigger] p.terms[i])
            &&& rounding::partial_sums(rd, p.terms, p.sums)
            &&& float_bits::is_finite(p.count) && rounding::value(p.count) == k * rounding::unit()
            &&& rounding::is_quotient(rd, fpu::ONE, p.count, p.share)
            &&& rounding::is_product(rd, p.sums.last(), p.share, p.mean)
            &&& forall|i: int| 0 <= i < k ==> rounding::is_product(rd, p.levelled[i], p.mean, #[trigger] p.off[i])
            &&& forall|i: int| 0 <= i < k ==> rounding::is_difference(rd, p.weighted[i], p.off[i], #[trigger] p.rest[i])
            &&& forall|i: int| 0 <= i < k ==> rounding::is_product(rd, p.level.inverse, p.rest[i], #[trigger] rs[i])
        }),
{
    let k = g.shape@.last() as int;
    let xs = matmul::flat_row(back.input.data@, row, k);
    let gs = matmul::flat_row(g.data@, row, k);
    let rs = matmul::flat_row(r.data@, row, k);
    let w = back.weight.data@;
    rounding::lemma_constants();
    assert(rms_norm::norm_row_sends(f, gs, w, xs, back.eps, rs));
    let (inv, mean) = choose|inv: u32, mean: u32|
        rms_norm::inverse_rms(f, xs, back.eps, inv) && rms_norm::mean_term(f, gs, w, xs, inv, mean) && #[trigger]
            rms_norm::norm_slopes(f, gs, w, xs, inv, mean, rs);
    let level = lemma_level(f, rd, xs, back.eps, inv);
    let (terms, dot, count, share) = choose|terms: Seq<u32>, dot: u32, n: u32, inv_dim: u32| #[trigger]
        rms_norm::norm_terms(f, gs, w, xs, inv, terms) && rows::left_sum(f, fpu::ZERO, terms, dot) && fpu::counts(
            f,
            xs.len() as usize,
            n,
        ) && #[trigger] fpu::divs(f, fpu::ONE, n, inv_dim) && #[trigger] fpu::muls(f, dot, inv_dim, mean);
    let sums = portions::lemma_partial_sums(f, rd, terms, dot);
    rounding::lemma_count_is_exact(f, rd, xs.len() as usize, count);
    assert forall|i: int| 0 <= i < k implies is_term(rd, gs[i], w[i], xs[i], inv, #[trigger] terms[i]) by {
        assert(rms_norm::norm_term(f, gs[i], w[i], xs[i], inv, terms[i]));
        let (a, b) = choose|a: u32, b: u32|
            fpu::muls(f, gs[i], w[i], a) && fpu::muls(f, xs[i], inv, b) && #[trigger] fpu::muls(f, a, b, terms[i]);
        assert(rounding::is_product(rd, a, b, terms[i]));
    }
    let parts = Seq::new(
        k as nat,
        |i: int|
            choose|p: (u32, u32, u32, u32)| #[trigger] slope_parts(f, gs[i], w[i], xs[i], inv, mean, rs[i], p),
    );
    assert forall|i: int| 0 <= i < k implies slope_parts(f, gs[i], w[i], xs[i], inv, mean, rs[i], #[trigger] parts[i]) by {
        assert(rms_norm::norm_slope(f, gs[i], w[i], xs[i], inv, mean, rs[i]));
        let (a, b, c, d) = choose|a: u32, b: u32, c: u32, d: u32|
            fpu::muls(f, gs[i], w[i], a) && #[trigger] fpu::muls(f, xs[i], inv, b) && #[trigger] fpu::muls(f, b, mean, c)
                && #[trigger] fpu::subs(f, a, c, d) && fpu::muls(f, inv, d, rs[i]);
        assert(slope_parts(f, gs[i], w[i], xs[i], inv, mean, rs[i], (a, b, c, d)));
    }
    let p = LevelGradient {
        level,
        weighted: Seq::new(k as nat, |i: int| parts[i].0),
        levelled: Seq::new(k as nat, |i: int| parts[i].1),
        terms,
        sums,
        count,
        share,
        mean,
        off: Seq::new(k as nat, |i: int| parts[i].2),
        rest: Seq::new(k as nat, |i: int| parts[i].3),
    };
    assert forall|i: int| 0 <= i < k implies rounding::is_product(rd, inv, p.rest[i], #[trigger] rs[i]) by {
        assert(slope_parts(f, gs[i], w[i], xs[i], inv, mean, rs[i], parts[i]));
    }
    p
}

/// The gradient of a weighted element, times the levelled element.
pub open spec fn is_term(rd: spec_fn(int, int) -> int, g: u32, w: u32, x: u32, inverse: u32, r: u32) -> bool {
    exists|a: u32, b: u32|
        rounding::is_product(rd, g, w, a) && rounding::is_product(rd, x, inverse, b) && #[trigger] rounding::is_product(
            rd,
            a,
            b,
            r,
        )
}

/// The numbers on the way to the gradient of an element.
spec fn slope_parts<F: Fpu>(f: &F, g: u32, w: u32, x: u32, inv: u32, mean: u32, r: u32, p: (u32, u32, u32, u32)) -> bool {
    fpu::muls(f, g, w, p.0) && fpu::muls(f, x, inv, p.1) && fpu::muls(f, p.1, mean, p.2) && fpu::subs(f, p.0, p.2, p.3)
        && fpu::muls(f, inv, p.3, r)
}

/// The weight of a column receives the sum over all rows of the gradient times the element
/// times the inverse level of the row. The products are the result.
pub proof fn law_gradient_of_weights<F: Fpu>(
    f: &F,
    rd: spec_fn(int, int) -> int,
    back: RmsNormBackward,
    g: NdArray<u32>,
    r: NdArray<u32>,
    j: int,
) -> (terms: Seq<u32>)
    requires
        rounding::rounds_by(f, rd),
        back.sends(f, g, 1, r),
        0 < g.shape@.last() < 0x100_0000,
        0 <= j < g.shape@.last(),
        g.data@.len() == back.input.data@.len(),
        g.data@.len() as int % (g.shape@.last() as int) == 0,
    ensures
        ({
            let k = g.shape@.last() as int;
            let n = g.data@.len() as int / k;
            &&& terms.len() == n
            &&& forall|i: int|
                0 <= i < n ==> is_levelled_product(
                    rd,
                    matmul::flat_row(back.input.data@, i, k),
                    back.eps,
                    g.data@[i * k + j],
                    back.input.data@[i * k + j],
                    #[trigger] terms[i],
                )
            &&& totals::is_sum_of(rd, terms, r.data@[j])
        }),
{
    let k = g.shape@.last() as int;
    let n = g.data@.len() as int / k;
    let x = back.input.data@;
    let invs = choose|invs: Seq<u32>|
        invs.len() == n && #[trigger] rms_norm::row_inverses(f, x, k, back.eps, invs) && (forall|j: int|
            0 <= j < k ==> rms_norm::weight_sum(f, g.data@, x, k, invs, j, #[trigger] r.data@[j]));
    assert(rms_norm::weight_sum(f, g.data@, x, k, invs, j, r.data@[j]));
    let terms = choose|terms: Seq<u32>| #[trigger]
        rms_norm::weight_terms(f, g.data@, x, k, invs, j, terms) && rows::sum_in_some_order(f, terms, r.data@[j]);
    totals::lemma_sum_of(f, rd, terms, r.data@[j]);
    assert(n * k == g.data@.len()) by {
        vstd::arithmetic::div_mod::lemma_fundamental_div_mod(g.data@.len() as int, k);
        assert(k * n == n * k) by (nonlinear_arith);
    }
    assert forall|i: int| 0 <= i < n implies is_levelled_product(
        rd,
        matmul::flat_row(x, i, k),
        back.eps,
        g.data@[i * k + j],
        x[i * k + j],
        #[trigger] terms[i],
    ) by {
        assert(0 <= i * k && i * k + k <= n * k) by (nonlinear_arith)
            requires
                0 <= i < n,
                k > 0,
        ;
        assert(rms_norm::weight_term(f, g.data@[i * k + j], x[i * k + j], invs[i], terms[i]));
        let m = choose|m: u32|
            fpu::muls(f, g.data@[i * k + j], x[i * k + j], m) && #[trigger] fpu::muls(f, m, invs[i], terms[i]);
        assert(rms_norm::inverse_rms(f, matmul::flat_row(x, i, k), back.eps, invs[i]));
        let l = lemma_level(f, rd, matmul::flat_row(x, i, k), back.eps, invs[i]);
        assert(rounding::is_product(rd, m, l.inverse, terms[i]));
    }
    terms
}

/// A gradient times an element, over the level of the row.
pub open spec fn is_levelled_product(rd: spec_fn(int, int) -> int, xs: Seq<u32>, eps: u32, g: u32, x: u32, r: u32) -> bool {
    exists|l: Level, m: u32|
        is_level(rd, xs, eps, l) && rounding::is_product(rd, g, x, m) && #[trigger] rounding::is_product(rd, m, l.inverse, r)
}

} // verus!
