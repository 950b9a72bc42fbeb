use crate::array::NdArray;
use crate::autograd;
use crate::autograd::{GradMode, Tensor};
use crate::fixed;
use crate::float_bits;
use crate::fpu;
use crate::fpu::Fpu;
use crate::layers::activation;
use crate::layers::activation::SoftmaxBackward;
use crate::layers::shares;
use crate::ops::matmul;
use crate::ops::rows;
use crate::rounding;
use vstd::prelude::*;

verus! {

/// The numbers on the way from a row to its portions: the greatest element, the distances
/// from it, their exponentials, the partial sums of these, and the inverse of the last sum.
pub struct Portions {
    pub greatest: u32,
    pub distances: Seq<u32>,
    pub exponentials: Seq<u32>,
    pub sums: Seq<u32>,
    pub inverse: u32,
}

/// The sums from left to right, one after the other.
pub proof fn lemma_partial_sums<F: Fpu>(f: &F, rd: spec_fn(int, int) -> int, xs: Seq<u32>, s: u32) -> (ps: Seq<u32>)
    requires
        rounding::rounds_by(f, rd),
        rows::left_sum(f, fpu::ZERO, xs, s),
    ensures
        rounding::partial_sums(rd, xs, ps),
        ps.last() == s,
    decreases xs.len(),
{
    if xs.len() == 0 {
        seq![fpu::ZERO]
    } else {
        let before = xs.drop_last();
        let m = choose|m: u32| rows::left_sum(f, fpu::ZERO, before, m) && #[trigger] fpu::adds(f, m, xs.last(), s);
        let qs = lemma_partial_sums(f, rd, before, m);
        let ps = qs.push(s);
        let k = xs.len() - 1;
        assert forall|i: int| 0 <= i < xs.len() implies rounding::is_sum(rd, ps[i], #[trigger] xs[i], ps[i + 1]) by {
            if i < k {
                assert(before[i] == xs[i]);
                assert(rounding::is_sum(rd, qs[i], before[i], qs[i + 1]));
            } else {
                assert(ps[i] == m && ps[i + 1] == s);
            }
        }
        ps
    }
}

/// The greatest element and the distances from it, with their exponentials and the sums.
pub open spec fn weighs<F: Fpu>(f: &F, rd: spec_fn(int, int) -> int, xs: Seq<u32>, p: Portions) -> bool {
    &&& xs.contains(p.greatest)
    &&& forall|j: int| 0 <= j < xs.len() ==> rounding::value(#[trigger] xs[j]) <= rounding::value(p.greatest)
    &&& p.distances.len() == xs.len()
    &&& p.exponentials.len() == xs.len()
    &&& forall|j: int| 0 <= j < xs.len() ==> rounding::is_difference(rd, xs[j], p.greatest, #[trigger] p.distances[j])
    &&& forall|j: int| 0 <= j < xs.len() ==> fpu::exps(f, p.distances[j], #[trigger] p.exponentials[j])
    &&& rounding::partial_sums(rd, p.exponentials, p.sums)
}

/// A row is shared out: each element has the portion of its exponential in the sum of all.
pub open spec fn shares_out<F: Fpu>(f: &F, rd: spec_fn(int, int) -> int, xs: Seq<u32>, p: Portions, ys: Seq<u32>) -> bool {
    &&& weighs(f, rd, xs, p)
    &&& rounding::is_quotient(rd, fpu::ONE, p.sums.last(), p.inverse)
    &&& ys.len() == xs.len()
    &&& forall|j: int| 0 <= j < xs.len() ==> rounding::is_product(rd, p.exponentials[j], p.inverse, #[trigger] ys[j])
}

/// The exponentials of a row, in numbers.
pub proof fn lemma_weighs<F: Fpu>(f: &F, rd: spec_fn(int, int) -> int, xs: Seq<u32>, es: Seq<u32>, total: u32) -> (p: Portions)
    requires
        rounding::rounds_by(f, rd),
        xs.len() > 0,
        forall|j: int| 0 <= j < xs.len() ==> float_bits::is_finite(#[trigger] xs[j]),
        rows::exponentials(f, xs, es, total),
    ensures
        weighs(f, rd, xs, p),
        p.exponentials == es,
        p.sums.last() == total,
{
    let k = shares::lemma_greatest(xs);
    let m = rows::row_max(xs);
    assert(xs[k] == m);
    let ds = Seq::new(xs.len(), |j: int| choose|d: u32| fpu::subs(f, xs[j], m, d) && #[trigger] fpu::exps(f, d, es[j]));
    assert forall|j: int| 0 <= j < xs.len() implies fpu::subs(f, xs[j], m, #[trigger] ds[j]) && fpu::exps(f, ds[j], es[j]) by {
        assert(rows::shifted_exp(f, xs[j], m, es[j]));
        let d = choose|d: u32| fpu::subs(f, xs[j], m, d) && #[trigger] fpu::exps(f, d, es[j]);
        assert(ds[j] == d);
    }
    assert forall|j: int| 0 <= j < xs.len() implies rounding::value(#[trigger] xs[j]) <= rounding::value(m) by {
        assert(float_bits::at_most(xs[j], m));
        rounding::lemma_values_order(xs[j], m);
    }
    assert forall|j: int| 0 <= j < xs.len() implies fpu::exps(f, ds[j], #[trigger] es[j]) by {
        assert(fpu::subs(f, xs[j], m, ds[j]));
    }
    let sums = lemma_partial_sums(f, rd, es, total);
    Portions { greatest: m, distances: ds, exponentials: es, sums, inverse: fpu::ONE }
}

/// A softmax of a row, in numbers.
pub proof fn lemma_shares_out<F: Fpu>(f: &F, rd: spec_fn(int, int) -> int, xs: Seq<u32>, ys: Seq<u32>) -> (p: Portions)
    requires
        rounding::rounds_by(f, rd),
        xs.len() > 0,
        forall|j: int| 0 <= j < xs.len() ==> float_bits::is_finite(#[trigger] xs[j]),
        rows::is_softmax(f, xs, ys),
    ensures
        shares_out(f, rd, xs, p, ys),
{
    let (es, total, inv) = choose|es: Seq<u32>, total: u32, inv: u32|
        #[trigger] rows::exponentials(f, xs, es, total) && #[trigger] fpu::divs(f, fpu::ONE, total, inv) && rows::scaled_by(
            f,
            es,
            inv,
            ys,
        );
    let p = lemma_weighs(f, rd, xs, es, total);
    rounding::lemma_constants();
    let q = Portions { inverse: inv, ..p };
    assert forall|j: int| 0 <= j < xs.len() implies rounding::is_product(rd, q.exponentials[j], inv, #[trigger] ys[j]) by {
        assert(fpu::muls(f, es[j], inv, ys[j]));
    }
    q
}

/// Softmax shares one out among the elements of a row of finite numbers by their exponentials,
/// taken from the greatest element on: `exp(x - greatest)` over the sum of all of these. Each
/// operation rounds.
pub proof fn law_one_is_shared_out<F: Fpu>(
    f: &F,
    rd: spec_fn(int, int) -> int,
    input: Tensor,
    mode: GradMode,
    t: Tensor,
    x: NdArray<u32>,
    row: int,
) -> (p: Portions)
    requires
        rounding::rounds_by(f, rd),
        fpu::fixed_answers(f),
        input.wf(),
        input.spec_shape().len() > 0,
        input.spec_shape().last() > 0,
        autograd::reads_as(f, input.storage, x),
        activation::softmax_result(f, input, mode, t),
        t.storage is F32,
        0 <= row < x.data@.len() as int / input.spec_shape().last() as int,
        shares::row_finite(matmul::flat_row(x.data@, row, input.spec_shape().last() as int)),
    ensures
        shares_out(
            f,
            rd,
            matmul::flat_row(x.data@, row, input.spec_shape().last() as int),
            p,
            matmul::flat_row(t.storage->F32_0.data@, row, input.spec_shape().last() as int),
        ),
{
    let k = input.spec_shape().last() as int;
    let (a, b) = choose|a: NdArray<u32>, b: NdArray<u32>|
        autograd::reads_as(f, input.storage, a) && #[trigger] activation::rows_softmaxed(f, a, b) && autograd::stored_as(
            f,
            b,
            t.spec_dtype(),
            t.storage,
        );
    fixed::lemma_one_reading(f, input.storage, &a, &x);
    activation::lemma_whole_rows(x.shape@, x.data@.len() as int);
    let n = x.data@.len() as int / k;
    assert(0 <= row * k && row * k + k <= n * k) by (nonlinear_arith)
        requires
            0 <= row < n,
            k > 0,
    ;
    let xs = matmul::flat_row(a.data@, row, k);
    let ys = matmul::flat_row(b.data@, row, k);
    assert(rows::is_softmax(f, xs, ys));
    lemma_shares_out(f, rd, xs, ys)
}

/// The gradient of a portion is the portion times what its own gradient has over the mean of
/// all gradients, weighted by the portions: `y (g - y . g)`. The mean is the result `r.0`.
pub proof fn law_portions_share_gradients<F: Fpu>(
    f: &F,
    rd: spec_fn(int, int) -> int,
    back: SoftmaxBackward,
    g: NdArray<u32>,
    r: NdArray<u32>,
    row: int,
) -> (p: (u32, Seq<u32>))
    requires
        rounding::rounds_by(f, rd),
        back.sends(f, g, r),
        0 <= row < g.data@.len() as int / g.shape@.last() as int,
    ensures
        ({
            let k = g.shape@.last() as int;
            let ys = matmul::flat_row(back.output.data@, row, k);
            let gs = matmul::flat_row(g.data@, row, k);
            let rs = matmul::flat_row(r.data@, row, k);
            &&& fpu::dots(f, ys, gs, p.0)
            &&& p.1.len() == ys.len()
            &&& forall|j: int| 0 <= j < ys.len() ==> rounding::is_difference(rd, gs[j], p.0, #[trigger] p.1[j])
            &&& forall|j: int| 0 <= j < ys.len() ==> rounding::is_product(rd, ys[j], p.1[j], #[trigger] rs[j])
        }),
{
    let k = g.shape@.last() as int;
    let ys = matmul::flat_row(back.output.data@, row, k);
    let gs = matmul::flat_row(g.data@, row, k);
    let rs = matmul::flat_row(r.data@, row, k);
    assert(activation::softmax_row_sends(f, ys, gs, rs));
    let d = choose|d: u32| #[trigger]
        fpu::dots(f, ys, gs, d) && forall|i: int|
            0 <= i < ys.len() ==> activation::shifted_product(f, ys[i], gs[i], d, #[trigger] rs[i]);
    let ss = Seq::new(ys.len(), |j: int| choose|s: u32| fpu::subs(f, gs[j], d, s) && #[trigger] fpu::muls(f, ys[j], s, rs[j]));
    assert forall|j: int| 0 <= j < ys.len() implies fpu::subs(f, gs[j], d, #[trigger] ss[j]) && fpu::muls(f, ys[j], ss[j], rs[j]) by {
        assert(activation::shifted_product(f, ys[j], gs[j], d, rs[j]));
        let s = choose|s: u32| fpu::subs(f, gs[j], d, s) && #[trigger] fpu::muls(f, ys[j], s, rs[j]);
        assert(ss[j] == s);
    }
    assert forall|j: int| 0 <= j < ys.len() implies rounding::is_product(rd, ys[j], ss[j], #[trigger] rs[j]) by {
        assert(fpu::subs(f, gs[j], d, ss[j]));
    }
    (d, ss)
}

} // verus!
