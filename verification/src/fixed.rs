use crate::array::NdArray;
use crate::autograd;
use crate::autograd::TensorStorage;
use crate::fpu;
use crate::fpu::Fpu;
use crate::layers::norm::rms_norm;
use crate::ops::int8_kernels;
use crate::ops::matmul;
use crate::ops::matvec;
use crate::ops::matvec::SumTree;
use crate::ops::projection;
use crate::ops::projection::WeightRows;
use crate::ops::rows;
use vstd::prelude::*;

verus! {

/// Where the processor answers alike, a sum in a given order has one value.
pub proof fn lemma_one_sum<F: Fpu>(f: &F, x: Seq<u32>, row: Seq<u32>, t: SumTree, r: u32, s: u32)
    requires
        fpu::fixed_answers(f),
        matvec::evaluates(f, x, row, t, r),
        matvec::evaluates(f, x, row, t, s),
    ensures
        r == s,
    decreases t,
{
    if let SumTree::Plus(a, b) = t {
        let (u, v) = choose|u: u32, v: u32|
            #[trigger] fpu::adds(f, u, v, r) && matvec::evaluates(f, x, row, *a, u) && matvec::evaluates(f, x, row, *b, v);
        let (p, q) = choose|u: u32, v: u32|
            #[trigger] fpu::adds(f, u, v, s) && matvec::evaluates(f, x, row, *a, u) && matvec::evaluates(f, x, row, *b, v);
        lemma_one_sum(f, x, row, *a, u, p);
        lemma_one_sum(f, x, row, *b, v, q);
    }
}

/// A sum from the left has one value.
pub proof fn lemma_one_left_sum<F: Fpu>(f: &F, start: u32, xs: Seq<u32>, r: u32, s: u32)
    requires
        fpu::fixed_answers(f),
        rows::left_sum(f, start, xs, r),
        rows::left_sum(f, start, xs, s),
    ensures
        r == s,
    decreases xs.len(),
{
    if xs.len() > 0 {
        let m = choose|m: u32| rows::left_sum(f, start, xs.drop_last(), m) && #[trigger] fpu::adds(f, m, xs.last(), r);
        let n = choose|m: u32| rows::left_sum(f, start, xs.drop_last(), m) && #[trigger] fpu::adds(f, m, xs.last(), s);
        lemma_one_left_sum(f, start, xs.drop_last(), m, n);
    }
}

/// What is stored has one reading.
pub proof fn lemma_one_reading<F: Fpu>(f: &F, s: TensorStorage, a: &NdArray<u32>, b: &NdArray<u32>)
    requires
        fpu::fixed_answers(f),
        autograd::reads_as(f, s, *a),
        autograd::reads_as(f, s, *b),
    ensures
        a.shape@ == b.shape@,
        a.data@ == b.data@,
{
    assert(a.data@.len() == b.data@.len());
    assert forall|i: int| 0 <= i < a.data@.len() implies #[trigger] a.data@[i] == b.data@[i] by {
        if let TensorStorage::I8(x, step) = s {
            assert(autograd::byte_reads_as(f, x.data@[i], step, a.data@[i]));
            assert(autograd::byte_reads_as(f, x.data@[i], step, b.data@[i]));
        }
    }
    assert(a.data@ =~= b.data@);
}

/// Values that are scaled by the same factor are scaled alike.
pub proof fn lemma_one_scaling<F: Fpu>(f: &F, xs: Seq<u32>, factor: u32, ys: Seq<u32>, zs: Seq<u32>)
    requires
        fpu::fixed_answers(f),
        rows::scaled_by(f, xs, factor, ys),
        rows::scaled_by(f, xs, factor, zs),
    ensures
        ys == zs,
{
    assert forall|i: int| 0 <= i < ys.len() implies #[trigger] ys[i] == zs[i] by {
        assert(fpu::muls(f, xs[i], factor, ys[i]) && fpu::muls(f, xs[i], factor, zs[i]));
    }
    assert(ys =~= zs);
}

/// What has the same rows has the same elements.
pub proof fn lemma_same_rows(a: Seq<u32>, b: Seq<u32>, n: int, k: int)
    requires
        0 < k,
        a.len() == b.len() == n * k,
        forall|i: int| 0 <= i < n ==> #[trigger] matmul::flat_row(a, i, k) == matmul::flat_row(b, i, k),
    ensures
        a == b,
{
    assert forall|p: int| 0 <= p < a.len() implies #[trigger] a[p] == b[p] by {
        let i = p / k;
        let j = p % k;
        assert(0 <= i < n && 0 <= j < k && p == i * k + j && i * k + k <= n * k) by (nonlinear_arith)
            requires
                0 <= p < n * k,
                0 < k,
                i == p / k,
                j == p % k,
        ;
        assert(matmul::flat_row(a, i, k) == matmul::flat_row(b, i, k));
        assert(matmul::flat_row(a, i, k)[j] == a[p] && matmul::flat_row(b, i, k)[j] == b[p]);
    }
    assert(a =~= b);
}

/// A row has one inverse root mean square.
proof fn lemma_one_inverse_rms<F: Fpu>(f: &F, xs: Seq<u32>, eps: u32, r: u32, s: u32)
    requires
        fpu::fixed_answers(f),
        rms_norm::inverse_rms(f, xs, eps, r),
        rms_norm::inverse_rms(f, xs, eps, s),
    ensures
        r == s,
{
    let (q1, a1, r1) = choose|q: u32, a: u32, m: u32|
        rms_norm::mean_square(f, xs, q) && #[trigger] fpu::adds(f, q, eps, a) && #[trigger] fpu::sqrts(f, a, m) && fpu::divs(
            f,
            fpu::ONE,
            m,
            r,
        );
    let (q2, a2, r2) = choose|q: u32, a: u32, m: u32|
        rms_norm::mean_square(f, xs, q) && #[trigger] fpu::adds(f, q, eps, a) && #[trigger] fpu::sqrts(f, a, m) && fpu::divs(
            f,
            fpu::ONE,
            m,
            s,
        );
    let (sq1, s1, n1) = choose|sq: Seq<u32>, t: u32, n: u32| #[trigger]
        rms_norm::squares(f, xs, sq) && rows::left_sum(f, fpu::ZERO, sq, t) && fpu::counts(f, xs.len() as usize, n)
            && #[trigger] fpu::divs(f, t, n, q1);
    let (sq2, s2, n2) = choose|sq: Seq<u32>, t: u32, n: u32| #[trigger]
        rms_norm::squares(f, xs, sq) && rows::left_sum(f, fpu::ZERO, sq, t) && fpu::counts(f, xs.len() as usize, n)
            && #[trigger] fpu::divs(f, t, n, q2);
    assert forall|i: int| 0 <= i < sq1.len() implies #[trigger] sq1[i] == sq2[i] by {
        assert(fpu::muls(f, xs[i], xs[i], sq1[i]) && fpu::muls(f, xs[i], xs[i], sq2[i]));
    }
    assert(sq1 =~= sq2);
    lemma_one_left_sum(f, fpu::ZERO, sq1, s1, s2);
    assert(n1 == n2);
    assert(q1 == q2);
    assert(a1 == a2);
    assert(r1 == r2);
}

/// A row is normalized in one way.
pub proof fn lemma_one_normalized<F: Fpu>(f: &F, xs: Seq<u32>, w: Seq<u32>, eps: u32, ys: Seq<u32>, zs: Seq<u32>)
    requires
        fpu::fixed_answers(f),
        rms_norm::normalized(f, xs, w, eps, ys),
        rms_norm::normalized(f, xs, w, eps, zs),
    ensures
        ys == zs,
{
    let i1 = choose|inv: u32| rms_norm::inverse_rms(f, xs, eps, inv) && #[trigger] rms_norm::normalized_by(f, xs, w, inv, ys);
    let i2 = choose|inv: u32| rms_norm::inverse_rms(f, xs, eps, inv) && #[trigger] rms_norm::normalized_by(f, xs, w, inv, zs);
    lemma_one_inverse_rms(f, xs, eps, i1, i2);
    assert forall|i: int| 0 <= i < ys.len() implies #[trigger] ys[i] == zs[i] by {
        if i < w.len() {
            assert(rms_norm::weighted(f, xs[i], i1, w[i], ys[i]));
            assert(rms_norm::weighted(f, xs[i], i1, w[i], zs[i]));
        } else {
            assert(ys[i] == fpu::ZERO && zs[i] == fpu::ZERO);
        }
    }
    assert(ys =~= zs);
}

/// The product with a row of weights has one value.
pub proof fn lemma_one_row_dot<F: Fpu>(f: &F, x: Seq<u32>, w: WeightRows, i: int, r: u32, s: u32)
    requires
        fpu::fixed_answers(f),
        projection::row_dot(f, x, w, i, r),
        projection::row_dot(f, x, w, i, s),
    ensures
        r == s,
{
    match w {
        WeightRows::Single(a) => {
            let n = a.shape@[0] as int;
            let row = matvec::row_of(a.data@, i, a.shape@[1] as int);
            lemma_one_sum(f, x, row, matvec::row_tree(n, x.len() as int), r, s);
        },
        WeightRows::Bytes(a, step) => {
            let row = a.data@.subrange(i * a.shape@[1], i * a.shape@[1] + a.shape@[1]);
            assert(int8_kernels::scaled_dot(f, x, row, step, r) && int8_kernels::scaled_dot(f, x, row, step, s));
        },
    }
}

/// The logistic function has one value.
pub proof fn lemma_one_logistic<F: Fpu>(f: &F, x: u32, r: u32, s: u32)
    requires
        fpu::fixed_answers(f),
        fpu::is_logistic(f, x, r),
        fpu::is_logistic(f, x, s),
    ensures
        r == s,
{
    let (e1, d1) = choose|e: u32, d: u32|
        fpu::exps(f, fpu::negated(x) as u32, e) && #[trigger] fpu::adds(f, fpu::ONE, e, d) && fpu::divs(f, fpu::ONE, d, r);
    let (e2, d2) = choose|e: u32, d: u32|
        fpu::exps(f, fpu::negated(x) as u32, e) && #[trigger] fpu::adds(f, fpu::ONE, e, d) && fpu::divs(f, fpu::ONE, d, s);
    assert(e1 == e2);
    assert(d1 == d2);
}

} // verus!
