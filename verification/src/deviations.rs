use crate::array::NdArray;
use crate::autograd;
use crate::autograd::{GradMode, Tensor};
use crate::constants;
use crate::fixed;
use crate::float_bits;
use crate::fpu;
use crate::fpu::Fpu;
use crate::layers::attention::encoding::TWO;
use crate::layers::portions;
use crate::layers::shares;
use crate::loss;
use crate::loss::{CrossEntropyBackward, MseBackward};
use crate::ops::matmul;
use crate::rounding;
use vstd::prelude::*;

verus! {

/// The numbers on the way to a mean of squares: the differences, their squares, the sum of
/// these, and how many there are.
pub struct Squares {
    pub differences: Seq<u32>,
    pub squares: Seq<u32>,
    pub sum: u32,
    pub count: u32,
}

/// The error of an output is the mean of the squares of its differences from the target: each
/// difference is multiplied by itself, and the processor's sum of these is divided by how many
/// they are.
#[verifier::rlimit(40)]
pub proof fn law_mean_of_squares<F: Fpu>(
    f: &F,
    rd: spec_fn(int, int) -> int,
    output: Tensor,
    target: Tensor,
    mode: GradMode,
    t: Tensor,
    a: NdArray<u32>,
    b: NdArray<u32>,
) -> (r: Squares)
    requires
        rounding::rounds_by(f, rd),
        fpu::fixed_answers(f),
        loss::mse_result(f, output, target, mode, t),
        autograd::reads_as(f, output.storage, a),
        autograd::reads_as(f, target.storage, b),
        a.data@.len() == b.data@.len(),
        0 < a.data@.len() < 0x100_0000,
    ensures
        r.differences.len() == a.data@.len(),
        r.squares.len() == a.data@.len(),
        forall|i: int|
            0 <= i < a.data@.len() ==> rounding::is_difference(rd, a.data@[i], b.data@[i], #[trigger] r.differences[i]),
        forall|i: int|
            0 <= i < a.data@.len() ==> rounding::is_product(rd, r.differences[i], r.differences[i], #[trigger] r.squares[i]),
        fpu::sums(f, r.squares, r.sum),
        float_bits::is_finite(r.count),
        rounding::value(r.count) == a.data@.len() * rounding::unit(),
        t.storage is F32,
        t.storage->F32_0.data@.len() == 1,
        rounding::is_quotient(rd, r.sum, r.count, t.storage->F32_0.data@[0]),
{
    let (x, y, v, c) = choose|a: NdArray<u32>, b: NdArray<u32>, v: u32, r: NdArray<u32>|
        autograd::reads_as(f, output.storage, a) && autograd::reads_as(f, target.storage, b) && #[trigger] loss::mean_squared(
            f,
            a.data@,
            b.data@,
            v,
        ) && #[trigger] loss::is_scalar(r, v) && t.storage == autograd::TensorStorage::F32(std::sync::Arc::new(r));
    fixed::lemma_one_reading(f, output.storage, &x, &a);
    fixed::lemma_one_reading(f, target.storage, &y, &b);
    let (p, q) = (a.data@, b.data@);
    let (squares, sum, count) = choose|sq: Seq<u32>, s: u32, n: u32| #[trigger]
        loss::squared_differences(f, p, q, sq) && #[trigger] fpu::sums(f, sq, s) && fpu::counts(f, p.len() as usize, n)
            && #[trigger] fpu::divs(f, s, n, v);
    let differences = Seq::new(
        p.len(),
        |i: int| choose|d: u32| fpu::subs(f, p[i], q[i], d) && #[trigger] fpu::muls(f, d, d, squares[i]),
    );
    assert forall|i: int| 0 <= i < p.len() implies fpu::subs(f, p[i], q[i], #[trigger] differences[i]) && fpu::muls(
        f,
        differences[i],
        differences[i],
        squares[i],
    ) by {
        assert(loss::squared_difference(f, p[i], q[i], squares[i]));
        let d = choose|d: u32| fpu::subs(f, p[i], q[i], d) && #[trigger] fpu::muls(f, d, d, squares[i]);
        assert(differences[i] == d);
    }
    assert forall|i: int| 0 <= i < p.len() implies rounding::is_product(
        rd,
        differences[i],
        differences[i],
        #[trigger] squares[i],
    ) by {
        assert(fpu::subs(f, p[i], q[i], differences[i]));
    }
    rounding::lemma_count_is_exact(f, rd, p.len() as usize, count);
    Squares { differences, squares, sum, count }
}

/// The numbers on the way to the gradient of a mean: how many there are, the factor of a
/// single difference, the same with the gradient of the mean, and the differences.
pub struct Sent {
    pub count: u32,
    pub quotient: u32,
    pub factor: u32,
    pub differences: Seq<u32>,
}

/// Each output element receives twice its difference from the target, over how many elements
/// there are, times the gradient of the error; the target receives the opposite.
#[verifier::rlimit(40)]
pub proof fn law_gradient_of_squares<F: Fpu>(
    f: &F,
    rd: spec_fn(int, int) -> int,
    back: MseBackward,
    g: NdArray<u32>,
    p: int,
    r: NdArray<u32>,
) -> (s: Sent)
    requires
        rounding::rounds_by(f, rd),
        back.sends(f, g, p, r),
        0 < back.output.data@.len() < 0x100_0000,
    ensures
        float_bits::is_finite(s.count),
        rounding::value(s.count) == back.output.data@.len() * rounding::unit(),
        rounding::value(TWO) == 2 * rounding::unit(),
        rounding::is_quotient(rd, TWO, s.count, s.quotient),
        rounding::is_product(rd, s.quotient, g.data@[0], s.factor),
        s.differences.len() == back.output.data@.len(),
        r.data@.len() == back.output.data@.len(),
        forall|i: int|
            0 <= i < r.data@.len() ==> rounding::is_difference(
                rd,
                back.output.data@[i],
                back.target.data@[i],
                #[trigger] s.differences[i],
            ),
        p == 0 ==> forall|i: int|
            0 <= i < r.data@.len() ==> rounding::is_product(rd, s.differences[i], s.factor, #[trigger] r.data@[i]),
        p != 0 ==> forall|i: int|
            0 <= i < r.data@.len() && float_bits::is_finite(s.differences[i]) && float_bits::is_finite(s.factor)
                ==> rounding::value(#[trigger] r.data@[i]) == -rd(
                rounding::value(s.differences[i]) * rounding::value(s.factor),
                rounding::unit(),
            ),
{
    constants::law_constants_are_exact();
    let (a, b) = (back.output.data@, back.target.data@);
    let d = if p == 0 {
        r.data@
    } else {
        choose|d: Seq<u32>| #[trigger] back.direct(f, g.data@[0], d) && loss::opposite(d, r.data@)
    };
    let factor = choose|factor: u32| #[trigger]
        loss::mse_factor(f, a.len() as usize, g.data@[0], factor) && loss::scaled_differences(f, a, b, factor, d);
    let (count, quotient) = choose|n: u32, q: u32|
        fpu::counts(f, a.len() as usize, n) && #[trigger] fpu::divs(f, TWO, n, q) && fpu::muls(f, q, g.data@[0], factor);
    rounding::lemma_count_is_exact(f, rd, a.len() as usize, count);
    let differences = lemma_differences(f, a, b, factor, d);
    assert forall|i: int| 0 <= i < a.len() implies rounding::is_difference(rd, a[i], b[i], #[trigger] differences[i])
        && rounding::is_product(rd, differences[i], factor, d[i]) by {}
    assert forall|i: int| 0 <= i < a.len() implies rounding::is_product(rd, differences[i], factor, #[trigger] d[i]) by {
        assert(rounding::is_difference(rd, a[i], b[i], differences[i]));
    }
    if p != 0 {
        assert forall|i: int|
            0 <= i < r.data@.len() && float_bits::is_finite(differences[i]) && float_bits::is_finite(
                factor,
            ) implies rounding::value(#[trigger] r.data@[i]) == -rd(
            rounding::value(differences[i]) * rounding::value(factor),
            rounding::unit(),
        ) by {
            let n = rounding::lemma_negated(d[i]);
            assert(rounding::is_product(rd, differences[i], factor, d[i]));
        }
    }
    Sent { count, quotient, factor, differences }
}

/// The differences behind scaled ones.
proof fn lemma_differences<F: Fpu>(f: &F, a: Seq<u32>, b: Seq<u32>, factor: u32, r: Seq<u32>) -> (ds: Seq<u32>)
    requires
        loss::scaled_differences(f, a, b, factor, r),
    ensures
        ds.len() == a.len(),
        r.len() == a.len(),
        forall|i: int| 0 <= i < a.len() ==> fpu::subs(f, a[i], b[i], #[trigger] ds[i]) && fpu::muls(f, ds[i], factor, r[i]),
{
    let ds = Seq::new(a.len(), |i: int| choose|d: u32| fpu::subs(f, a[i], b[i], d) && #[trigger] fpu::muls(f, d, factor, r[i]));
    assert forall|i: int| 0 <= i < a.len() implies fpu::subs(f, a[i], b[i], #[trigger] ds[i]) && fpu::muls(f, ds[i], factor, r[i]) by {
        assert(loss::scaled_difference(f, a[i], b[i], factor, r[i]));
        let d = choose|d: u32| fpu::subs(f, a[i], b[i], d) && #[trigger] fpu::muls(f, d, factor, r[i]);
        assert(ds[i] == d);
    }
    ds
}

/// One element is taken off: the target times the logarithm of the probability, which is
/// raised by a billionth.
pub open spec fn takes_off<F: Fpu>(f: &F, rd: spec_fn(int, int) -> int, before: u32, t: u32, p: u32, after: u32) -> bool {
    if !float_bits::is_nan(t) && rounding::value(t) > 0 {
        exists|a: u32, l: u32, m: u32|
            rounding::is_sum(rd, p, loss::PROBABILITY_FLOOR, a) && #[trigger] fpu::lns(f, a, l) && #[trigger] rounding::is_product(
                rd,
                t,
                l,
                m,
            ) && rounding::is_difference(rd, before, m, after)
    } else {
        after == before
    }
}

/// The elements of a row are taken off from zero, one after the other.
pub open spec fn taken_off<F: Fpu>(f: &F, rd: spec_fn(int, int) -> int, ps: Seq<u32>, ts: Seq<u32>, accs: Seq<u32>) -> bool {
    &&& accs.len() == ps.len() + 1
    &&& accs[0] == fpu::ZERO
    &&& forall|i: int| 0 <= i < ps.len() ==> takes_off(f, rd, accs[i], ts[i], #[trigger] ps[i], accs[i + 1])
}

#[verifier::rlimit(40)]
proof fn lemma_taken_off<F: Fpu>(f: &F, rd: spec_fn(int, int) -> int, ps: Seq<u32>, ts: Seq<u32>, r: u32) -> (accs: Seq<u32>)
    requires
        rounding::rounds_by(f, rd),
        ps.len() == ts.len(),
        loss::row_loss(f, ps, ts, r),
    ensures
        taken_off(f, rd, ps, ts, accs),
        accs.last() == r,
    decreases ps.len(),
{
    if ps.len() == 0 {
        seq![fpu::ZERO]
    } else {
        let (p0, t0) = (ps.drop_last(), ts.drop_last());
        let acc = choose|acc: u32|
            loss::row_loss(f, p0, t0, acc) && #[trigger] loss::next_loss(f, acc, ts.last(), ps.last(), r);
        let before = lemma_taken_off(f, rd, p0, t0, acc);
        let accs = before.push(r);
        let k = ps.len() - 1;
        rounding::lemma_constants();
        rounding::lemma_finite_is_number(fpu::ZERO);
        if !float_bits::is_nan(ts[k]) {
            rounding::lemma_values_order(ts[k], fpu::ZERO);
        }
        assert(takes_off(f, rd, acc, ts[k], ps[k], r)) by {
            if float_bits::above(ts[k], fpu::ZERO) {
                let (a, l, m) = choose|a: u32, l: u32, m: u32|
                    fpu::adds(f, ps[k], loss::PROBABILITY_FLOOR, a) && #[trigger] fpu::lns(f, a, l) && #[trigger] fpu::muls(
                        f,
                        ts[k],
                        l,
                        m,
                    ) && fpu::subs(f, acc, m, r);
                assert(rounding::is_product(rd, ts[k], l, m));
            }
        }
        assert forall|i: int| 0 <= i < ps.len() implies takes_off(f, rd, accs[i], ts[i], #[trigger] ps[i], accs[i + 1]) by {
            if i < k {
                assert(p0[i] == ps[i] && t0[i] == ts[i]);
                assert(takes_off(f, rd, before[i], t0[i], p0[i], before[i + 1]));
            } else {
                assert(accs[i] == acc && accs[i + 1] == r);
            }
        }
        accs
    }
}

/// One is shared out among the elements of a row by softmax.
pub open spec fn is_shared_out<F: Fpu>(f: &F, rd: spec_fn(int, int) -> int, xs: Seq<u32>, ys: Seq<u32>) -> bool {
    exists|p: portions::Portions| portions::shares_out(f, rd, xs, p, ys)
}

/// `r` is the loss of a row of probabilities.
pub open spec fn is_row_loss<F: Fpu>(f: &F, rd: spec_fn(int, int) -> int, ps: Seq<u32>, ts: Seq<u32>, r: u32) -> bool {
    exists|accs: Seq<u32>| #[trigger] taken_off(f, rd, ps, ts, accs) && accs.last() == r
}

/// The numbers on the way to a cross entropy.
pub struct Entropy {
    pub probs: Seq<u32>,
    pub losses: Seq<u32>,
    pub sum: u32,
    pub count: u32,
}

/// The cross entropy of logits with targets: each row of finite logits is shared out by
/// softmax; for every target above zero, the target times the logarithm of the portion is
/// taken off the loss of the row; and the losses of the rows are averaged.
#[verifier::rlimit(40)]
pub proof fn law_cross_entropy<F: Fpu>(
    f: &F,
    rd: spec_fn(int, int) -> int,
    logits: Tensor,
    targets: Tensor,
    mode: GradMode,
    t: Tensor,
    a: NdArray<u32>,
    b: NdArray<u32>,
) -> (r: Entropy)
    requires
        rounding::rounds_by(f, rd),
        fpu::fixed_answers(f),
        loss::entropy_shapes(logits.spec_shape(), targets.spec_shape()),
        loss::entropy_result(f, logits, targets, mode, t),
        autograd::reads_as(f, logits.storage, a),
        autograd::reads_as(f, targets.storage, b),
        0 < logits.spec_shape()[0] < 0x100_0000,
        0 < logits.spec_shape()[1],
    ensures
        ({
            let n = logits.spec_shape()[0] as int;
            let d = logits.spec_shape()[1] as int;
            &&& r.probs.len() == n * d
            &&& r.losses.len() == n
            &&& forall|i: int|
                0 <= i < n && shares::row_finite(matmul::flat_row(a.data@, i, d)) ==> is_shared_out(
                    f,
                    rd,
                    matmul::flat_row(a.data@, i, d),
                    #[trigger] matmul::flat_row(r.probs, i, d),
                )
            &&& forall|i: int|
                0 <= i < n ==> is_row_loss(
                    f,
                    rd,
                    matmul::flat_row(r.probs, i, d),
                    matmul::flat_row(b.data@, i, d),
                    #[trigger] r.losses[i],
                )
            &&& constants::is_nearest(loss::PROBABILITY_FLOOR, 1, 1_000_000_000)
            &&& fpu::sums(f, r.losses, r.sum)
            &&& float_bits::is_finite(r.count)
            &&& rounding::value(r.count) == n * rounding::unit()
            &&& t.storage is F32
            &&& t.storage->F32_0.data@.len() == 1
            &&& rounding::is_quotient(rd, r.sum, r.count, t.storage->F32_0.data@[0])
        }),
{
    constants::law_constants_are_nearest();
    let n = logits.spec_shape()[0];
    let d = logits.spec_shape()[1] as int;
    let probs = choose|probs: Seq<u32>| loss::entropy_stored(f, logits, targets, probs, t.storage);
    assert(loss::entropy_stored(f, logits, targets, probs, t.storage));
    let (x, y, losses, v, c) = choose|a: NdArray<u32>, b: NdArray<u32>, losses: Seq<u32>, v: u32, r: NdArray<u32>|
        autograd::reads_as(f, logits.storage, a) && autograd::reads_as(f, targets.storage, b) && #[trigger] loss::entropy_rows(
            f,
            n as int,
            d,
            a.data@,
            b.data@,
            probs,
            losses,
        ) && #[trigger] loss::mean_loss(f, losses, n, v) && #[trigger] loss::is_scalar(r, v) && t.storage
            == autograd::TensorStorage::F32(std::sync::Arc::new(r));
    fixed::lemma_one_reading(f, logits.storage, &x, &a);
    fixed::lemma_one_reading(f, targets.storage, &y, &b);
    assert forall|i: int| 0 <= i < n && shares::row_finite(matmul::flat_row(a.data@, i, d)) implies is_shared_out(
        f,
        rd,
        matmul::flat_row(a.data@, i, d),
        #[trigger] matmul::flat_row(probs, i, d),
    ) by {
        lemma_row_inside(i, n as int, d);
        let p = portions::lemma_shares_out(f, rd, matmul::flat_row(a.data@, i, d), matmul::flat_row(probs, i, d));
    }
    assert forall|i: int| 0 <= i < n implies is_row_loss(
        f,
        rd,
        matmul::flat_row(probs, i, d),
        matmul::flat_row(b.data@, i, d),
        #[trigger] losses[i],
    ) by {
        lemma_row_inside(i, n as int, d);
        let accs = lemma_taken_off(f, rd, matmul::flat_row(probs, i, d), matmul::flat_row(b.data@, i, d), losses[i]);
    }
    let (sum, count) = choose|s: u32, c: u32|
        fpu::sums(f, losses, s) && fpu::counts(f, n, c) && #[trigger] fpu::divs(f, s, c, v);
    rounding::lemma_count_is_exact(f, rd, n, count);
    Entropy { probs, losses, sum, count }
}

/// A row lies inside.
proof fn lemma_row_inside(i: int, n: int, d: int)
    requires
        0 <= i < n,
        0 < d,
    ensures
        0 <= i * d,
        i * d + d <= n * d,
{
    assert(0 <= i * d && i * d + d <= n * d) by (nonlinear_arith)
        requires
            0 <= i < n,
            0 < d,
    ;
}

/// Each logit receives its probability less the target, times the gradient of the loss over
/// the number of rows.
pub proof fn law_gradient_of_entropy<F: Fpu>(
    f: &F,
    rd: spec_fn(int, int) -> int,
    back: CrossEntropyBackward,
    g: NdArray<u32>,
    r: NdArray<u32>,
) -> (s: Sent)
    requires
        rounding::rounds_by(f, rd),
        back.sends(f, g, r),
        0 < back.probs.shape@[0] < 0x100_0000,
    ensures
        float_bits::is_finite(s.count),
        rounding::value(s.count) == back.probs.shape@[0] * rounding::unit(),
        rounding::is_quotient(rd, g.data@[0], s.count, s.factor),
        s.differences.len() == back.probs.data@.len(),
        r.data@.len() == back.probs.data@.len(),
        forall|i: int|
            0 <= i < r.data@.len() ==> rounding::is_difference(
                rd,
                back.probs.data@[i],
                back.targets.data@[i],
                #[trigger] s.differences[i],
            ),
        forall|i: int|
            0 <= i < r.data@.len() ==> rounding::is_product(rd, s.differences[i], s.factor, #[trigger] r.data@[i]),
{
    let (a, b) = (back.probs.data@, back.targets.data@);
    let factor = choose|factor: u32| #[trigger]
        loss::entropy_factor(f, back.probs.shape@[0], g.data@[0], factor) && loss::scaled_differences(f, a, b, factor, r.data@);
    let count = choose|c: u32| fpu::counts(f, back.probs.shape@[0], c) && #[trigger] fpu::divs(f, g.data@[0], c, factor);
    rounding::lemma_count_is_exact(f, rd, back.probs.shape@[0], count);
    let differences = lemma_differences(f, a, b, factor, r.data@);
    assert forall|i: int| 0 <= i < a.len() implies rounding::is_difference(rd, a[i], b[i], #[trigger] differences[i])
        && rounding::is_product(rd, differences[i], factor, r.data@[i]) by {}
    assert forall|i: int| 0 <= i < r.data@.len() implies rounding::is_product(
        rd,
        differences[i],
        factor,
        #[trigger] r.data@[i],
    ) by {
        assert(rounding::is_difference(rd, a[i], b[i], differences[i]));
    }
    Sent { count, quotient: factor, factor, differences }
}

} // verus!
