use crate::array::NdArray;
use crate::autograd;
use crate::autograd::{GradMode, Tensor};
use crate::fixed;
use crate::float_bits;
use crate::fpu;
use crate::fpu::Fpu;
use crate::layers::activation;
use crate::ops::matmul;
use crate::ops::rows;
use vstd::prelude::*;

verus! {

/// Rounding keeps the order of results, and the exponential the order of its arguments; it
/// is one at zero.
pub open spec fn keeps_order<F: Fpu>(f: &F) -> bool {
    &&& forall|a: u32, b: u32, r: u32|
        float_bits::is_finite(a) && float_bits::is_finite(b) && float_bits::at_most(a, b) && #[trigger] fpu::subs(f, a, b, r)
            ==> float_bits::at_most(r, fpu::ZERO)
    &&& forall|a: u32, r: u32| float_bits::is_finite(a) && #[trigger] fpu::subs(f, a, a, r) ==> float_bits::is_zero(r)
    &&& forall|a: u32, b: u32, c: u32, r: u32, s: u32|
        #![trigger fpu::subs(f, a, c, r), fpu::subs(f, b, c, s)]
        float_bits::is_finite(a) && float_bits::is_finite(b) && float_bits::is_finite(c) && float_bits::at_most(a, b)
            && fpu::subs(f, a, c, r) && fpu::subs(f, b, c, s) ==> float_bits::at_most(r, s)
    &&& forall|a: u32, r: u32|
        float_bits::at_most(a, fpu::ZERO) && #[trigger] fpu::exps(f, a, r) ==> r <= fpu::ONE && (float_bits::is_zero(a)
            ==> r == fpu::ONE)
    &&& forall|a: u32, b: u32, r: u32, s: u32|
        #![trigger fpu::exps(f, a, r), fpu::exps(f, b, s)]
        float_bits::at_most(a, b) && float_bits::at_most(b, fpu::ZERO) && fpu::exps(f, a, r) && fpu::exps(f, b, s) ==> r <= s
    &&& forall|a: u32, b: u32, r: u32|
        float_bits::is_unsigned(a) && float_bits::is_unsigned(b) && #[trigger] fpu::adds(f, a, b, r)
            ==> float_bits::is_unsigned(r) && r >= a && r >= b
    &&& forall|a: u32, r: u32|
        fpu::ONE <= a && float_bits::is_unsigned(a) && #[trigger] fpu::divs(f, fpu::ONE, a, r) ==> r <= fpu::ONE
    &&& forall|a: u32, b: u32, c: u32, r: u32, s: u32|
        #![trigger fpu::muls(f, a, c, r), fpu::muls(f, b, c, s)]
        a <= b && b <= fpu::ONE && c <= fpu::ONE && fpu::muls(f, a, c, r) && fpu::muls(f, b, c, s) ==> r <= s && s <= fpu::ONE
}

/// All values of a row are finite.
pub open spec fn row_finite(xs: Seq<u32>) -> bool {
    forall|j: int| 0 <= j < xs.len() ==> float_bits::is_finite(#[trigger] xs[j])
}

/// The greatest of finite values is one of them, and none is above it.
pub proof fn lemma_greatest(xs: Seq<u32>) -> (k: int)
    requires
        xs.len() > 0,
        row_finite(xs),
    ensures
        0 <= k < xs.len(),
        rows::row_max(xs) == xs[k],
        forall|j: int| 0 <= j < xs.len() ==> float_bits::at_most(#[trigger] xs[j], rows::row_max(xs)),
    decreases xs.len(),
{
    let before = xs.drop_last();
    let n = xs.len() - 1;
    assert(xs.last() == xs[n]);
    assert forall|j: int| 0 <= j < before.len() implies float_bits::is_finite(#[trigger] before[j]) by {
        assert(before[j] == xs[j]);
    }
    if before.len() == 0 {
        assert(rows::row_max(before) == fpu::NEG_INFINITY);
        assert(rows::row_max(xs) == xs[n]);
        n
    } else {
        let k = lemma_greatest(before);
        assert forall|j: int| 0 <= j < xs.len() implies float_bits::at_most(#[trigger] xs[j], rows::row_max(xs)) by {
            if j < n {
                assert(float_bits::at_most(before[j], rows::row_max(before)));
            }
        }
        assert(before[k] == xs[k]);
        if rows::row_max(xs) == rows::row_max(before) {
            k
        } else {
            n
        }
    }
}

/// A sum of numbers without a sign is no less than any of them.
proof fn lemma_sum_covers<F: Fpu>(f: &F, es: Seq<u32>, total: u32)
    requires
        keeps_order(f),
        forall|j: int| 0 <= j < es.len() ==> float_bits::is_unsigned(#[trigger] es[j]),
        rows::left_sum(f, fpu::ZERO, es, total),
    ensures
        float_bits::is_unsigned(total),
        forall|j: int| 0 <= j < es.len() ==> total >= #[trigger] es[j],
    decreases es.len(),
{
    if es.len() > 0 {
        let m = choose|m: u32| rows::left_sum(f, fpu::ZERO, es.drop_last(), m) && #[trigger] fpu::adds(f, m, es.last(), total);
        let before = es.drop_last();
        assert forall|j: int| 0 <= j < before.len() implies float_bits::is_unsigned(#[trigger] before[j]) by {
            assert(before[j] == es[j]);
        }
        lemma_sum_covers(f, before, m);
        assert(es.last() == es[es.len() - 1]);
        assert forall|j: int| 0 <= j < es.len() implies total >= #[trigger] es[j] by {
            if j < es.len() - 1 {
                assert(m >= before[j]);
            }
        }
    }
}

/// The shares of finite values lie between zero and one, and a greater value has no smaller
/// share.
proof fn lemma_shares<F: Fpu>(f: &F, xs: Seq<u32>, ys: Seq<u32>)
    requires
        keeps_order(f),
        row_finite(xs),
        rows::is_softmax(f, xs, ys),
    ensures
        forall|j: int| 0 <= j < ys.len() ==> #[trigger] ys[j] <= fpu::ONE,
        forall|i: int, j: int|
            0 <= i < ys.len() && 0 <= j < ys.len() && float_bits::at_most(xs[i], xs[j]) ==> #[trigger] ys[i] <= #[trigger] ys[j],
{
    if xs.len() > 0 {
        let (es, total, inv) = choose|es: Seq<u32>, total: u32, inv: u32|
            #[trigger] rows::exponentials(f, xs, es, total) && #[trigger] fpu::divs(f, fpu::ONE, total, inv) && rows::scaled_by(
                f,
                es,
                inv,
                ys,
            );
        let k = lemma_greatest(xs);
        let m = rows::row_max(xs);
        assert(float_bits::is_finite(m));
        assert forall|j: int| 0 <= j < es.len() implies #[trigger] es[j] <= fpu::ONE && (j == k ==> es[j] == fpu::ONE) by {
            assert(rows::shifted_exp(f, xs[j], m, es[j]));
            let d = choose|d: u32| fpu::subs(f, xs[j], m, d) && #[trigger] fpu::exps(f, d, es[j]);
            assert(float_bits::at_most(xs[j], m));
        }
        lemma_sum_covers(f, es, total);
        assert(total >= es[k]);
        assert(inv <= fpu::ONE);
        assert forall|i: int, j: int|
            0 <= i < ys.len() && 0 <= j < ys.len() && float_bits::at_most(xs[i], xs[j]) implies #[trigger] ys[i]
            <= #[trigger] ys[j] by {
            assert(rows::shifted_exp(f, xs[i], m, es[i]) && rows::shifted_exp(f, xs[j], m, es[j]));
            let d = choose|d: u32| fpu::subs(f, xs[i], m, d) && #[trigger] fpu::exps(f, d, es[i]);
            let e = choose|d: u32| fpu::subs(f, xs[j], m, d) && #[trigger] fpu::exps(f, d, es[j]);
            assert(float_bits::at_most(xs[j], m));
            assert(float_bits::at_most(d, e));
            assert(es[i] <= es[j]);
            assert(fpu::muls(f, es[i], inv, ys[i]) && fpu::muls(f, es[j], inv, ys[j]));
        }
        assert forall|j: int| 0 <= j < ys.len() implies #[trigger] ys[j] <= fpu::ONE by {
            assert(es[j] <= fpu::ONE);
            assert(fpu::muls(f, es[j], inv, ys[j]));
        }
    }
}

/// Where rounding keeps order, softmax gives each element of a row of finite values a share
/// between zero and one, and a greater element no smaller share than another. The result is
/// one in single precision.
pub proof fn law_shares_keep_order<F: Fpu>(
    f: &F,
    input: Tensor,
    mode: GradMode,
    t: Tensor,
    x: NdArray<u32>,
    row: int,
    i: int,
    j: int,
)
    requires
        fpu::fixed_answers(f),
        keeps_order(f),
        input.wf(),
        input.spec_shape().len() > 0,
        input.spec_shape().last() > 0,
        autograd::reads_as(f, input.storage, x),
        activation::softmax_result(f, input, mode, t),
        t.storage is F32,
        0 <= row < x.data@.len() as int / input.spec_shape().last() as int,
        row_finite(matmul::flat_row(x.data@, row, input.spec_shape().last() as int)),
        0 <= i < input.spec_shape().last(),
        0 <= j < input.spec_shape().last(),
    ensures
        matmul::flat_row(t.storage->F32_0.data@, row, input.spec_shape().last() as int).len() == input.spec_shape().last(),
        matmul::flat_row(t.storage->F32_0.data@, row, input.spec_shape().last() as int)[i] <= fpu::ONE,
        float_bits::at_most(
            matmul::flat_row(x.data@, row, input.spec_shape().last() as int)[i],
            matmul::flat_row(x.data@, row, input.spec_shape().last() as int)[j],
        ) ==> matmul::flat_row(t.storage->F32_0.data@, row, input.spec_shape().last() as int)[i] <= matmul::flat_row(
            t.storage->F32_0.data@,
            row,
            input.spec_shape().last() as int,
        )[j],
{
    let k = input.spec_shape().last() as int;
    let (a, b) = choose|a: NdArray<u32>, b: NdArray<u32>|
        autograd::reads_as(f, input.storage, a) && #[trigger] activation::rows_softmaxed(f, a, b) && autograd::stored_as(
            f,
            b,
            t.spec_dtype(),
            t.storage,
        );
    fixed::lemma_one_reading(f, input.storage, &a, &x);
    activation::lemma_whole_rows(x.shape@, x.data@.len() as int);
    let n = x.data@.len() as int / k;
    assert(0 <= row * k && row * k + k <= n * k) by (nonlinear_arith)
        requires
            0 <= row < n,
            k > 0,
    ;
    let xs = matmul::flat_row(a.data@, row, k);
    let ys = matmul::flat_row(b.data@, row, k);
    assert(rows::is_softmax(f, xs, ys));
    lemma_shares(f, xs, ys);
    assert(ys[i] <= ys[j] || !float_bits::at_most(xs[i], xs[j]));
}

} // verus!
