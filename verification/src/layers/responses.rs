use crate::array::NdArray;
use crate::autograd::{GradMode, Tensor};
use crate::constants;
use crate::dims;
use crate::elements;
use crate::fixed;
use crate::float_bits;
use crate::fpu;
use crate::fpu::Fpu;
use crate::layers::activation;
use crate::layers::activation::{Activation, ActivationBackward};
use crate::layers::attention::encoding::TWO;
use crate::rounding;
use vstd::prelude::*;

verus! {

/// A number of this size or less, in ones, has an exponential that is far from overflow.
pub const MODERATE: u32 = 0x42a0_0000;

/// What no exponential of a moderate number exceeds.
pub const AMPLE: u32 = 0x7b80_0000;

/// The exponential of a number that is not too great is a number; it grows with its argument
/// and is one at zero.
pub open spec fn exponentials_grow<F: Fpu>(f: &F) -> bool {
    &&& forall|x: u32, e: u32|
        float_bits::is_finite(x) && rounding::value(x) <= rounding::value(MODERATE) && #[trigger] fpu::exps(f, x, e)
            ==> float_bits::is_finite(e) && 0 <= rounding::value(e) <= rounding::value(AMPLE) && (rounding::value(x) == 0
            ==> rounding::value(e) == rounding::unit())
    &&& forall|x: u32, y: u32, e: u32, g: u32|
        #![trigger fpu::exps(f, x, e), fpu::exps(f, y, g)]
        float_bits::is_finite(x) && float_bits::is_finite(y) && rounding::value(x) <= rounding::value(y)
            && rounding::value(y) <= rounding::value(MODERATE) && fpu::exps(f, x, e) && fpu::exps(f, y, g) ==> rounding::value(e)
            <= rounding::value(g)
}

/// What a function gave for a tensor of single precision: `y` for the element `x`.
pub open spec fn responds<F: Fpu>(f: &F, kind: Activation, input: Tensor, mode: GradMode, t: Tensor, index: Seq<usize>) -> bool {
    &&& activation::activated(f, kind, input, mode, t)
    &&& input.storage is F32
    &&& input.wf()
    &&& dims::valid_index(t.spec_shape(), index)
}

proof fn lemma_responds<F: Fpu>(f: &F, kind: Activation, input: Tensor, mode: GradMode, t: Tensor, index: Seq<usize>)
    requires
        responds(f, kind, input, mode, t, index),
    ensures
        activation::activates(f, kind, elements::element(input, index), elements::element(t, index)),
{
    elements::lemma_own_stretches(t.spec_shape());
    elements::lemma_activated_element(f, kind, input, mode, t, t.spec_shape(), index);
}

/// The positive part of a number is the number where it is above zero, and zero elsewhere.
pub proof fn law_positive_part<F: Fpu>(f: &F, input: Tensor, mode: GradMode, t: Tensor, index: Seq<usize>)
    requires
        responds(f, Activation::Relu, input, mode, t, index),
        !float_bits::is_nan(elements::element(input, index)),
    ensures
        ({
            let (x, y) = (rounding::value(elements::element(input, index)), rounding::value(elements::element(t, index)));
            y == (if x > 0 {
                x
            } else {
                0
            })
        }),
{
    lemma_responds(f, Activation::Relu, input, mode, t, index);
    rounding::lemma_constants();
    rounding::lemma_finite_is_number(fpu::ZERO);
    rounding::lemma_values_order(elements::element(input, index), fpu::ZERO);
}

/// The numbers that the logistic function is made of.
proof fn lemma_logistic<F: Fpu>(f: &F, rd: spec_fn(int, int) -> int, x: u32, y: u32) -> (r: (u32, u32))
    requires
        rounding::rounds_by(f, rd),
        exponentials_grow(f),
        float_bits::is_finite(x),
        -rounding::value(x) <= rounding::value(MODERATE),
        fpu::is_logistic(f, x, y),
    ensures
        fpu::exps(f, fpu::negated(x) as u32, r.0),
        float_bits::is_finite(r.0),
        0 <= rounding::value(r.0),
        float_bits::is_finite(r.1),
        rounding::value(r.1) == rd(rounding::unit() + rounding::value(r.0), 1),
        rounding::unit() <= rounding::value(r.1),
        float_bits::is_finite(y),
        rounding::value(y) == rd(rounding::unit() * rounding::unit(), rounding::value(r.1)),
        0 <= rounding::value(y) <= rounding::unit(),
        rounding::value(fpu::negated(x) as u32) == -rounding::value(x),
        float_bits::is_finite(fpu::negated(x) as u32),
{
    let u = rounding::unit();
    rounding::lemma_constants();
    let b = rounding::lemma_negated(x);
    let (e, d) = choose|e: u32, d: u32|
        fpu::exps(f, fpu::negated(x) as u32, e) && #[trigger] fpu::adds(f, fpu::ONE, e, d) && fpu::divs(f, fpu::ONE, d, y);
    let top = lemma_ample();
    rounding::lemma_rounds_to_side(rd, u + rounding::value(e), 1, top);
    rounding::lemma_rounds_to_side(rd, u + rounding::value(e), 1, fpu::ONE);
    rounding::lemma_finite_between(fpu::ONE, d, top);
    let v = rounding::value(d);
    assert(0 * v <= u * u && u * u <= u * v) by (nonlinear_arith)
        requires
            0 < u <= v,
    ;
    rounding::lemma_rounds_to_side(rd, u * u, v, fpu::ONE);
    rounding::lemma_rounds_to_side(rd, u * u, v, fpu::ZERO);
    rounding::lemma_finite_between(fpu::ZERO, y, fpu::ONE);
    (e, d)
}

/// One can be added to an ample number.
proof fn lemma_ample() -> (p: u32)
    ensures
        float_bits::is_finite(p),
        rounding::value(AMPLE) + rounding::unit() <= rounding::value(p),
{
    let p = 0x7c00_0000u32;
    rounding::lemma_constants();
    vstd::arithmetic::power2::lemma2_to64();
    vstd::arithmetic::power2::lemma_pow2_unfold(247);
    vstd::arithmetic::power2::lemma_pow2_adds(149, 97);
    vstd::arithmetic::power2::lemma_pow2_pos(97);
    vstd::arithmetic::power2::lemma_pow2_pos(149);
    assert(0x7c00_0000u32 / 0x80_0000u32 == 248 && 0x7b80_0000u32 / 0x80_0000u32 == 247);
    let h = vstd::arithmetic::power2::pow2(246) as int;
    assert(rounding::value(AMPLE) == 0x80_0000 * h);
    assert(rounding::value(p) == 0x80_0000 * (2 * h));
    let (u, k) = (rounding::unit(), vstd::arithmetic::power2::pow2(97) as int);
    assert(h >= u) by (nonlinear_arith)
        requires
            h == u * k,
            k >= 1,
            u > 0,
    ;
    p
}

/// The logistic function grows with its argument, stays between zero and one, and is one half
/// at zero.
#[verifier::rlimit(40)]
pub proof fn law_logistic_grows<F: Fpu>(
    f: &F,
    rd: spec_fn(int, int) -> int,
    a: Tensor,
    s: Tensor,
    i: Seq<usize>,
    b: Tensor,
    t: Tensor,
    j: Seq<usize>,
    mode: GradMode,
)
    requires
        rounding::rounds_by(f, rd),
        exponentials_grow(f),
        responds(f, Activation::Sigmoid, a, mode, s, i),
        responds(f, Activation::Sigmoid, b, mode, t, j),
        float_bits::is_finite(elements::element(a, i)),
        float_bits::is_finite(elements::element(b, j)),
        -rounding::value(MODERATE) <= rounding::value(elements::element(a, i)) <= rounding::value(elements::element(b, j)),
    ensures
        0 <= rounding::value(elements::element(s, i)) <= rounding::value(elements::element(t, j)) <= rounding::unit(),
        rounding::value(elements::element(a, i)) == 0 ==> 2 * rounding::value(elements::element(s, i)) == rounding::unit(),
{
    let u = rounding::unit();
    rounding::lemma_constants();
    lemma_responds(f, Activation::Sigmoid, a, mode, s, i);
    lemma_responds(f, Activation::Sigmoid, b, mode, t, j);
    let (x, y) = (elements::element(a, i), elements::element(s, i));
    let (d, e) = lemma_logistic(f, rd, x, y);
    let (g, h) = lemma_logistic(f, rd, elements::element(b, j), elements::element(t, j));
    rounding::lemma_rounds_in_order(rd, u + rounding::value(g), 1, u + rounding::value(d), 1);
    let (p, q) = (rounding::value(e), rounding::value(h));
    assert((u * u) * q <= (u * u) * p) by (nonlinear_arith)
        requires
            q <= p,
    ;
    rounding::lemma_rounds_in_order(rd, u * u, p, u * u, q);
    if rounding::value(x) == 0 {
        constants::law_constants_are_exact();
        let two = TWO;
        let half = activation::HALF;
        assert(float_bits::is_finite(two) && float_bits::is_finite(half));
        rounding::lemma_rounds_to_side(rd, u + u, 1, two);
        assert(p == 2 * u);
        assert(u * u == rounding::value(half) * p) by (nonlinear_arith)
            requires
                2 * rounding::value(half) == u,
                p == 2 * u,
        ;
        rounding::lemma_rounds_to_side(rd, u * u, p, half);
    }
}

/// The sigmoid-weighted unit is a number times its logistic function: the results of both
/// functions for the same input are related so.
pub proof fn law_weighted_by_its_logistic<F: Fpu>(
    f: &F,
    rd: spec_fn(int, int) -> int,
    input: Tensor,
    mode: GradMode,
    s: Tensor,
    t: Tensor,
    index: Seq<usize>,
)
    requires
        rounding::rounds_by(f, rd),
        fpu::fixed_answers(f),
        responds(f, Activation::Sigmoid, input, mode, s, index),
        responds(f, Activation::Silu, input, mode, t, index),
    ensures
        rounding::is_product(
            rd,
            elements::element(input, index),
            elements::element(s, index),
            elements::element(t, index),
        ),
{
    lemma_responds(f, Activation::Sigmoid, input, mode, s, index);
    lemma_responds(f, Activation::Silu, input, mode, t, index);
    let x = elements::element(input, index);
    let y = choose|y: u32| fpu::is_logistic(f, x, y) && #[trigger] fpu::muls(f, x, y, elements::element(t, index));
    fixed::lemma_one_logistic(f, x, y, elements::element(s, index));
}

/// The hyperbolic tangent is the processor's.
pub proof fn law_tangent_is_the_processors<F: Fpu>(f: &F, input: Tensor, mode: GradMode, t: Tensor, index: Seq<usize>)
    requires
        responds(f, Activation::Tanh, input, mode, t, index),
    ensures
        fpu::tanhs(f, elements::element(input, index), elements::element(t, index)),
{
    lemma_responds(f, Activation::Tanh, input, mode, t, index);
}

/// The numbers on the way to the Gaussian unit.
pub struct Gaussian {
    pub square: u32,
    pub cube: u32,
    pub share: u32,
    pub bent: u32,
    pub inner: u32,
    pub tangent: u32,
    pub lifted: u32,
    pub half: u32,
}

/// The Gaussian unit of `x` is half of `x` times one more than the tangent of `c (x + k x^3)`,
/// where `c` is the root of two over pi, and `k` is 0.044715. Each operation rounds.
pub proof fn law_gaussian_unit<F: Fpu>(
    f: &F,
    rd: spec_fn(int, int) -> int,
    input: Tensor,
    mode: GradMode,
    t: Tensor,
    index: Seq<usize>,
) -> (r: Gaussian)
    requires
        rounding::rounds_by(f, rd),
        responds(f, Activation::Gelu, input, mode, t, index),
    ensures
        ({
            let x = elements::element(input, index);
            &&& constants::is_nearest(activation::GELU_K, 44715, 1_000_000)
            &&& constants::is_nearest(activation::GELU_C, 7978845608, 10_000_000_000)
            &&& 2 * rounding::value(activation::HALF) == rounding::unit()
            &&& rounding::is_product(rd, x, x, r.square)
            &&& rounding::is_product(rd, r.square, x, r.cube)
            &&& rounding::is_product(rd, activation::GELU_K, r.cube, r.share)
            &&& rounding::is_sum(rd, x, r.share, r.bent)
            &&& rounding::is_product(rd, activation::GELU_C, r.bent, r.inner)
            &&& fpu::tanhs(f, r.inner, r.tangent)
            &&& rounding::is_sum(rd, fpu::ONE, r.tangent, r.lifted)
            &&& rounding::is_product(rd, activation::HALF, x, r.half)
            &&& rounding::is_product(rd, r.half, r.lifted, elements::element(t, index))
        }),
{
    lemma_responds(f, Activation::Gelu, input, mode, t, index);
    constants::law_constants_are_nearest();
    constants::law_constants_are_exact();
    let (x, y) = (elements::element(input, index), elements::element(t, index));
    let (tangent, half, lifted) = choose|t: u32, h: u32, o: u32|
        activation::gelu_tanh(f, x, t) && #[trigger] fpu::adds(f, fpu::ONE, t, o) && fpu::muls(f, activation::HALF, x, h)
            && #[trigger] fpu::muls(f, h, o, y);
    let inner = choose|i: u32| activation::gelu_inner(f, x, i) && #[trigger] fpu::tanhs(f, i, tangent);
    let (cube, share, bent) = choose|c: u32, k: u32, a: u32|
        activation::is_cube(f, x, c) && #[trigger] fpu::muls(f, activation::GELU_K, c, k) && fpu::adds(f, x, k, a)
            && #[trigger] fpu::muls(f, activation::GELU_C, a, inner);
    let square = choose|s: u32| fpu::muls(f, x, x, s) && #[trigger] fpu::muls(f, s, x, cube);
    Gaussian { square, cube, share, bent, inner, tangent, lifted, half }
}

/// The slope of a function, as the gradient takes it up: `1 - y^2` for the tangent, and
/// `y (1 - y)` for the logistic function, where `y` is the result; for the positive part, one
/// above zero and nothing elsewhere.
pub proof fn law_slopes_of_results<F: Fpu>(
    f: &F,
    rd: spec_fn(int, int) -> int,
    back: ActivationBackward,
    g: NdArray<u32>,
    r: NdArray<u32>,
    i: int,
) -> (p: (u32, u32))
    requires
        rounding::rounds_by(f, rd),
        back.sends(f, g, r),
        0 <= i < r.data@.len(),
    ensures
        ({
            let (x, y) = (back.input.data@[i], back.output.data@[i]);
            let (d, s) = (g.data@[i], r.data@[i]);
            match back.kind {
                Activation::Tanh => rounding::is_product(rd, y, y, p.0) && rounding::is_difference(rd, fpu::ONE, p.0, p.1)
                    && rounding::is_product(rd, d, p.1, s),
                Activation::Sigmoid => rounding::is_product(rd, d, y, p.0) && rounding::is_difference(rd, fpu::ONE, y, p.1)
                    && rounding::is_product(rd, p.0, p.1, s),
                Activation::Relu => !float_bits::is_nan(x) ==> s == (if rounding::value(x) > 0 {
                    d
                } else {
                    fpu::ZERO
                }),
                _ => true,
            }
        }),
{
    let (x, y) = (back.input.data@[i], back.output.data@[i]);
    let (d, s) = (g.data@[i], r.data@[i]);
    assert(activation::activation_sends(f, back.kind, d, x, y, s));
    rounding::lemma_constants();
    match back.kind {
        Activation::Tanh => choose|a: u32, b: u32|
            fpu::muls(f, y, y, a) && #[trigger] fpu::subs(f, fpu::ONE, a, b) && fpu::muls(f, d, b, s),
        Activation::Sigmoid => choose|a: u32, b: u32|
            fpu::muls(f, d, y, a) && fpu::subs(f, fpu::ONE, y, b) && #[trigger] fpu::muls(f, a, b, s),
        _ => {
            if !float_bits::is_nan(x) {
                rounding::lemma_finite_is_number(fpu::ZERO);
                rounding::lemma_values_order(x, fpu::ZERO);
            }
            (x, y)
        },
    }
}

/// The numbers on the way to the slope of the sigmoid-weighted unit.
pub struct WeightedSlope {
    pub share: u32,
    pub weighted: u32,
    pub rest: u32,
    pub excess: u32,
    pub slope: u32,
}

/// The slope of the sigmoid-weighted unit is `s + x s (1 - s)`, where `s` is the logistic
/// function of `x`.
pub proof fn law_slope_of_weighted_unit<F: Fpu>(
    f: &F,
    rd: spec_fn(int, int) -> int,
    back: ActivationBackward,
    g: NdArray<u32>,
    r: NdArray<u32>,
    i: int,
) -> (p: WeightedSlope)
    requires
        rounding::rounds_by(f, rd),
        back.kind == Activation::Silu,
        back.sends(f, g, r),
        0 <= i < r.data@.len(),
    ensures
        fpu::is_logistic(f, back.input.data@[i], p.share),
        rounding::is_product(rd, back.input.data@[i], p.share, p.weighted),
        rounding::is_difference(rd, fpu::ONE, p.share, p.rest),
        rounding::is_product(rd, p.weighted, p.rest, p.excess),
        rounding::is_sum(rd, p.share, p.excess, p.slope),
        rounding::is_product(rd, p.slope, g.data@[i], r.data@[i]),
{
    let x = back.input.data@[i];
    let (d, e) = (g.data@[i], r.data@[i]);
    assert(activation::activation_sends(f, back.kind, d, x, back.output.data@[i], e));
    rounding::lemma_constants();
    let slope = choose|s: u32| activation::silu_slope(f, x, s) && #[trigger] fpu::muls(f, s, d, e);
    let (share, weighted, rest, excess) = choose|s: u32, p: u32, o: u32, q: u32|
        fpu::is_logistic(f, x, s) && #[trigger] fpu::muls(f, x, s, p) && #[trigger] fpu::subs(f, fpu::ONE, s, o) && fpu::muls(
            f,
            p,
            o,
            q,
        ) && #[trigger] fpu::adds(f, s, q, slope);
    WeightedSlope { share, weighted, rest, excess, slope }
}

/// The numbers on the way to the slope of the Gaussian unit.
pub struct GaussianSlope {
    pub tangent: u32,
    pub lifted: u32,
    pub left: u32,
    pub half: u32,
    pub square: u32,
    pub rest: u32,
    pub bell: u32,
    pub mid: u32,
    pub triple: u32,
    pub first: u32,
    pub second: u32,
    pub right: u32,
    pub excess: u32,
    pub slope: u32,
}

/// The slope of the Gaussian unit is `(1 + t) / 2 + (x / 2) (1 - t^2) c (1 + 3 k x^2)`, where
/// `t` is the tangent on the way to the unit.
#[verifier::rlimit(40)]
pub proof fn law_slope_of_gaussian_unit<F: Fpu>(
    f: &F,
    rd: spec_fn(int, int) -> int,
    back: ActivationBackward,
    g: NdArray<u32>,
    r: NdArray<u32>,
    i: int,
) -> (p: GaussianSlope)
    requires
        rounding::rounds_by(f, rd),
        back.kind == Activation::Gelu,
        back.sends(f, g, r),
        0 <= i < r.data@.len(),
    ensures
        ({
            let x = back.input.data@[i];
            &&& activation::gelu_tanh(f, x, p.tangent)
            &&& rounding::is_sum(rd, fpu::ONE, p.tangent, p.lifted)
            &&& rounding::is_product(rd, activation::HALF, p.lifted, p.left)
            &&& rounding::is_product(rd, activation::HALF, x, p.half)
            &&& rounding::is_product(rd, p.tangent, p.tangent, p.square)
            &&& rounding::is_difference(rd, fpu::ONE, p.square, p.rest)
            &&& rounding::is_product(rd, p.half, p.rest, p.bell)
            &&& rounding::is_product(rd, p.bell, activation::GELU_C, p.mid)
            &&& rounding::is_product(rd, activation::THREE, activation::GELU_K, p.triple)
            &&& rounding::is_product(rd, p.triple, x, p.first)
            &&& rounding::is_product(rd, p.first, x, p.second)
            &&& rounding::is_sum(rd, fpu::ONE, p.second, p.right)
            &&& rounding::is_product(rd, p.mid, p.right, p.excess)
            &&& rounding::is_sum(rd, p.left, p.excess, p.slope)
            &&& rounding::is_product(rd, p.slope, g.data@[i], r.data@[i])
        }),
{
    let x = back.input.data@[i];
    let (d, e) = (g.data@[i], r.data@[i]);
    assert(activation::activation_sends(f, back.kind, d, x, back.output.data@[i], e));
    let slope = choose|s: u32| activation::gelu_slope(f, x, s) && #[trigger] fpu::muls(f, s, d, e);
    let (tangent, left, mid, right, excess) = choose|t: u32, l: u32, m: u32, r: u32, p: u32|
        #[trigger] activation::gelu_tanh(f, x, t) && #[trigger] activation::gelu_slope_left(f, t, l)
            && activation::gelu_slope_mid(f, x, t, m) && #[trigger] activation::gelu_slope_right(f, x, r) && #[trigger] fpu::muls(
            f,
            m,
            r,
            p,
        ) && fpu::adds(f, l, p, slope);
    let lifted = choose|o: u32| fpu::adds(f, fpu::ONE, tangent, o) && #[trigger] fpu::muls(f, activation::HALF, o, left);
    let (half, square, rest, bell) = choose|h: u32, q: u32, s: u32, m: u32|
        fpu::muls(f, activation::HALF, x, h) && #[trigger] fpu::muls(f, tangent, tangent, q) && #[trigger] fpu::subs(
            f,
            fpu::ONE,
            q,
            s,
        ) && #[trigger] fpu::muls(f, h, s, m) && fpu::muls(f, m, activation::GELU_C, mid);
    let (triple, first, second) = choose|k: u32, a: u32, b: u32|
        fpu::muls(f, activation::THREE, activation::GELU_K, k) && #[trigger] fpu::muls(f, k, x, a) && #[trigger] fpu::muls(
            f,
            a,
            x,
            b,
        ) && fpu::adds(f, fpu::ONE, b, right);
    GaussianSlope {
        tangent,
        lifted,
        left,
        half,
        square,
        rest,
        bell,
        mid,
        triple,
        first,
        second,
        right,
        excess,
        slope,
    }
}

} // verus!
