use crate::args;
use crate::float_bits;
use crate::fpu;
use crate::layers::activation;
use crate::layers::attention::attend;
use crate::layers::attention::encoding;
use crate::loss;
use crate::ops::convolution;
use crate::ops::fused;
use crate::optim;
use crate::rounding;
use crate::sampling;
use vstd::arithmetic::power2::{lemma2_to64, lemma2_to64_rest, lemma_pow2_adds, lemma_pow2_pos, pow2};
use vstd::prelude::*;

verus! {

/// No positive number is nearer to the fraction `n / d`.
pub open spec fn is_nearest(bits: u32, n: int, d: int) -> bool {
    &&& 0 < bits < 0x7f7f_ffff
    &&& (rounding::value((bits - 1) as u32) + rounding::value(bits)) * d <= 2 * n * rounding::unit()
    &&& 2 * n * rounding::unit() <= (rounding::value(bits) + rounding::value((bits + 1) as u32)) * d
}

/// The number nearest to a fraction has the digits nearest to it.
proof fn lemma_nearest(bits: u32, e: nat, m: nat, n: int, d: int)
    requires
        1 <= e <= 149,
        1 <= m < 0x7f_ffff,
        bits == e * 0x80_0000 + m,
        d > 0,
        (2 * (m + 0x80_0000) - 1) * d <= 2 * n * pow2((150 - e) as nat) <= (2 * (m + 0x80_0000) + 1) * d,
    ensures
        is_nearest(bits, n, d),
{
    let p = pow2((e - 1) as nat) as int;
    let q = pow2((150 - e) as nat) as int;
    lemma_pow2_adds((e - 1) as nat, (150 - e) as nat);
    lemma_pow2_pos((e - 1) as nat);
    let c = (m + 0x80_0000) as int;
    assert(rounding::value(bits) == c * p);
    assert(rounding::value((bits - 1) as u32) == (c - 1) * p);
    assert(rounding::value((bits + 1) as u32) == (c + 1) * p);
    assert((c - 1) * p + c * p == (2 * c - 1) * p && c * p + (c + 1) * p == (2 * c + 1) * p) by (nonlinear_arith);
    assert(((2 * c - 1) * p) * d <= 2 * n * (p * q) && 2 * n * (p * q) <= ((2 * c + 1) * p) * d) by (nonlinear_arith)
        requires
            (2 * c - 1) * d <= 2 * n * q,
            2 * n * q <= (2 * c + 1) * d,
            p > 0,
    {
        assert(((2 * c - 1) * p) * d == ((2 * c - 1) * d) * p);
        assert(((2 * c + 1) * p) * d == ((2 * c + 1) * d) * p);
        assert(2 * n * (p * q) == (2 * n * q) * p);
        assert(((2 * c - 1) * d) * p <= (2 * n * q) * p);
        assert((2 * n * q) * p <= ((2 * c + 1) * d) * p);
    }
}

/// The constants of the formulas are the numbers nearest to what they stand for: the rates of
/// decay 0.9 and 0.999 and the summand 1e-8 of Adam, the least temperature 1e-5 and the least
/// share 1e-6 of sampling, what keeps a sum or a probability off zero, and the coefficients of
/// the Gaussian unit.
pub proof fn law_constants_are_nearest()
    ensures
        is_nearest(optim::BETA1, 9, 10),
        is_nearest(optim::BETA2, 999, 1000),
        is_nearest(optim::ADAM_EPS, 1, 100_000_000),
        is_nearest(sampling::GREEDY_LIMIT, 1, 100_000),
        is_nearest(sampling::LEAST_SHARE, 1, 1_000_000),
        is_nearest(sampling::SUM_FLOOR, 1, 1_000_000_000),
        is_nearest(attend::WEIGHT_FLOOR, 1, 1_000_000_000),
        is_nearest(loss::PROBABILITY_FLOOR, 1, 1_000_000_000),
        is_nearest(fused::SUM_FLOOR, 1, 10_000_000_000),
        is_nearest(activation::GELU_C, 7978845608, 10_000_000_000),
        is_nearest(activation::GELU_K, 44715, 1_000_000),
        is_nearest(args::DEFAULT_TEMPERATURE, 8, 10),
        is_nearest(args::DEFAULT_TOP_P, 9, 10),
        is_nearest(args::DEFAULT_PENALTY, 105, 100),
{
    lemma2_to64();
    lemma2_to64_rest();
    lemma_nearest(optim::BETA1, 126, 0x66_6666, 9, 10);
    lemma_nearest(optim::BETA2, 126, 0x7f_be77, 999, 1000);
    lemma_nearest(optim::ADAM_EPS, 100, 0x2b_cc77, 1, 100_000_000);
    lemma_nearest(sampling::GREEDY_LIMIT, 110, 0x27_c5ac, 1, 100_000);
    lemma_nearest(sampling::LEAST_SHARE, 107, 0x06_37bd, 1, 1_000_000);
    lemma_nearest(sampling::SUM_FLOOR, 97, 0x09_705f, 1, 1_000_000_000);
    lemma_nearest(fused::SUM_FLOOR, 93, 0x5b_e6ff, 1, 10_000_000_000);
    lemma_nearest(activation::GELU_C, 126, 0x4c_422a, 7978845608, 10_000_000_000);
    lemma_nearest(activation::GELU_K, 122, 0x37_2713, 44715, 1_000_000);
    lemma_nearest(args::DEFAULT_TEMPERATURE, 126, 0x4c_cccd, 8, 10);
    lemma_nearest(args::DEFAULT_PENALTY, 127, 0x06_6666, 105, 100);
}

/// The whole and half constants are exact, and nothing finite lies below the lowest number.
pub proof fn law_constants_are_exact()
    ensures
        rounding::value(fpu::ONE) == rounding::unit(),
        2 * rounding::value(activation::HALF) == rounding::unit(),
        rounding::value(encoding::TWO) == 2 * rounding::unit(),
        rounding::value(activation::THREE) == 3 * rounding::unit(),
        float_bits::is_finite(convolution::LOWEST),
        forall|p: u32| float_bits::is_finite(p) ==> #[trigger] rounding::value(p) >= rounding::value(convolution::LOWEST),
{
    lemma2_to64();
    rounding::lemma_constants();
    lemma_pow2_adds(23, 126);
    lemma_pow2_adds(1, 125);
    lemma_pow2_adds(1, 126);
    assert(0x3f00_0000u32 / 0x80_0000u32 == 126 && 0x4000_0000u32 / 0x80_0000u32 == 128);
    assert(float_bits::scaled_magnitude(activation::HALF) == 0x80_0000nat * pow2(125));
    assert(float_bits::scaled_magnitude(encoding::TWO) == 0x80_0000nat * pow2(127));
    assert(float_bits::scaled_magnitude(activation::THREE) == 0xc0_0000nat * pow2(127));
    assert forall|p: u32| float_bits::is_finite(p) implies #[trigger] rounding::value(p) >= rounding::value(
        convolution::LOWEST,
    ) by {
        rounding::lemma_finite_is_number(p);
        rounding::lemma_values_order(convolution::LOWEST, p);
        assert(float_bits::order_key(convolution::LOWEST) <= float_bits::order_key(p));
    }
}

} // verus!
