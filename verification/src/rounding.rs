use crate::float_bits;
use crate::fpu;
use crate::fpu::Fpu;
use vstd::arithmetic::power2::{lemma2_to64, lemma_pow2_adds, lemma_pow2_pos, lemma_pow2_unfold, pow2};
use vstd::prelude::*;

verus! {

/// The value of a number, in units of the smallest positive one. Infinity counts as the
/// number that would follow the greatest finite one.
pub open spec fn value(bits: u32) -> int {
    if bits < 0x8000_0000 {
        float_bits::scaled_magnitude(bits) as int
    } else {
        -(float_bits::scaled_magnitude(bits) as int)
    }
}

/// How many units make one.
pub open spec fn unit() -> int {
    float_bits::unit() as int
}

/// The fraction `n / d` is at most `m / e`.
pub open spec fn fraction_at_most(n: int, d: int, m: int, e: int) -> bool {
    n * e <= m * d
}

/// A number is its own rounding, whatever the fraction that stands for it.
pub open spec fn keeps_number(rd: spec_fn(int, int) -> int, p: u32, d: int) -> bool {
    rd(value(p) * d, d) == value(p)
}

/// A way of rounding fractions of units: it keeps order, and keeps what is a number.
pub open spec fn is_rounding(rd: spec_fn(int, int) -> int) -> bool {
    &&& forall|n: int, d: int, m: int, e: int|
        #![trigger rd(n, d), rd(m, e)]
        d > 0 && e > 0 && fraction_at_most(n, d, m, e) ==> rd(n, d) <= rd(m, e)
    &&& forall|p: u32, d: int| float_bits::is_finite(p) && d > 0 ==> #[trigger] keeps_number(rd, p, d)
}

/// `r` is the root of a number that is not negative, rounded: no number lies between it and
/// the exact root.
pub open spec fn is_root(a: u32, r: u32) -> bool {
    &&& !float_bits::is_nan(r)
    &&& value(r) >= 0
    &&& forall|p: u32|
        float_bits::is_finite(p) && #[trigger] value(p) >= 0 && value(a) * unit() <= value(p) * value(p) ==> value(r)
            <= value(p)
    &&& forall|p: u32|
        float_bits::is_finite(p) && #[trigger] value(p) >= 0 && value(p) * value(p) <= value(a) * unit() ==> value(p)
            <= value(r)
}

/// The processor rounds each result of its arithmetic on finite numbers, and nothing else
/// happens to it, as IEEE 754 has it.
pub open spec fn rounds_by<F: Fpu>(f: &F, rd: spec_fn(int, int) -> int) -> bool {
    &&& is_rounding(rd)
    &&& forall|a: u32, b: u32, r: u32|
        float_bits::is_finite(a) && float_bits::is_finite(b) && #[trigger] fpu::adds(f, a, b, r) ==> !float_bits::is_nan(r)
            && value(r) == rd(value(a) + value(b), 1)
    &&& forall|a: u32, b: u32, r: u32|
        float_bits::is_finite(a) && float_bits::is_finite(b) && #[trigger] fpu::subs(f, a, b, r) ==> !float_bits::is_nan(r)
            && value(r) == rd(value(a) - value(b), 1)
    &&& forall|a: u32, b: u32, r: u32|
        float_bits::is_finite(a) && float_bits::is_finite(b) && #[trigger] fpu::muls(f, a, b, r) ==> !float_bits::is_nan(r)
            && value(r) == rd(value(a) * value(b), unit())
    &&& forall|a: u32, b: u32, r: u32|
        float_bits::is_finite(a) && float_bits::is_finite(b) && value(b) > 0 && #[trigger] fpu::divs(f, a, b, r)
            ==> !float_bits::is_nan(r) && value(r) == rd(value(a) * unit(), value(b))
    &&& forall|a: u32, r: u32|
        float_bits::is_finite(a) && value(a) >= 0 && #[trigger] fpu::sqrts(f, a, r) ==> is_root(a, r)
    &&& forall|n: usize, r: u32| #[trigger] fpu::counts(f, n, r) ==> !float_bits::is_nan(r) && value(r) == rd(n * unit(), 1)
}

/// `r` is the sum of two numbers, rounded.
pub open spec fn is_sum(rd: spec_fn(int, int) -> int, a: u32, b: u32, r: u32) -> bool {
    float_bits::is_finite(a) && float_bits::is_finite(b) ==> !float_bits::is_nan(r) && value(r) == rd(value(a) + value(b), 1)
}

/// `r` is the difference of two numbers, rounded.
pub open spec fn is_difference(rd: spec_fn(int, int) -> int, a: u32, b: u32, r: u32) -> bool {
    float_bits::is_finite(a) && float_bits::is_finite(b) ==> !float_bits::is_nan(r) && value(r) == rd(value(a) - value(b), 1)
}

/// `r` is the product of two numbers, rounded.
pub open spec fn is_product(rd: spec_fn(int, int) -> int, a: u32, b: u32, r: u32) -> bool {
    float_bits::is_finite(a) && float_bits::is_finite(b) ==> !float_bits::is_nan(r) && value(r) == rd(
        value(a) * value(b),
        unit(),
    )
}

/// `r` is the quotient of a number by one above zero, rounded.
pub open spec fn is_quotient(rd: spec_fn(int, int) -> int, a: u32, b: u32, r: u32) -> bool {
    float_bits::is_finite(a) && float_bits::is_finite(b) && value(b) > 0 ==> !float_bits::is_nan(r) && value(r) == rd(
        value(a) * unit(),
        value(b),
    )
}

/// The partial sums of a list, from zero on; each element is added to what stands before it.
pub open spec fn partial_sums(rd: spec_fn(int, int) -> int, xs: Seq<u32>, ps: Seq<u32>) -> bool {
    &&& ps.len() == xs.len() + 1
    &&& ps[0] == fpu::ZERO
    &&& forall|i: int| 0 <= i < xs.len() ==> is_sum(rd, ps[i], #[trigger] xs[i], ps[i + 1])
}

/// The constants have their values.
pub proof fn lemma_constants()
    ensures
        unit() > 0,
        value(fpu::ZERO) == 0,
        value(fpu::ONE) == unit(),
        float_bits::is_finite(fpu::ZERO),
        float_bits::is_finite(fpu::ONE),
{
    lemma_pow2_pos(149);
    lemma2_to64();
    lemma_pow2_adds(23, 126);
    assert(0x3f80_0000u32 / 0x80_0000u32 == 127);
    assert(float_bits::scaled_magnitude(fpu::ONE) == 0x80_0000nat * pow2(126));
}

/// The next number is greater.
#[verifier::rlimit(40)]
proof fn lemma_next_is_greater(b: u32)
    requires
        b < 0x7f80_0000,
    ensures
        float_bits::scaled_magnitude(b) < float_bits::scaled_magnitude((b + 1) as u32),
{
    let e = b / 0x80_0000;
    let m = b % 0x80_0000;
    let c = (b + 1) as u32;
    lemma2_to64();
    assert(e < 255);
    assert(e % 256 == e && (e + 1) % 256 == e + 1);
    if m < 0x7f_ffff {
        assert(c / 0x80_0000 == e && c % 0x80_0000 == m + 1);
        if e > 0 {
            let p = pow2((e - 1) as nat) as int;
            lemma_pow2_pos((e - 1) as nat);
            assert((m + 0x80_0000) * p < (m + 1 + 0x80_0000) * p) by (nonlinear_arith)
                requires
                    p > 0,
            ;
        }
    } else {
        assert(c / 0x80_0000 == e + 1 && c % 0x80_0000 == 0);
        assert(float_bits::scaled_magnitude(c) == 0x80_0000nat * pow2(e as nat));
        if e == 0 {
            assert(float_bits::scaled_magnitude(b) == 0x7f_ffff);
            assert(0x80_0000nat * pow2(0) == 0x80_0000);
        } else {
            assert(float_bits::scaled_magnitude(b) == 0xff_ffffnat * pow2((e - 1) as nat));
            let p = pow2((e - 1) as nat) as int;
            lemma_pow2_pos((e - 1) as nat);
            lemma_pow2_unfold(e as nat);
            assert(0xff_ffff * p < 0x80_0000 * (2 * p)) by (nonlinear_arith)
                requires
                    p > 0,
            ;
        }
    }
}

pub proof fn lemma_magnitude_orders(a: u32, b: u32)
    requires
        a <= b <= 0x7f80_0000,
    ensures
        float_bits::scaled_magnitude(a) <= float_bits::scaled_magnitude(b),
        a < b ==> float_bits::scaled_magnitude(a) < float_bits::scaled_magnitude(b),
    decreases b - a,
{
    if a < b {
        let c = (b - 1) as u32;
        lemma_magnitude_orders(a, c);
        lemma_next_is_greater(c);
    }
}

/// The magnitude does not depend on the sign.
pub proof fn lemma_sign_apart(a: u32)
    ensures
        float_bits::scaled_magnitude(a) == float_bits::scaled_magnitude(a % 0x8000_0000),
{
    let b = a % 0x8000_0000;
    assert((a / 0x80_0000) % 256 == (b / 0x80_0000) % 256 && a % 0x80_0000 == b % 0x80_0000);
}

/// Numbers are in the order of their values.
pub proof fn lemma_values_order(a: u32, b: u32)
    requires
        !float_bits::is_nan(a),
        !float_bits::is_nan(b),
    ensures
        float_bits::at_most(a, b) <==> value(a) <= value(b),
        float_bits::above(a, b) <==> value(a) > value(b),
        value(a) == value(b) <==> float_bits::order_key(a) == float_bits::order_key(b),
{
    let x = a % 0x8000_0000;
    let y = b % 0x8000_0000;
    lemma_sign_apart(a);
    lemma_sign_apart(b);
    lemma_magnitude_orders(0, x);
    lemma_magnitude_orders(0, y);
    assert(float_bits::scaled_magnitude(0) == 0);
    if x <= y {
        lemma_magnitude_orders(x, y);
    } else {
        lemma_magnitude_orders(y, x);
    }
    lemma_signed_order(a, b, float_bits::scaled_magnitude(x) as int, float_bits::scaled_magnitude(y) as int);
}

/// Patterns with a sign are in the order of their magnitudes with a sign.
proof fn lemma_signed_order(a: u32, b: u32, x: int, y: int)
    requires
        x >= 0,
        y >= 0,
        x == 0 <==> a % 0x8000_0000 == 0,
        y == 0 <==> b % 0x8000_0000 == 0,
        x < y <==> a % 0x8000_0000 < b % 0x8000_0000,
        x > y <==> a % 0x8000_0000 > b % 0x8000_0000,
    ensures
        float_bits::order_key(a) <= float_bits::order_key(b) <==> (if a < 0x8000_0000 {
            x
        } else {
            -x
        }) <= (if b < 0x8000_0000 {
            y
        } else {
            -y
        }),
        float_bits::order_key(a) == float_bits::order_key(b) <==> (if a < 0x8000_0000 {
            x
        } else {
            -x
        }) == (if b < 0x8000_0000 {
            y
        } else {
            -y
        }),
{
    assert(a >= 0x8000_0000 ==> a % 0x8000_0000 == a - 0x8000_0000);
    assert(b >= 0x8000_0000 ==> b % 0x8000_0000 == b - 0x8000_0000);
}

/// A finite number is a number.
pub proof fn lemma_finite_is_number(a: u32)
    requires
        float_bits::is_finite(a),
    ensures
        !float_bits::is_nan(a),
{
    assert((a / 0x80_0000) % 256 == (a % 0x8000_0000) / 0x80_0000);
}

/// What lies between finite numbers is finite.
pub proof fn lemma_finite_between(a: u32, r: u32, b: u32)
    requires
        float_bits::is_finite(a),
        float_bits::is_finite(b),
        !float_bits::is_nan(r),
        value(a) <= value(r) <= value(b),
    ensures
        float_bits::is_finite(r),
{
    lemma_finite_magnitude(a);
    lemma_finite_magnitude(b);
    lemma_finite_magnitude(r);
    lemma_values_order(a, r);
    lemma_values_order(r, b);
    lemma_key_bounds(a);
    lemma_key_bounds(b);
    lemma_key_bounds(r);
}

/// A finite number is above negative infinity.
pub proof fn lemma_finite_between_infinity(a: u32)
    requires
        float_bits::is_finite(a),
    ensures
        value(fpu::NEG_INFINITY) < value(a),
{
    lemma_finite_magnitude(a);
    lemma_finite_magnitude(fpu::NEG_INFINITY);
    lemma_values_order(a, fpu::NEG_INFINITY);
    lemma_key_bounds(a);
}

/// The finite numbers are those of lesser magnitude than infinity.
pub proof fn lemma_finite_magnitude(a: u32)
    ensures
        float_bits::is_finite(a) <==> a % 0x8000_0000 < 0x7f80_0000,
        float_bits::is_nan(a) <==> a % 0x8000_0000 > 0x7f80_0000,
{
    assert((a / 0x80_0000) % 256 != 255 <==> a % 0x8000_0000 < 0x7f80_0000) by (bit_vector);
}

/// A number's place in the order is its magnitude or the opposite.
proof fn lemma_key_bounds(a: u32)
    ensures
        float_bits::order_key(a) == a % 0x8000_0000 || float_bits::order_key(a) == -(a % 0x8000_0000),
{
    assert(a >= 0x8000_0000 ==> a % 0x8000_0000 == a - 0x8000_0000);
}

/// The number with the other sign.
pub proof fn lemma_negated(a: u32) -> (b: u32)
    ensures
        value(b) == -value(a),
        float_bits::is_finite(a) ==> float_bits::is_finite(b),
        !float_bits::is_nan(a) ==> !float_bits::is_nan(b),
        b == fpu::negated(a),
{
    let b = fpu::negated(a) as u32;
    assert(a % 0x8000_0000 == b % 0x8000_0000 && a % 0x80_0000 == b % 0x80_0000 && (a / 0x80_0000) % 256 == (b / 0x80_0000)
        % 256) by (bit_vector)
        requires
            (a < 0x8000_0000 && b == a + 0x8000_0000) || (a >= 0x8000_0000 && b == a - 0x8000_0000),
    ;
    b
}

/// A fraction below another is rounded to no more than it.
pub proof fn lemma_rounds_in_order(rd: spec_fn(int, int) -> int, n: int, d: int, m: int, e: int)
    requires
        is_rounding(rd),
        d > 0,
        e > 0,
        n * e <= m * d,
    ensures
        rd(n, d) <= rd(m, e),
{
    assert(fraction_at_most(n, d, m, e));
}

/// A fraction on one side of a number is rounded to that side.
pub proof fn lemma_rounds_to_side(rd: spec_fn(int, int) -> int, n: int, d: int, p: u32)
    requires
        is_rounding(rd),
        d > 0,
        float_bits::is_finite(p),
    ensures
        n <= value(p) * d ==> rd(n, d) <= value(p),
        value(p) * d <= n ==> value(p) <= rd(n, d),
{
    assert(keeps_number(rd, p, d));
    let m = value(p) * d;
    assert(n <= m ==> n * d <= m * d) by (nonlinear_arith)
        requires
            d > 0,
    ;
    assert(m <= n ==> m * d <= n * d) by (nonlinear_arith)
        requires
            d > 0,
    ;
    if n <= m {
        lemma_rounds_in_order(rd, n, d, m, d);
    }
    if m <= n {
        lemma_rounds_in_order(rd, m, d, n, d);
    }
}

/// Equal fractions are rounded alike.
pub proof fn lemma_rounds_alike(rd: spec_fn(int, int) -> int, n: int, d: int, m: int, e: int)
    requires
        is_rounding(rd),
        d > 0,
        e > 0,
        n * e == m * d,
    ensures
        rd(n, d) == rd(m, e),
{
    lemma_rounds_in_order(rd, n, d, m, e);
    lemma_rounds_in_order(rd, m, e, n, d);
}

/// A count below two to the power of 24 is a number.
pub proof fn lemma_count_is_number(n: nat) -> (p: u32)
    requires
        0 < n < 0x100_0000,
    ensures
        float_bits::is_finite(p),
        p < 0x8000_0000,
        value(p) == n * unit(),
        127 <= p / 0x80_0000 <= 150,
        pow2((p / 0x80_0000 - 127) as nat) <= n < pow2((p / 0x80_0000 - 126) as nat),
    decreases 0x100_0000 - n,
{
    lemma2_to64();
    if n >= 0x80_0000 {
        let p = (150 * 0x80_0000 + (n - 0x80_0000)) as u32;
        assert(p / 0x80_0000 == 150 && p % 0x80_0000 == n - 0x80_0000);
        assert(float_bits::scaled_magnitude(p) == n * pow2(149));
        p
    } else {
        let q = lemma_count_is_number(2 * n);
        let e = q / 0x80_0000;
        lemma_pow2_unfold((e - 126) as nat);
        if e == 127 {
            assert(pow2(1) == 2);
            assert(false);
        }
        lemma_pow2_unfold((e - 127) as nat);
        let p = (q - 0x80_0000) as u32;
        assert(p / 0x80_0000 == e - 1 && p % 0x80_0000 == q % 0x80_0000);
        lemma_pow2_unfold((e - 1) as nat);
        let m = (q % 0x80_0000 + 0x80_0000) as int;
        let h = pow2((e - 2) as nat) as int;
        assert(float_bits::scaled_magnitude(q) == m * (2 * h));
        assert(float_bits::scaled_magnitude(p) == m * h);
        assert(m * (2 * h) == 2 * (m * h)) by (nonlinear_arith);
        let u = unit();
        assert((2 * n) * u == 2 * (n * u)) by (nonlinear_arith);
        p
    }
}

/// A count below two to the power of 24 is not rounded.
pub proof fn lemma_count_is_exact<F: Fpu>(f: &F, rd: spec_fn(int, int) -> int, n: usize, c: u32)
    requires
        rounds_by(f, rd),
        n < 0x100_0000,
        fpu::counts(f, n, c),
    ensures
        float_bits::is_finite(c),
        value(c) == n * unit(),
{
    lemma_constants();
    let p = if n == 0 {
        fpu::ZERO
    } else {
        lemma_count_is_number(n as nat)
    };
    assert(0 * unit() == 0) by (nonlinear_arith);
    assert(value(p) == n * unit());
    lemma_rounds_to_side(rd, n * unit(), 1, p);
    lemma_finite_between(p, c, p);
}

/// A product with a number between minus one and one is finite.
pub proof fn lemma_share_is_finite<F: Fpu>(f: &F, rd: spec_fn(int, int) -> int, a: u32, c: u32, r: u32)
    requires
        rounds_by(f, rd),
        float_bits::is_finite(a),
        float_bits::is_finite(c),
        -unit() <= value(c) <= unit(),
        fpu::muls(f, a, c, r),
    ensures
        float_bits::is_finite(r),
        value(r) == rd(value(a) * value(c), unit()),
{
    lemma_constants();
    let u = unit();
    let b = lemma_negated(a);
    let (va, vc) = (value(a), value(c));
    let (lo, hi) = if va <= 0 {
        (a, b)
    } else {
        (b, a)
    };
    assert(value(lo) * u <= va * vc <= value(hi) * u) by (nonlinear_arith)
        requires
            -u <= vc <= u,
            va <= 0 ==> value(lo) == va && value(hi) == -va,
            va > 0 ==> value(lo) == -va && value(hi) == va,
    ;
    lemma_rounds_to_side(rd, va * vc, u, lo);
    lemma_rounds_to_side(rd, va * vc, u, hi);
    lemma_finite_between(lo, r, hi);
}

/// A way of rounding that treats both signs alike.
pub open spec fn is_even_handed(rd: spec_fn(int, int) -> int) -> bool {
    forall|n: int, d: int| d > 0 ==> #[trigger] rd(-n, d) == -rd(n, d)
}

/// The fraction `n / d` of a unit is a number, so that it is not rounded.
pub open spec fn is_number(n: int, d: int) -> bool {
    exists|p: u32| float_bits::is_finite(p) && #[trigger] value(p) * d == n
}

/// A fraction that is a number is not rounded.
pub proof fn lemma_number_stays(rd: spec_fn(int, int) -> int, n: int, d: int, r: u32)
    requires
        is_rounding(rd),
        d > 0,
        is_number(n, d),
        !float_bits::is_nan(r),
        value(r) == rd(n, d),
    ensures
        float_bits::is_finite(r),
        value(r) * d == n,
{
    let p = choose|p: u32| float_bits::is_finite(p) && #[trigger] value(p) * d == n;
    lemma_rounds_to_side(rd, n, d, p);
    lemma_finite_between(p, r, p);
}

} // verus!
