use crate::float_bits;
use crate::rounding;
use vstd::arithmetic::power2::{lemma2_to64, lemma_pow2_adds, lemma_pow2_pos, lemma_pow2_strictly_increases, lemma_pow2_unfold, pow2};
use vstd::prelude::*;

verus! {

/// How far two numbers are apart.
pub open spec fn apart(a: int, b: int) -> int {
    if a <= b {
        b - a
    } else {
        a - b
    }
}

/// The distance of neighbouring patterns whose exponent is `e`.
spec fn spacing(e: int) -> int {
    if e == 0 {
        1
    } else {
        pow2((e - 1) as nat) as int
    }
}

/// The value of the first pattern whose exponent is `e`.
spec fn first_of(e: int) -> int {
    if e == 0 {
        0
    } else {
        0x80_0000 * spacing(e)
    }
}

/// From one exponent to the next, values grow evenly with the patterns.
proof fn lemma_even_growth(p: u32, e: int)
    requires
        0 <= e <= 254,
        e * 0x80_0000 <= p <= (e + 1) * 0x80_0000,
    ensures
        rounding::value(p) == first_of(e) + (p - e * 0x80_0000) * spacing(e),
        spacing(e) > 0,
{
    lemma2_to64();
    if e > 0 {
        lemma_pow2_pos((e - 1) as nat);
        lemma_pow2_unfold(e as nat);
    }
    let (s, d) = (spacing(e), p - e * 0x80_0000);
    if p < (e + 1) * 0x80_0000 {
        assert((p / 0x80_0000) % 256 == e && p % 0x80_0000 == d);
        if e > 0 {
            assert((d + 0x80_0000) * s == 0x80_0000 * s + d * s) by (nonlinear_arith);
        } else {
            assert(d * s == d) by (nonlinear_arith)
                requires
                    s == 1,
            ;
        }
    } else {
        assert((p / 0x80_0000) % 256 == e + 1 && p % 0x80_0000 == 0);
        assert(d * s == 0x80_0000 * s) by (nonlinear_arith)
            requires
                d == 0x80_0000,
        ;
        if e > 0 {
            assert(0x80_0000 * (2 * s) == 0x80_0000 * s + 0x80_0000 * s) by (nonlinear_arith);
        }
    }
}

/// Rounding to the nearest multiple leaves none that is nearer.
proof fn lemma_nearest_multiple(n: int, d: int, j: int)
    requires
        d > 0,
        n >= 0,
    ensures
        apart(n, float_bits::round_half_even(n, d) * d) <= apart(n, j * d),
        float_bits::round_half_even(n, d) == n / d || float_bits::round_half_even(n, d) == n / d + 1,
{
    let (q, r) = (n / d, n % d);
    vstd::arithmetic::div_mod::lemma_fundamental_div_mod(n, d);
    vstd::arithmetic::div_mod::lemma_mod_bound(n, d);
    assert(d * q == q * d && (q + 1) * d == q * d + d) by (nonlinear_arith);
    if j <= q {
        assert(j * d <= q * d) by (nonlinear_arith)
            requires
                j <= q,
                d > 0,
        ;
    } else {
        assert((q + 1) * d <= j * d) by (nonlinear_arith)
            requires
                j >= q + 1,
                d > 0,
        ;
    }
}

/// Of the patterns that are multiples of `d`, the one that a pattern is rounded to has the
/// nearest value.
#[verifier::rlimit(40)]
proof fn lemma_nearest_pattern(p: u32, from: int, d: int, k: int, other: u32)
    requires
        0 < d,
        0x80_0000int % d == 0,
        from % 0x80_0000 == 0,
        0 <= from <= p < 0x7f80_0000,
        k == float_bits::round_half_even(p - from, d),
        other < 0x7f80_0000,
        other <= from + ((p - from) / d) * d || other >= from + ((p - from) / d + 1) * d,
    ensures
        0 <= from + k * d <= 0x7f80_0000,
        apart(rounding::value(p), rounding::value((from + k * d) as u32)) <= apart(rounding::value(p), rounding::value(other)),
        apart(rounding::value(p), rounding::value((from + k * d) as u32)) <= rounding::value(p),
{
    let n = p - from;
    let (q, r) = (n / d, n % d);
    vstd::arithmetic::div_mod::lemma_fundamental_div_mod(n, d);
    vstd::arithmetic::div_mod::lemma_mod_bound(n, d);
    assert(d * q == q * d && (q + 1) * d == q * d + d) by (nonlinear_arith);
    let lo = from + q * d;
    let hi = lo + d;
    let e = p as int / 0x80_0000;
    lemma_inside_one(p as int, from, d, q, e);
    let (l, h) = (lo as u32, hi as u32);
    lemma_even_growth(p, e);
    lemma_even_growth(l, e);
    lemma_even_growth(h, e);
    let s = spacing(e);
    let base = e * 0x80_0000;
    assert((p - base) * s - (lo - base) * s == r * s && (hi - base) * s - (p - base) * s == (d - r) * s) by (nonlinear_arith)
        requires
            p == lo + r,
            hi == lo + d,
    ;
    assert(2 * r <= d ==> r * s <= (d - r) * s) by (nonlinear_arith)
        requires
            s > 0,
    ;
    assert(2 * r >= d ==> r * s >= (d - r) * s) by (nonlinear_arith)
        requires
            s > 0,
    ;
    assert(r * s >= 0 && (d - r) * s >= 0) by (nonlinear_arith)
        requires
            0 <= r < d,
            s > 0,
    ;
    if other <= lo {
        rounding::lemma_magnitude_orders(other, l);
    } else {
        rounding::lemma_magnitude_orders(h, other);
    }
    rounding::lemma_magnitude_orders(0, l);
    assert(float_bits::scaled_magnitude(0) == 0);
    assert(rounding::value(0) == 0);
}

/// Neighbouring multiples of a divisor of the span of an exponent lie within one span.
#[verifier::rlimit(40)]
proof fn lemma_inside_one(p: int, from: int, d: int, q: int, e: int)
    requires
        0 < d,
        0x80_0000int % d == 0,
        from % 0x80_0000 == 0,
        0 <= from <= p < 0x7f80_0000,
        q == (p - from) / d,
        e == p / 0x80_0000,
    ensures
        0 <= e <= 254,
        e * 0x80_0000 <= from + q * d <= p,
        p < from + q * d + d <= (e + 1) * 0x80_0000,
{
    let c = 0x80_0000int / d;
    let a = from / 0x80_0000;
    vstd::arithmetic::div_mod::lemma_fundamental_div_mod(0x80_0000, d);
    vstd::arithmetic::div_mod::lemma_fundamental_div_mod(from, 0x80_0000);
    vstd::arithmetic::div_mod::lemma_fundamental_div_mod(p - from, d);
    vstd::arithmetic::div_mod::lemma_mod_bound(p - from, d);
    let m = (e - a) * c;
    assert(m * d == (e - a) * 0x80_0000) by (nonlinear_arith)
        requires
            m == (e - a) * c,
            d * c == 0x80_0000,
    ;
    let w = m + c;
    assert(w * d == (e - a) * 0x80_0000 + 0x80_0000) by (nonlinear_arith)
        requires
            w == m + c,
            m * d == (e - a) * 0x80_0000,
            d * c == 0x80_0000,
    ;
    let n = p - from;
    assert(d * q <= n < d * q + d);
    assert(m <= q) by (nonlinear_arith)
        requires
            m * d <= n,
            n < d * q + d,
            d > 0,
    ;
    assert(q + 1 <= w) by (nonlinear_arith)
        requires
            n < w * d,
            d * q <= n,
            d > 0,
    ;
    assert(m * d <= q * d && q * d + d <= w * d && d * q == q * d) by (nonlinear_arith)
        requires
            m <= q,
            q + 1 <= w,
            d > 0,
    ;
}

/// The magnitude of a pattern, and the value with its sign.
proof fn lemma_signed_value(bits: u32)
    ensures
        rounding::value(bits) == (if bits < 0x8000_0000 {
            rounding::value((bits % 0x8000_0000) as u32)
        } else {
            -rounding::value((bits % 0x8000_0000) as u32)
        }),
        rounding::value((bits % 0x8000_0000) as u32) >= 0,
{
    rounding::lemma_sign_apart(bits);
}

/// The bfloat16 number that a number is narrowed to is the nearest one: no other is less far
/// from it.
#[verifier::rlimit(40)]
pub proof fn law_bf16_is_nearest(bits: u32, other: u16)
    requires
        bits % 0x8000_0000 < 0x7f7f_8000,
        other % 0x8000 < 0x7f80,
    ensures
        0 <= float_bits::bf16_narrowed(bits) <= u16::MAX,
        apart(
            rounding::value(bits),
            rounding::value(float_bits::bf16_widened(float_bits::bf16_narrowed(bits) as u16) as u32),
        ) <= apart(rounding::value(bits), rounding::value(float_bits::bf16_widened(other) as u32)),
{
    let p = (bits % 0x8000_0000) as u32;
    let s: int = if bits < 0x8000_0000 {
        0
    } else {
        1
    };
    let (q, r) = (p as int / 0x1_0000, p as int % 0x1_0000);
    let k = float_bits::round_half_even(p as int, 0x1_0000);
    assert(bits as int / 0x1_0000 == s * 0x8000 + q && bits as int % 0x1_0000 == r);
    assert((s * 0x8000 + q) % 2 == q % 2);
    assert(float_bits::bf16_narrowed(bits) == s * 0x8000 + k);
    lemma_nearest_multiple(p as int, 0x1_0000, 0x7f7f);
    assert(0 <= k <= 0x7f7f) by {
        assert(q <= 0x7f7f);
        if q == 0x7f7f {
            assert(r < 0x8000);
        }
    }
    let n = (s * 0x8000 + k) as u16;
    let wide = float_bits::bf16_widened(n) as u32;
    assert(n % 0x8000 == k);
    assert(wide == s * 0x8000_0000 + k * 0x1_0000);
    assert(wide % 0x8000_0000 == k * 0x1_0000);
    let far = float_bits::bf16_widened(other) as u32;
    let o = (other % 0x8000) * 0x1_0000;
    assert(far == other * 0x1_0000);
    assert(far % 0x8000_0000 == o);
    lemma_nearest_pattern(p, 0, 0x1_0000, k, o as u32);
    lemma_signed_value(bits);
    lemma_signed_value(wide);
    lemma_signed_value(far);
}

/// How many of the smallest half-precision numbers make up one of its numbers.
pub open spec fn half_magnitude(bits: u16) -> int {
    let e = (bits / 0x400) % 32;
    let m = bits % 0x400;
    if e == 0 {
        m as int
    } else {
        (m + 0x400) * pow2((e - 1) as nat)
    }
}

/// A half-precision number keeps its value when it is widened: it is as many times the
/// smallest one as its digits and exponent say, and this is 2 to the power of -24.
#[verifier::rlimit(40)]
pub proof fn law_half_widens_exactly(bits: u16)
    requires
        (bits / 0x400) % 32 != 31,
    ensures
        0 <= float_bits::f16_widened(bits) <= u32::MAX,
        (float_bits::f16_widened(bits) as u32) % 0x8000_0000 < 0x4780_0000,
        (float_bits::f16_widened(bits) as u32) >= 0x8000_0000 <==> bits >= 0x8000,
        rounding::value((float_bits::f16_widened(bits) as u32 % 0x8000_0000) as u32) == half_magnitude(bits) * pow2(125),
        rounding::value(float_bits::f16_widened(bits) as u32) == (if bits < 0x8000 {
            half_magnitude(bits) * pow2(125)
        } else {
            -(half_magnitude(bits) * pow2(125))
        }),
        pow2(125) * pow2(24) == rounding::unit(),
{
    lemma2_to64();
    lemma_pow2_adds(125, 24);
    let s = (bits / 0x8000) as int;
    let e = ((bits / 0x400) % 32) as int;
    let m = (bits % 0x400) as int;
    assert(bits == s * 0x8000 + e * 0x400 + m);
    let magnitude = float_bits::f16_widened(bits) - s * 0x8000_0000;
    let u = pow2(125) as int;
    if e > 0 {
        lemma_pow2_adds(13, (e + 111) as nat);
        lemma_pow2_adds((e - 1) as nat, 125);
        let (a, b, c) = (pow2((e + 111) as nat) as int, pow2((e - 1) as nat) as int, pow2((e + 124) as nat) as int);
        assert(magnitude == (e + 112) * 0x80_0000 + m * 0x2000);
        let w = magnitude as u32;
        assert((w / 0x80_0000) % 256 == e + 112 && w % 0x80_0000 == m * 0x2000);
        assert(rounding::value(w) == (m * 0x2000 + 0x80_0000) * a);
        assert((m * 0x2000 + 0x80_0000) * a == (m + 0x400) * (0x2000 * a)) by (nonlinear_arith);
        assert(((m + 0x400) * b) * u == (m + 0x400) * (b * u)) by (nonlinear_arith);
    } else if m > 0 {
        float_bits::lemma_highest_bit(m as nat);
        let k = float_bits::highest_bit(m as nat);
        if k > 10 {
            lemma_pow2_strictly_increases(10, k);
        }
        assert(k < 10);
        lemma_pow2_adds(k, (23 - k) as nat);
        lemma_pow2_adds(k + 1, (23 - k) as nat);
        lemma_pow2_adds((23 - k) as nat, k + 102);
        lemma_pow2_pos((23 - k) as nat);
        let p = pow2((23 - k) as nat) as int;
        let low = (m - pow2(k)) * p;
        assert(0 <= low && low + pow2(k) * p == m * p && m * p < pow2(k + 1) * p) by (nonlinear_arith)
            requires
                low == (m - pow2(k)) * p,
                pow2(k) <= m < pow2(k + 1),
                p > 0,
        ;
        assert(pow2(23) == 0x80_0000 && pow2(24) == 0x100_0000);
        assert(low < 0x80_0000 && magnitude == (k + 103) * 0x80_0000 + low);
        let w = magnitude as u32;
        assert((w / 0x80_0000) % 256 == k + 103 && w % 0x80_0000 == low);
        let a = pow2(k + 102) as int;
        assert(rounding::value(w) == (low + 0x80_0000) * a);
        assert((m * p) * a == m * (p * a)) by (nonlinear_arith);
    } else {
        assert(magnitude == 0);
        assert(0 * u == 0) by (nonlinear_arith);
    }
    let wide = float_bits::f16_widened(bits) as u32;
    assert(wide % 0x8000_0000 == magnitude);
    lemma_signed_value(wide);
}

/// The half-precision number that a number is narrowed to is the nearest one, up to where
/// narrowing gives infinity.
#[verifier::rlimit(40)]
pub proof fn law_half_is_nearest(bits: u32, other: u16)
    requires
        bits % 0x8000_0000 < 0x477f_f000,
        (other / 0x400) % 32 != 31,
    ensures
        0 <= float_bits::f16_narrowed(bits) <= u16::MAX,
        apart(
            rounding::value(bits),
            rounding::value(float_bits::f16_widened(float_bits::f16_narrowed(bits) as u16) as u32),
        ) <= apart(rounding::value(bits), rounding::value(float_bits::f16_widened(other) as u32)),
{
    let p = (bits % 0x8000_0000) as u32;
    let s = (bits / 0x8000_0000) as int;
    let far = float_bits::f16_widened(other) as u32;
    let n = float_bits::f16_narrowed(p);
    lemma_narrowed_sign(bits, p, s);
    law_half_widens_exactly(other);
    lemma_signed_value(bits);
    lemma_half_magnitudes(p, other, n);
    let h = (s * 0x8000 + n) as u16;
    lemma_half_sign(h, n as u16, s);
    law_half_widens_exactly(h);
    lemma_half_magnitude_counts(other);
    lemma_pow2_pos(125);
    let (j, u) = (half_magnitude(other), pow2(125) as int);
    assert(j * u >= 0) by (nonlinear_arith)
        requires
            j >= 0,
            u > 0,
    ;
}

/// The sign is carried over.
proof fn lemma_narrowed_sign(bits: u32, p: u32, s: int)
    requires
        p == bits % 0x8000_0000,
        s == bits / 0x8000_0000,
        p < 0x477f_f000,
    ensures
        float_bits::f16_narrowed(bits) == s * 0x8000 + float_bits::f16_narrowed(p),
        s == 0 || s == 1,
        s == 0 <==> bits < 0x8000_0000,
{
    assert(p % 0x8000_0000 == p && p / 0x8000_0000 == 0);
}

/// The sign is no part of the magnitude.
proof fn lemma_half_sign(h: u16, n: u16, s: int)
    requires
        n < 0x7c00,
        s == 0 || s == 1,
        h == s * 0x8000 + n,
    ensures
        half_magnitude(h) == half_magnitude(n),
        (h / 0x400) % 32 != 31,
        h < 0x8000 <==> s == 0,
{
    assert((h / 0x400) % 32 == (n / 0x400) % 32 && h % 0x400 == n % 0x400);
    assert((n / 0x400) % 32 < 31);
}

/// The same without signs, for a number that is no smaller than the smallest normal one.
#[verifier::rlimit(40)]
proof fn lemma_half_of_normal(p: u32, other: u16, n: int)
    requires
        113 * 0x80_0000 <= p < 0x477f_f000,
        (other / 0x400) % 32 != 31,
        n == float_bits::f16_narrowed(p),
    ensures
        0 <= n < 0x7c00,
        apart(rounding::value(p), half_magnitude(n as u16) * pow2(125)) <= apart(
            rounding::value(p),
            half_magnitude(other) * pow2(125),
        ),
        apart(rounding::value(p), half_magnitude(n as u16) * pow2(125)) <= rounding::value(p),
{
    let from = 112 * 0x80_0000int;
    let k = float_bits::round_half_even(p - from, 0x2000);
    let q = (p - from) / 0x2000;
    lemma_nearest_multiple(p - from, 0x2000, 0);
    lemma_normal_range(p as int, q, k);
    lemma_narrowed_normal(p, k);
    let x = (other % 0x8000) as u16;
    lemma_without_sign(other, x);
    law_half_widens_exactly(x);
    let w = float_bits::f16_widened(x) as u32;
    assert(w < 0x8000_0000);
    assert(w % 0x8000_0000 == w);
    if x >= 0x400 {
        lemma_widened_normal(x);
    } else {
        lemma_small_half(x);
    }
    lemma_nearest_pattern(p, from, 0x2000, k, w);
    let c = k as u16;
    lemma_widened_normal(c);
    law_half_widens_exactly(c);
    let v = (from + k * 0x2000) as u32;
    assert(v % 0x8000_0000 == v);
}

/// The quotient of a normal number by the step of half precision.
proof fn lemma_normal_range(p: int, q: int, k: int)
    requires
        113 * 0x80_0000 <= p < 0x477f_f000,
        q == (p - 112 * 0x80_0000) / 0x2000,
        k == float_bits::round_half_even(p - 112 * 0x80_0000, 0x2000),
        k == q || k == q + 1,
    ensures
        0x400 <= q <= 0x7bff,
        0x400 <= k <= 0x7bff,
{
    if q == 0x7bff {
        assert((p - 112 * 0x80_0000) % 0x2000 < 0x1000);
    }
}

/// A normal number is narrowed to its quotient by the step.
proof fn lemma_narrowed_normal(p: u32, k: int)
    requires
        113 * 0x80_0000 <= p < 0x477f_f000,
        k == float_bits::round_half_even(p - 112 * 0x80_0000, 0x2000),
        k <= 0x7bff,
    ensures
        float_bits::f16_narrowed(p) == k,
{
    assert(p % 0x8000_0000 == p);
    assert(p / 0x8000_0000 == 0);
    assert(p / 0x80_0000 >= 113);
}

/// A half-precision number without its sign.
proof fn lemma_without_sign(other: u16, x: u16)
    requires
        (other / 0x400) % 32 != 31,
        x == other % 0x8000,
    ensures
        half_magnitude(x) == half_magnitude(other),
        (x / 0x400) % 32 != 31,
        x < 0x7c00,
{
    assert((x / 0x400) % 32 == (other / 0x400) % 32 && x % 0x400 == other % 0x400) by (bit_vector)
        requires
            x == other % 0x8000,
    ;
    assert(x < 0x7c00) by (bit_vector)
        requires
            x < 0x8000u16,
            (x / 0x400) % 32 != 31,
    ;
}

/// A normal half-precision number is widened by moving its exponent and its digits.
proof fn lemma_widened_normal(c: u16)
    requires
        0x400 <= c < 0x7c00,
    ensures
        float_bits::f16_widened(c) == 112 * 0x80_0000 + c * 0x2000,
        (c / 0x400) % 32 != 31,
        c < 0x8000,
{
    let e = c / 0x400;
    assert(c / 0x8000 == 0);
    assert(1 <= e <= 30);
    assert(e % 32 == e);
    assert(c == e * 0x400 + c % 0x400);
}

/// The same, for one among the numbers below.
#[verifier::rlimit(40)]
proof fn lemma_half_of_small(p: u32, other: u16, n: int)
    requires
        102 * 0x80_0000 <= p < 113 * 0x80_0000,
        n == float_bits::f16_narrowed(p),
    ensures
        0 <= n < 0x7c00,
        apart(rounding::value(p), half_magnitude(n as u16) * pow2(125)) <= apart(
            rounding::value(p),
            half_magnitude(other) * pow2(125),
        ),
        apart(rounding::value(p), half_magnitude(n as u16) * pow2(125)) <= rounding::value(p),
{
    lemma2_to64();
    let u = pow2(125) as int;
    let e = (p / 0x80_0000) as int;
    let m = (p % 0x80_0000) as int;
    let j = half_magnitude(other);
    let d = pow2((126 - e) as nat) as int;
    let a = pow2((e - 1) as nat) as int;
    lemma_pow2_adds((126 - e) as nat, (e - 1) as nat);
    lemma_pow2_pos((126 - e) as nat);
    lemma_pow2_pos((e - 1) as nat);
    let c = m + 0x80_0000;
    let k = float_bits::round_half_even(c, d);
    lemma_nearest_multiple(c, d, j);
    lemma_nearest_multiple(c, d, 0);
    assert(0 * d == 0) by (nonlinear_arith);
    assert((p / 0x80_0000) % 256 == e);
    assert(rounding::value(p) == c * a);
    assert(d >= 0x4000) by {
        if e < 112 {
            lemma_pow2_strictly_increases(14, (126 - e) as nat);
        }
    }
    assert(0 <= c / d < 0x400) by (nonlinear_arith)
        requires
            0 <= c < 0x100_0000,
            d >= 0x4000,
    ;
    assert(p % 0x8000_0000 == p && p / 0x8000_0000 == 0);
    assert(n == k);
    assert(half_magnitude(k as u16) == k) by {
        assert(pow2(0) == 1);
        if k == 0x400 {
            assert((k as u16 / 0x400) % 32 == 1 && k as u16 % 0x400 == 0);
        } else {
            assert((k as u16 / 0x400) % 32 == 0 && k as u16 % 0x400 == k);
        }
    }
    lemma_scaled_apart(c, k, d, a, u);
    lemma_scaled_apart(c, j, d, a, u);
    let (x, y, z) = (apart(c, k * d), apart(c, j * d), c);
    assert(x * a <= y * a && x * a <= z * a) by (nonlinear_arith)
        requires
            x <= y,
            x <= z,
            a > 0,
    ;
}

/// The same, for all numbers.
proof fn lemma_half_magnitudes(p: u32, other: u16, n: int)
    requires
        p < 0x477f_f000,
        (other / 0x400) % 32 != 31,
        n == float_bits::f16_narrowed(p),
    ensures
        0 <= n < 0x7c00,
        apart(rounding::value(p), half_magnitude(n as u16) * pow2(125)) <= apart(
            rounding::value(p),
            half_magnitude(other) * pow2(125),
        ),
        apart(rounding::value(p), half_magnitude(n as u16) * pow2(125)) <= rounding::value(p),
{
    if p >= 113 * 0x80_0000 {
        lemma_half_of_normal(p, other, n);
    } else if p >= 102 * 0x80_0000 {
        lemma_half_of_small(p, other, n);
    } else {
        let u = pow2(125) as int;
        let j = half_magnitude(other);
        lemma_pow2_pos(125);
        assert(p % 0x8000_0000 == p && p / 0x8000_0000 == 0 && p / 0x80_0000 < 102);
        assert(n == 0);
        assert(half_magnitude(0) == 0);
        assert(0 * u == 0) by (nonlinear_arith);
        lemma_tiny(p, (p / 0x80_0000) as int, (p % 0x80_0000) as int);
        lemma_half_magnitude_counts(other);
        assert(j * u == 0 || j * u >= u) by (nonlinear_arith)
            requires
                j >= 0,
                u > 0,
        ;
    }
}

/// A magnitude is not negative.
proof fn lemma_half_magnitude_counts(bits: u16)
    ensures
        half_magnitude(bits) >= 0,
{
    let e = (bits / 0x400) % 32;
    if e > 0 {
        lemma_pow2_pos((e - 1) as nat);
        let (m, a) = ((bits % 0x400 + 0x400) as int, pow2((e - 1) as nat) as int);
        assert(m * a >= 0) by (nonlinear_arith)
            requires
                m >= 0,
                a > 0,
        ;
    }
}

/// A number of a small exponent is below half of the smallest half-precision number.
proof fn lemma_tiny(p: u32, e: int, m: int)
    requires
        p < 0x8000_0000,
        e == p / 0x80_0000,
        m == p % 0x80_0000,
        e < 102,
    ensures
        0 <= 2 * rounding::value(p) <= pow2(125),
{
    lemma2_to64();
    lemma_pow2_unfold(125);
    lemma_pow2_adds(24, 100);
    lemma_pow2_pos(100);
    assert((p / 0x80_0000) % 256 == e);
    let h = pow2(100) as int;
    if e == 0 {
        assert(m <= 0x100_0000 * h) by (nonlinear_arith)
            requires
                m < 0x80_0000,
                h >= 1,
        ;
    } else {
        lemma_pow2_pos((e - 1) as nat);
        let a = pow2((e - 1) as nat) as int;
        if e < 101 {
            lemma_pow2_strictly_increases((e - 1) as nat, 100);
        }
        assert(0 <= (m + 0x80_0000) * a <= 0x100_0000 * h) by (nonlinear_arith)
            requires
                0 <= m < 0x80_0000,
                0 < a <= h,
        ;
    }
}

/// Distances scale.
proof fn lemma_scaled_apart(c: int, k: int, d: int, a: int, u: int)
    requires
        a > 0,
        d * a == u,
    ensures
        apart(c * a, k * u) == apart(c, k * d) * a,
{
    let b = k * d;
    assert(k * u == b * a) by (nonlinear_arith)
        requires
            b == k * d,
            d * a == u,
    ;
    assert((c <= b <==> c * a <= b * a) && (b - c) * a == b * a - c * a && (c - b) * a == c * a - b * a) by (nonlinear_arith)
        requires
            a > 0,
    ;
}

/// The smallest half-precision numbers lie below the others when they are widened.
proof fn lemma_small_half(x: u16)
    requires
        x < 0x400,
    ensures
        0 <= float_bits::f16_widened(x) < 113 * 0x80_0000,
{
    lemma2_to64();
    let m = x as int;
    assert(x / 0x8000 == 0 && (x / 0x400) % 32 == 0 && x % 0x400 == x);
    if m > 0 {
        float_bits::lemma_highest_bit(m as nat);
        let k = float_bits::highest_bit(m as nat);
        if k > 10 {
            lemma_pow2_strictly_increases(10, k);
        }
        assert(k < 10);
        lemma_pow2_adds(k, (23 - k) as nat);
        lemma_pow2_adds(k + 1, (23 - k) as nat);
        lemma_pow2_pos((23 - k) as nat);
        let p = pow2((23 - k) as nat) as int;
        let low = (m - pow2(k)) * p;
        assert(0 <= low && low + pow2(k) * p == m * p && m * p < pow2(k + 1) * p) by (nonlinear_arith)
            requires
                low == (m - pow2(k)) * p,
                pow2(k) <= m < pow2(k + 1),
                p > 0,
        ;
        assert(pow2(23) == 0x80_0000 && pow2(24) == 0x100_0000);
        assert(low < 0x80_0000);
        assert(float_bits::f16_widened(x) == (k + 103) * 0x80_0000 + low);
    }
}

} // verus!
