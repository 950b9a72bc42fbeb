use vstd::arithmetic::power2::{lemma2_to64, lemma_pow2_adds, lemma_pow2_pos, lemma_pow2_unfold, pow2};
use vstd::prelude::*;

verus! {

/// `n / d`, rounded to the nearest integer, and to the even one of two that are
/// equally near.
pub open spec fn round_half_even(n: int, d: int) -> int {
    let q = n / d;
    let r = n % d;
    if 2 * r > d || (2 * r == d && q % 2 == 1) {
        q + 1
    } else {
        q
    }
}

/// The single-precision pattern is not a number.
pub open spec fn is_nan(bits: u32) -> bool {
    bits % 0x8000_0000 > 0x7f80_0000
}

/// The single-precision pattern of a number without a sign, or of infinity.
pub open spec fn is_unsigned(bits: u32) -> bool {
    bits <= 0x7f80_0000
}

/// The single-precision pattern of one of the two zeros.
pub open spec fn is_zero(bits: u32) -> bool {
    bits % 0x8000_0000 == 0
}

/// The single-precision pattern of the value that a bfloat16 pattern stands for.
/// What is not a number becomes a quiet one.
pub open spec fn bf16_widened(bits: u16) -> int {
    if bits % 0x8000 > 0x7f80 && (bits / 0x40) % 2 == 0 {
        (bits + 0x40) * 0x1_0000
    } else {
        bits * 0x1_0000
    }
}

/// Position of the highest bit that is set.
pub open spec fn highest_bit(m: nat) -> nat
    decreases m,
{
    if m <= 1 {
        0
    } else {
        highest_bit(m / 2) + 1
    }
}

/// The single-precision pattern of the value that a half-precision pattern stands
/// for. What is not a number becomes a quiet one.
pub open spec fn f16_widened(bits: u16) -> int {
    let sign = (bits / 0x8000) * 0x8000_0000;
    let e = (bits / 0x400) % 32;
    let m = bits % 0x400;
    let k = highest_bit(m as nat);
    if e == 31 {
        sign + 0x7f80_0000 + (if m == 0 {
            0
        } else {
            0x40_0000 + (m % 0x200) * 0x2000
        })
    } else if e > 0 {
        sign + (e + 112) * 0x80_0000 + m * 0x2000
    } else if m > 0 {
        sign + (k + 103) * 0x80_0000 + (m - pow2(k)) * pow2((23 - k) as nat)
    } else {
        sign as int
    }
}

/// The bfloat16 pattern nearest to a single-precision one. What is not a number
/// keeps its upper half and becomes quiet.
pub open spec fn bf16_narrowed(bits: u32) -> int {
    if is_nan(bits) {
        let upper = bits / 0x1_0000;
        if (upper / 0x40) % 2 == 0 {
            upper + 0x40
        } else {
            upper as int
        }
    } else {
        round_half_even(bits as int, 0x1_0000)
    }
}

/// The half-precision pattern nearest to a single-precision one: infinity above the
/// largest finite value, a denormal or zero below the smallest normal one. What is
/// not a number keeps the upper part of its payload and becomes quiet.
pub open spec fn f16_narrowed(bits: u32) -> int {
    let sign = (bits / 0x8000_0000) * 0x8000;
    let magnitude = bits % 0x8000_0000;
    let e = magnitude / 0x80_0000;
    let m = magnitude % 0x80_0000;
    if is_nan(bits) {
        sign + 0x7e00 + (m / 0x2000) % 0x200
    } else if e >= 113 {
        let r = round_half_even(magnitude - 112 * 0x80_0000, 0x2000);
        sign + (if r > 0x7c00 {
            0x7c00
        } else {
            r
        })
    } else if e >= 102 {
        sign + round_half_even(m + 0x80_0000, pow2((126 - e) as nat) as int)
    } else {
        sign as int
    }
}

/// `half::bf16::to_f32` on the value with the given pattern: the value is exact in
/// single precision, so the upper half of the result is the pattern and the lower
/// half is zero, except that a signalling pattern comes back quiet.
#[verifier::external_body]
pub(crate) fn bf16_to_single(bits: u16) -> (r: u32)
    ensures
        r == bf16_widened(bits),
{
    half::bf16::from_bits(bits).to_f32().to_bits()
}

/// The single-precision pattern of the value that a half-precision pattern stands for.
pub fn f16_to_single(bits: u16) -> (r: u32)
    ensures
        r == f16_widened(bits),
{
    let sign: u32 = (bits / 0x8000) as u32 * 0x8000_0000;
    let e: u32 = ((bits / 0x400) % 32) as u32;
    let m: u32 = (bits % 0x400) as u32;
    if e == 31 {
        if m == 0 {
            sign + 0x7f80_0000
        } else {
            sign + 0x7fc0_0000 + (m % 0x200) * 0x2000
        }
    } else if e > 0 {
        sign + (e + 112) * 0x80_0000 + m * 0x2000
    } else if m > 0 {
        // Shift the leading one to the position of the hidden bit.
        let mut scaled: u32 = m * 0x2000;
        let mut high: u32 = 10;
        let ghost k = highest_bit(m as nat);
        proof {
            lemma2_to64();
            lemma_highest_bit(m as nat);
            if k >= 10 {
                lemma_pow2_monotone(10, k);
            }
        }
        while scaled < 0x80_0000
            invariant
                0 < m < 0x400,
                k == highest_bit(m as nat),
                pow2(k) <= m < pow2(k + 1),
                k <= high <= 10,
                scaled == m * pow2((23 - high) as nat),
                scaled < 0x100_0000,
            decreases high,
        {
            proof {
                lemma_pow2_unfold((24 - high) as nat);
                let p = pow2((23 - high) as nat) as int;
                if high == k {
                    lemma_pow2_adds(k, (23 - k) as nat);
                    lemma2_to64();
                    assert(m * p >= pow2(k) * p) by (nonlinear_arith)
                        requires
                            m >= pow2(k),
                            p >= 0,
                    ;
                }
                lemma_pow2_pos((23 - high) as nat);
                assert(m * (2 * p) == 2 * (m * p)) by (nonlinear_arith);
            }
            scaled = scaled * 2;
            high = high - 1;
        }
        proof {
            if high > k {
                lemma_pow2_monotone(k + 1, high as nat);
                lemma_pow2_adds(high as nat, (23 - high) as nat);
                lemma2_to64();
                let p = pow2((23 - high) as nat) as int;
                assert(m * p < pow2(high as nat) * p) by (nonlinear_arith)
                    requires
                        m < pow2(high as nat),
                        p >= 1,
                ;
            }
            lemma_pow2_adds(k, (23 - k) as nat);
            lemma2_to64();
            let p = pow2((23 - k) as nat) as int;
            assert((m - pow2(k)) * p == m * p - pow2(k) * p) by (nonlinear_arith);
        }
        sign + (high + 103) * 0x80_0000 + (scaled - 0x80_0000)
    } else {
        sign
    }
}

pub proof fn lemma_highest_bit(m: nat)
    requires
        m > 0,
    ensures
        pow2(highest_bit(m)) <= m < pow2(highest_bit(m) + 1),
    decreases m,
{
    lemma2_to64();
    if m > 1 {
        lemma_highest_bit(m / 2);
        let k = highest_bit(m / 2);
        lemma_pow2_unfold(k + 1);
        lemma_pow2_unfold(k + 2);
    }
}

proof fn lemma_pow2_monotone(a: nat, b: nat)
    requires
        a <= b,
    ensures
        pow2(a) <= pow2(b),
    decreases b,
{
    if a < b {
        lemma_pow2_monotone(a, (b - 1) as nat);
        lemma_pow2_unfold(b);
    }
}

/// `n / d`, rounded to nearest, ties to even.
fn divide_half_even(n: u32, d: u32) -> (r: u32)
    requires
        0 < d <= 0x8000_0000,
        n <= 0xffff_fffe,
    ensures
        r == round_half_even(n as int, d as int),
{
    let q: u32 = n / d;
    let rest: u32 = n % d;
    let other: u32 = d - rest;
    if rest > other || (rest == other && q % 2 == 1) {
        q + 1
    } else {
        q
    }
}

/// The bfloat16 pattern nearest to a single-precision one.
pub fn bf16_from_single(bits: u32) -> (r: u16)
    ensures
        r == bf16_narrowed(bits),
{
    let upper: u32 = bits / 0x1_0000;
    if bits % 0x8000_0000 > 0x7f80_0000 {
        if (upper / 0x40) % 2 == 0 {
            (upper + 0x40) as u16
        } else {
            upper as u16
        }
    } else {
        let r: u32 = divide_half_even(bits, 0x1_0000);
        r as u16
    }
}

/// The half-precision pattern nearest to a single-precision one.
pub fn f16_from_single(bits: u32) -> (r: u16)
    ensures
        r == f16_narrowed(bits),
{
    let sign: u32 = (bits / 0x8000_0000) * 0x8000;
    let magnitude: u32 = bits % 0x8000_0000;
    let e: u32 = magnitude / 0x80_0000;
    let m: u32 = magnitude % 0x80_0000;
    if magnitude > 0x7f80_0000 {
        (sign + 0x7e00 + (m / 0x2000) % 0x200) as u16
    } else if e >= 113 {
        let r: u32 = divide_half_even(magnitude - 112 * 0x80_0000, 0x2000);
        let capped: u32 = if r > 0x7c00 { 0x7c00 } else { r };
        (sign + capped) as u16
    } else if e >= 102 {
        let mut divisor: u32 = 0x4000;
        let mut i: u32 = 112;
        proof {
            lemma2_to64();
        }
        while i > e
            invariant
                102 <= e <= i <= 112,
                divisor == pow2((126 - i) as nat),
                0x4000 <= divisor <= 0x100_0000,
            decreases i,
        {
            proof {
                lemma2_to64();
                lemma_pow2_unfold((127 - i) as nat);
            }
            divisor = divisor * 2;
            i = i - 1;
        }
        let r: u32 = divide_half_even(m + 0x80_0000, divisor);
        proof {
            assert(r <= 0x400) by (nonlinear_arith)
                requires
                    r <= (m + 0x80_0000) / divisor as int + 1,
                    m < 0x80_0000,
                    divisor >= 0x4000,
            ;
        }
        (sign + r) as u16
    } else {
        sign as u16
    }
}

/// The values that two single-precision patterns stand for are equal: the zeros of
/// either sign are, and what is not a number equals nothing.
pub open spec fn equal_values(a: u32, b: u32) -> bool {
    &&& !is_nan(a)
    &&& !is_nan(b)
    &&& a == b || (a % 0x8000_0000 == 0 && b % 0x8000_0000 == 0)
}

/// Whether two single-precision patterns stand for equal values.
pub fn same_value(a: u32, b: u32) -> (r: bool)
    ensures
        r == equal_values(a, b),
{
    a % 0x8000_0000 <= 0x7f80_0000 && b % 0x8000_0000 <= 0x7f80_0000 && (a == b || (a % 0x8000_0000 == 0 && b
        % 0x8000_0000 == 0))
}

/// An integer that orders the patterns of numbers as their values: both zeros are 0,
/// and the negative values count downwards from there.
pub open spec fn order_key(bits: u32) -> int {
    if bits < 0x8000_0000 {
        bits as int
    } else {
        0x8000_0000 - bits
    }
}

/// The value of `a` is greater than that of `b`; never so where one is not a number.
pub open spec fn above(a: u32, b: u32) -> bool {
    &&& !is_nan(a)
    &&& !is_nan(b)
    &&& order_key(a) > order_key(b)
}

/// The value of `a` is not greater than that of `b`; never so where one is not a number.
pub open spec fn at_most(a: u32, b: u32) -> bool {
    &&& !is_nan(a)
    &&& !is_nan(b)
    &&& order_key(a) <= order_key(b)
}

/// Whether the value of `a` is not greater than that of `b`.
pub fn is_at_most(a: u32, b: u32) -> (r: bool)
    ensures
        r == at_most(a, b),
{
    a % 0x8000_0000 <= 0x7f80_0000 && b % 0x8000_0000 <= 0x7f80_0000 && !is_above(a, b)
}

/// Whether the value of `a` is greater than that of `b`.
pub fn is_above(a: u32, b: u32) -> (r: bool)
    ensures
        r == above(a, b),
{
    if a % 0x8000_0000 > 0x7f80_0000 || b % 0x8000_0000 > 0x7f80_0000 {
        return false;
    }
    if a < 0x8000_0000 {
        if b < 0x8000_0000 {
            a > b
        } else {
            a > 0 || b > 0x8000_0000
        }
    } else {
        b >= 0x8000_0000 && a < b
    }
}

/// The pattern stands for a finite number.
pub open spec fn is_finite(bits: u32) -> bool {
    (bits / 0x80_0000) % 256 != 255
}

/// The magnitude of a finite number, in units of the smallest positive one.
pub open spec fn scaled_magnitude(bits: u32) -> nat {
    let e = (bits / 0x80_0000) % 256;
    let m = bits % 0x80_0000;
    if e == 0 {
        m as nat
    } else {
        ((m + 0x80_0000) as nat) * pow2((e - 1) as nat)
    }
}

/// How many of these units make one.
pub open spec fn unit() -> nat {
    pow2(149)
}

/// The magnitude of a finite number is a whole number.
pub open spec fn is_whole(bits: u32) -> bool {
    scaled_magnitude(bits) % unit() == 0
}

/// That whole number.
pub open spec fn whole_value(bits: u32) -> nat {
    scaled_magnitude(bits) / unit()
}

/// A finite magnitude, read as a whole number: `None` where it has a fraction, and
/// `limit` where it is that large or larger.
pub fn whole_magnitude(bits: u32, limit: usize) -> (r: Option<usize>)
    requires
        is_finite(bits),
    ensures
        r is Some <==> is_whole(bits),
        r matches Some(v) ==> v == (if whole_value(bits) < limit {
            whole_value(bits)
        } else {
            limit as nat
        }),
{
    let e: u32 = (bits / 0x80_0000) % 256;
    let m: u32 = bits % 0x80_0000;
    proof {
        lemma_pow2_pos(149);
        lemma2_to64();
    }
    if e < 127 {
        proof {
            if e == 0 {
                lemma_pow2_monotone(23, 149);
                vstd::arithmetic::div_mod::lemma_small_mod(m as nat, unit());
                vstd::arithmetic::div_mod::lemma_basic_div(m as int, unit() as int);
            } else {
                let s = scaled_magnitude(bits);
                lemma_pow2_adds(24, (e - 1) as nat);
                lemma_pow2_monotone((e + 23) as nat, 149);
                lemma_pow2_pos((e - 1) as nat);
                let p = pow2((e - 1) as nat) as int;
                assert(0 < (m + 0x80_0000) * p < 0x100_0000 * p) by (nonlinear_arith)
                    requires
                        0 <= m < 0x80_0000,
                        p > 0,
                ;
                vstd::arithmetic::div_mod::lemma_small_mod(s, unit());
                vstd::arithmetic::div_mod::lemma_basic_div(s as int, unit() as int);
            }
        }
        if e == 0 && m == 0 {
            Some(0)
        } else {
            None
        }
    } else if e < 150 {
        let mant: u32 = m + 0x80_0000;
        let mut divisor: u32 = 1;
        let mut i: u32 = 150;
        while i > e
            invariant
                127 <= e <= i <= 150,
                divisor == pow2((150 - i) as nat),
                1 <= divisor <= 0x80_0000,
            decreases i,
        {
            proof {
                lemma2_to64();
                lemma_pow2_unfold((151 - i) as nat);
                lemma_pow2_monotone((151 - i) as nat, 23);
            }
            divisor = divisor * 2;
            i = i - 1;
        }
        proof {
            let k = (150 - e) as nat;
            let q = pow2((e - 1) as nat) as int;
            lemma_pow2_pos((e - 1) as nat);
            lemma_pow2_adds((e - 1) as nat, k);
            assert(pow2((e - 1) as nat) * pow2(k) == unit());
            lemma_scaled_division(mant as int, divisor as int, q);
        }
        if mant % divisor != 0 {
            None
        } else {
            let v: u32 = mant / divisor;
            if (v as usize) < limit {
                Some(v as usize)
            } else {
                Some(limit)
            }
        }
    } else {
        let mant: u32 = m + 0x80_0000;
        let mut v: usize = mant as usize;
        let mut i: u32 = 150;
        let ghost target = mant * pow2((e - 150) as nat);
        proof {
            lemma_pow2_adds(149, (e - 150) as nat);
            let q = pow2((e - 150) as nat) as int;
            let u = unit() as int;
            assert(mant * (u * q) == u * (mant * q)) by (nonlinear_arith);
            assert(scaled_magnitude(bits) == u * target);
            let one = pow2(0) as int;
            assert(mant * one == mant) by (nonlinear_arith)
                requires
                    one == 1,
            ;
            assert((u * target) % u == 0 && (u * target) / u == target) by (nonlinear_arith)
                requires
                    u > 0,
            ;
        }
        while i < e && v < limit
            invariant
                150 <= i <= e,
                e < 255,
                v == mant * pow2((i - 150) as nat),
                target == mant * pow2((e - 150) as nat),
                is_whole(bits),
                whole_value(bits) == target,
            decreases e - i,
        {
            proof {
                lemma_pow2_unfold((i - 149) as nat);
                let p = pow2((i - 150) as nat) as int;
                assert(mant * (2 * p) == 2 * (mant * p)) by (nonlinear_arith);
                lemma_doubled(mant as int, (i - 149) as nat, (e - 150) as nat);
            }
            if v >= limit - v {
                return Some(limit);
            }
            v = v * 2;
            i = i + 1;
        }
        proof {
            lemma_doubled(mant as int, (i - 150) as nat, (e - 150) as nat);
        }
        if v < limit {
            Some(v)
        } else {
            Some(limit)
        }
    }
}

proof fn lemma_doubled(m: int, a: nat, b: nat)
    requires
        a <= b,
        m >= 0,
    ensures
        m * pow2(a) <= m * pow2(b),
{
    lemma_pow2_monotone(a, b);
    let x = pow2(a) as int;
    let y = pow2(b) as int;
    assert(m * x <= m * y) by (nonlinear_arith)
        requires
            m >= 0,
            x <= y,
    ;
}

/// Scaling both sides of a division changes neither the quotient nor whether there
/// is a remainder.
proof fn lemma_scaled_division(n: int, d: int, q: int)
    requires
        n >= 0,
        d > 0,
        q > 0,
    ensures
        ((n * q) % (q * d) == 0) <==> (n % d == 0),
        (n * q) / (q * d) == n / d,
{
    let a = n / d;
    let r = n % d;
    vstd::arithmetic::div_mod::lemma_fundamental_div_mod(n, d);
    assert(n * q == a * (q * d) + r * q) by (nonlinear_arith)
        requires
            n == d * a + r,
    ;
    assert(0 <= r * q < q * d) by (nonlinear_arith)
        requires
            0 <= r < d,
            q > 0,
    ;
    assert(a * (q * d) == (q * d) * a) by (nonlinear_arith);
    vstd::arithmetic::div_mod::lemma_fundamental_div_mod_converse(n * q, q * d, a, r * q);
    assert(r * q == 0 <==> r == 0) by (nonlinear_arith)
        requires
            q > 0,
            r >= 0,
    ;
}

/// A multiple of the divisor is divided exactly.
proof fn lemma_exact_quotient(q: int, d: int)
    requires
        d > 0,
    ensures
        round_half_even(q * d, d) == q,
{
    vstd::arithmetic::div_mod::lemma_div_multiples_vanish(q, d);
    vstd::arithmetic::div_mod::lemma_mod_multiples_basic(q, d);
    assert(d * q == q * d) by (nonlinear_arith);
}

/// A bfloat16 value that is widened and narrowed again is the same, if it is a number.
pub proof fn law_bf16_round_trip(bits: u16)
    requires
        bits % 0x8000 <= 0x7f80,
    ensures
        0 <= bf16_widened(bits) <= u32::MAX,
        !is_nan(bf16_widened(bits) as u32),
        bf16_narrowed(bf16_widened(bits) as u32) == bits,
{
    let w = (bits * 0x1_0000) as u32;
    assert(w % 0x8000_0000 == (bits % 0x8000) * 0x1_0000);
    lemma_exact_quotient(bits as int, 0x1_0000);
}

/// A half-precision value that is widened and narrowed again is the same, if it is a
/// number.
pub proof fn law_f16_round_trip(bits: u16)
    requires
        bits % 0x8000 <= 0x7c00,
    ensures
        0 <= f16_widened(bits) <= u32::MAX,
        !is_nan(f16_widened(bits) as u32),
        f16_narrowed(f16_widened(bits) as u32) == bits,
{
    let s = (bits / 0x8000) as int;
    let e = ((bits / 0x400) % 32) as int;
    let m = (bits % 0x400) as int;
    assert(bits == s * 0x8000 + e * 0x400 + m);
    let magnitude = f16_widened(bits) - s * 0x8000_0000;
    if e == 0 && m > 0 {
        lemma2_to64();
        lemma_highest_bit(m as nat);
        let k = highest_bit(m as nat);
        if k >= 10 {
            lemma_pow2_monotone(10, k);
        }
        lemma_pow2_adds(k, (23 - k) as nat);
        lemma_pow2_adds(k + 1, (23 - k) as nat);
        let p = pow2((23 - k) as nat) as int;
        let low = (m - pow2(k)) * p;
        lemma_pow2_pos((23 - k) as nat);
        assert(0 <= low && low + pow2(k) * p == m * p && m * p < pow2(k + 1) * p) by (nonlinear_arith)
            requires
                low == (m - pow2(k)) * p,
                pow2(k) <= m < pow2(k + 1),
                p > 0,
        ;
        assert(pow2(24) == 0x100_0000);
        assert(low < 0x80_0000);
        assert(magnitude == (k + 103) * 0x80_0000 + low);
        let w = f16_widened(bits) as u32;
        assert(w % 0x8000_0000 == magnitude && w / 0x8000_0000 == s);
        assert(magnitude / 0x80_0000 == k + 103 && magnitude % 0x80_0000 == low);
        lemma_exact_quotient(m, p);
    } else if e == 0 {
        let w = f16_widened(bits) as u32;
        assert(w % 0x8000_0000 == 0 && w / 0x8000_0000 == s);
    } else {
        assert(magnitude == (if e == 31 { 255 } else { e + 112 }) * 0x80_0000 + m * 0x2000);
        let w = f16_widened(bits) as u32;
        assert(w % 0x8000_0000 == magnitude && w / 0x8000_0000 == s);
        if e == 31 {
            lemma_exact_quotient(0x2_3c00, 0x2000);
        } else {
            lemma_exact_quotient(e * 0x400 + m, 0x2000);
        }
    }
}

} // verus!
