use crate::array::NdArray;
use crate::autograd;
use crate::autograd::{GradMode, Tensor};
use crate::fixed;
use crate::float_bits;
use crate::fpu;
use crate::fpu::Fpu;
use crate::layers::attention::decode;
use crate::layers::attention::encoding;
use crate::layers::attention::encoding::{RopeBackward, RotaryEmbedding, TWO};
use crate::ops::matmul;
use crate::precision::DType;
use crate::rounding;
use vstd::prelude::*;

verus! {

/// Powers of a number from one on, with exponents from zero to one, are in the order of the
/// exponents, from one up to the number itself; the power of one half is the root.
pub open spec fn powers_grow<F: Fpu>(f: &F) -> bool {
    &&& forall|a: u32, e: u32, p: u32|
        float_bits::is_finite(a) && rounding::value(a) >= rounding::unit() && float_bits::is_finite(e) && 0
            <= rounding::value(e) <= rounding::unit() && #[trigger] fpu::powfs(f, a, e, p) ==> !float_bits::is_nan(p)
            && rounding::unit() <= rounding::value(p) <= rounding::value(a) && (rounding::value(e) == 0 ==> rounding::value(p)
            == rounding::unit()) && (2 * rounding::value(e) == rounding::unit() ==> rounding::is_root(a, p))
    &&& forall|a: u32, e: u32, p: u32, g: u32, q: u32|
        #![trigger fpu::powfs(f, a, e, p), fpu::powfs(f, a, g, q)]
        float_bits::is_finite(a) && rounding::value(a) >= rounding::unit() && float_bits::is_finite(e)
            && float_bits::is_finite(g) && 0 <= rounding::value(e) <= rounding::value(g) <= rounding::unit() && fpu::powfs(
            f,
            a,
            e,
            p,
        ) && fpu::powfs(f, a, g, q) ==> rounding::value(p) <= rounding::value(q)
}

/// Cosines and sines of finite numbers lie between minus one and one.
pub open spec fn waves_bounded<F: Fpu>(f: &F) -> bool {
    &&& forall|v: u32, c: u32|
        float_bits::is_finite(v) && #[trigger] fpu::coss(f, v, c) ==> float_bits::is_finite(c) && -rounding::unit()
            <= rounding::value(c) <= rounding::unit()
    &&& forall|v: u32, s: u32|
        float_bits::is_finite(v) && #[trigger] fpu::sins(f, v, s) ==> float_bits::is_finite(s) && -rounding::unit()
            <= rounding::value(s) <= rounding::unit()
}

/// What is known of the frequency of a pair: it is finite, and lies between the inverse of
/// `theta` and one.
#[verifier::rlimit(40)]
proof fn lemma_frequency<F: Fpu>(f: &F, rd: spec_fn(int, int) -> int, theta: u32, j: usize, dim: usize, q: u32) -> (r: (u32, u32))
    requires
        rounding::rounds_by(f, rd),
        powers_grow(f),
        float_bits::is_finite(theta),
        rounding::value(theta) >= rounding::unit(),
        2 * j < dim < 0x100_0000,
        encoding::frequency(f, theta, j, dim, q),
    ensures
        float_bits::is_finite(q),
        0 <= rounding::value(q) <= rounding::unit(),
        float_bits::is_finite(r.0),
        rounding::value(r.0) == rd((2 * j) * rounding::unit(), dim as int),
        0 <= rounding::value(r.0) <= rounding::unit(),
        fpu::powfs(f, theta, r.0, r.1),
        float_bits::is_finite(r.1),
        rounding::value(r.1) >= rounding::unit(),
        rounding::value(q) == rd(rounding::unit() * rounding::unit(), rounding::value(r.1)),
{
    let u = rounding::unit();
    let (n, d, e, p) = choose|n: u32, d: u32, e: u32, p: u32|
        encoding::frequency_exponent(f, j, dim, n, d, e) && #[trigger] fpu::powfs(f, theta, e, p) && #[trigger] fpu::divs(
            f,
            fpu::ONE,
            p,
            q,
        ) && #[trigger] fpu::counts(f, dim, d) && #[trigger] fpu::counts(f, j, n);
    let t = choose|t: u32| fpu::muls(f, n, TWO, t) && #[trigger] fpu::divs(f, t, d, e);
    rounding::lemma_constants();
    rounding::lemma_count_is_exact(f, rd, j, n);
    rounding::lemma_count_is_exact(f, rd, dim, d);
    lemma_two();
    let twice = if j == 0 {
        fpu::ZERO
    } else {
        rounding::lemma_count_is_number((2 * j) as nat)
    };
    let vj = j * u;
    assert(0 * u == 0) by (nonlinear_arith);
    assert(rounding::value(twice) == (2 * j) * u);
    assert(vj * (2 * u) == ((2 * j) * u) * u) by (nonlinear_arith)
        requires
            vj == j * u,
    ;
    rounding::lemma_rounds_to_side(rd, vj * (2 * u), u, twice);
    rounding::lemma_finite_between(twice, t, twice);
    let vd = dim * u;
    let vt = (2 * j) * u;
    assert(vd > 0 && 0 <= vt <= vd && (vt * u) * dim == vt * vd) by (nonlinear_arith)
        requires
            vd == dim * u,
            vt == (2 * j) * u,
            0 <= 2 * j < dim,
            u > 0,
    ;
    rounding::lemma_rounds_alike(rd, vt * u, vd, vt, dim as int);
    assert(vt * u <= u * vd && 0 * vd <= vt * u) by (nonlinear_arith)
        requires
            0 <= vt <= vd,
            u > 0,
    ;
    rounding::lemma_rounds_to_side(rd, vt * u, vd, fpu::ONE);
    rounding::lemma_rounds_to_side(rd, vt * u, vd, fpu::ZERO);
    rounding::lemma_finite_between(fpu::ZERO, e, fpu::ONE);
    let vp = rounding::value(p);
    assert(u <= vp <= rounding::value(theta));
    rounding::lemma_finite_between(fpu::ONE, p, theta);
    assert(u * u <= u * vp && 0 * vp <= u * u) by (nonlinear_arith)
        requires
            0 < u <= vp,
    ;
    rounding::lemma_rounds_to_side(rd, u * u, vp, fpu::ONE);
    rounding::lemma_rounds_to_side(rd, u * u, vp, fpu::ZERO);
    rounding::lemma_finite_between(fpu::ZERO, q, fpu::ONE);
    (e, p)
}

proof fn lemma_two()
    ensures
        rounding::value(TWO) == 2 * rounding::unit(),
        float_bits::is_finite(TWO),
{
    vstd::arithmetic::power2::lemma2_to64();
    vstd::arithmetic::power2::lemma_pow2_adds(23, 127);
    vstd::arithmetic::power2::lemma_pow2_unfold(150);
    assert(0x4000_0000u32 / 0x80_0000u32 == 128);
    assert(float_bits::scaled_magnitude(TWO) == 0x80_0000nat * vstd::arithmetic::power2::pow2(127));
}

/// A pair of features is turned by angles that grow evenly: the tables hold, for each
/// position, the cosine and the sine of the number that is the position times `q`, rounded.
pub open spec fn turns_evenly<F: Fpu>(f: &F, rd: spec_fn(int, int) -> int, cos: Seq<u32>, sin: Seq<u32>, dim: int, j: int, q: u32, positions: int) -> bool {
    forall|i: int| 0 <= i < positions ==> #[trigger] turned_at(f, rd, cos, sin, dim, j, q, i)
}

/// The tables hold the cosine and the sine of `i` times `q`, rounded.
pub open spec fn turned_at<F: Fpu>(f: &F, rd: spec_fn(int, int) -> int, cos: Seq<u32>, sin: Seq<u32>, dim: int, j: int, q: u32, i: int) -> bool {
    exists|v: u32|
        float_bits::is_finite(v) && rounding::value(v) == rd(i * rounding::value(q), 1) && #[trigger] fpu::coss(
            f,
            v,
            cos[i * dim + j],
        ) && fpu::sins(f, v, sin[i * dim + j])
}

/// The angle of a pair grows evenly with the position: there is one number for the pair, from
/// zero to one, of which each angle is the multiple by the position, rounded. The angle of the
/// first pair grows by one from each position to the next; the pair behind the first quarter
/// of the features has the inverse of the root of `theta`.
#[verifier::rlimit(40)]
pub proof fn law_angles_grow_evenly<F: Fpu>(
    rope: RotaryEmbedding,
    f: &F,
    rd: spec_fn(int, int) -> int,
    theta: u32,
    cos: NdArray<u32>,
    sin: NdArray<u32>,
    j: usize,
) -> (q: u32)
    requires
        fpu::fixed_answers(f),
        rounding::rounds_by(f, rd),
        powers_grow(f),
        fixed_powers(f),
        rope.wf(),
        rope.holds(f, theta, DType::F32),
        autograd::reads_as(f, rope.cos_cache.storage, cos),
        autograd::reads_as(f, rope.sin_cache.storage, sin),
        float_bits::is_finite(theta),
        rounding::value(theta) >= rounding::unit(),
        2 * j + 1 < rope.dim < 0x100_0000,
        0 < rope.max_seq_len < 0x100_0000,
    ensures
        float_bits::is_finite(q),
        0 <= rounding::value(q) <= rounding::unit(),
        turns_evenly(f, rd, cos.data@, sin.data@, rope.dim as int, j as int, q, rope.max_seq_len as int),
        j == 0 ==> rounding::value(q) == rounding::unit(),
        4 * j == rope.dim ==> forall|x: u32, p: u32|
            float_bits::is_finite(x) && float_bits::is_finite(p) && rounding::value(x) > 0 && rounding::value(p) > 0
                && #[trigger] rounding::value(x) * rounding::value(x) <= rounding::value(theta) * rounding::unit()
                && rounding::unit() * rounding::unit() <= #[trigger] rounding::value(p) * rounding::value(x)
                ==> rounding::value(q) <= rounding::value(p),
        4 * j == rope.dim ==> forall|x: u32, p: u32|
            float_bits::is_finite(x) && float_bits::is_finite(p) && rounding::value(x) > 0 && rounding::value(p) > 0
                && rounding::value(theta) * rounding::unit() <= #[trigger] rounding::value(x) * rounding::value(x)
                && #[trigger] rounding::value(p) * rounding::value(x) <= rounding::unit() * rounding::unit()
                ==> rounding::value(p) <= rounding::value(q),
{
    let d = rope.dim as int;
    let u = rounding::unit();
    let (c, s) = choose|c: NdArray<u32>, s: NdArray<u32>|
        #[trigger] encoding::position_tables(f, theta, rope.max_seq_len, rope.dim, c, s) && autograd::stored_as(
            f,
            c,
            DType::F32,
            rope.cos_cache.storage,
        ) && autograd::stored_as(f, s, DType::F32, rope.sin_cache.storage);
    assert(c.data@ == cos.data@ && s.data@ == sin.data@);
    rounding::lemma_constants();
    encoding::lemma_table_size(rope.max_seq_len, rope.dim);
    let q = frequency_of(f, rope, theta, c.data@, s.data@, j);
    assert forall|i: int| 0 <= i < rope.max_seq_len implies #[trigger] turned_at(f, rd, cos.data@, sin.data@, d, j as int, q, i)
        && encoding::frequency(f, theta, j, rope.dim, q) by {
        lemma_angle_at(rope, f, theta, c.data@, s.data@, j, 0);
        lemma_angle_at(rope, f, theta, c.data@, s.data@, j, i);
        let (n, g, v) = angle_at(f, theta, c.data@, s.data@, rope.dim, j, i);
        let (n0, g0, v0) = angle_at(f, theta, c.data@, s.data@, rope.dim, j, 0);
        assert(q == g0);
        lemma_one_frequency(f, rd, theta, j, rope.dim, g, q);
        rounding::lemma_count_is_exact(f, rd, i as usize, n);
        let _ = lemma_frequency(f, rd, theta, j, rope.dim, q);
        let vq = rounding::value(q);
        assert((i * u) * vq == (i * vq) * u) by (nonlinear_arith);
        rounding::lemma_rounds_alike(rd, (i * u) * vq, u, i * vq, 1);
        let top = if i == 0 {
            fpu::ZERO
        } else {
            rounding::lemma_count_is_number(i as nat)
        };
        assert(0 * u == 0) by (nonlinear_arith);
        assert(0 <= i * vq <= i * u) by (nonlinear_arith)
            requires
                0 <= vq <= u,
                0 <= i,
        ;
        rounding::lemma_rounds_to_side(rd, i * vq, 1, top);
        rounding::lemma_rounds_to_side(rd, i * vq, 1, fpu::ZERO);
        rounding::lemma_finite_between(fpu::ZERO, v, top);
        assert(fpu::coss(f, v, cos.data@[i * d + j]));
    }
    assert(turned_at(f, rd, cos.data@, sin.data@, d, j as int, q, 0));
    let (e, p) = lemma_frequency(f, rd, theta, j, rope.dim, q);
    let (ve, vp, vq) = (rounding::value(e), rounding::value(p), rounding::value(q));
    if j == 0 {
        assert(0 * u == 0) by (nonlinear_arith);
        rounding::lemma_rounds_to_side(rd, 0, d, fpu::ZERO);
        assert(vp == u);
        rounding::lemma_rounds_to_side(rd, u * u, u, fpu::ONE);
    }
    if 4 * j == rope.dim {
        let half = 0x3f00_0000u32;
        lemma_half();
        assert((2 * j) * u == rounding::value(half) * d) by (nonlinear_arith)
            requires
                4 * j == d,
                2 * rounding::value(half) == u,
        ;
        rounding::lemma_rounds_to_side(rd, (2 * j) * u, d, half);
        assert(rounding::is_root(theta, p));
        assert forall|x: u32, y: u32|
            float_bits::is_finite(x) && float_bits::is_finite(y) && rounding::value(x) > 0 && rounding::value(y) > 0
                && #[trigger] rounding::value(x) * rounding::value(x) <= rounding::value(theta) * u && u * u
                <= #[trigger] rounding::value(y) * rounding::value(x) implies vq <= rounding::value(y) by {
            let (vx, vy) = (rounding::value(x), rounding::value(y));
            assert(vx <= vp);
            assert(vy * vx <= vy * vp) by (nonlinear_arith)
                requires
                    vx <= vp,
                    vy > 0,
            ;
            rounding::lemma_rounds_to_side(rd, u * u, vp, y);
        }
        assert forall|x: u32, y: u32|
            float_bits::is_finite(x) && float_bits::is_finite(y) && rounding::value(x) > 0 && rounding::value(y) > 0
                && rounding::value(theta) * u <= #[trigger] rounding::value(x) * rounding::value(x) && #[trigger] rounding::value(
                y,
            ) * rounding::value(x) <= u * u implies rounding::value(y) <= vq by {
            let (vx, vy) = (rounding::value(x), rounding::value(y));
            assert(vp <= vx);
            assert(vy * vp <= vy * vx) by (nonlinear_arith)
                requires
                    vp <= vx,
                    vy > 0,
            ;
            rounding::lemma_rounds_to_side(rd, u * u, vp, y);
        }
    }
    q
}

proof fn lemma_half()
    ensures
        2 * rounding::value(0x3f00_0000u32) == rounding::unit(),
        float_bits::is_finite(0x3f00_0000u32),
{
    vstd::arithmetic::power2::lemma2_to64();
    vstd::arithmetic::power2::lemma_pow2_adds(23, 125);
    vstd::arithmetic::power2::lemma_pow2_unfold(149);
    assert(0x3f00_0000u32 / 0x80_0000u32 == 126);
    assert(float_bits::scaled_magnitude(0x3f00_0000u32) == 0x80_0000nat * vstd::arithmetic::power2::pow2(125));
}

/// Powers have one result.
pub open spec fn fixed_powers<F: Fpu>(f: &F) -> bool {
    forall|a: u32, e: u32, p: u32, q: u32|
        #![trigger fpu::powfs(f, a, e, p), fpu::powfs(f, a, e, q)]
        fpu::powfs(f, a, e, p) && fpu::powfs(f, a, e, q) ==> p == q
}

/// The count of a position, the frequency of a pair, and the angle that the tables hold there.
spec fn angle_at<F: Fpu>(f: &F, theta: u32, cos: Seq<u32>, sin: Seq<u32>, dim: usize, j: usize, i: int) -> (u32, u32, u32) {
    choose|n: u32, q: u32, v: u32| #[trigger] is_angle_at(f, theta, cos, sin, dim, j, i, n, q, v)
}

spec fn is_angle_at<F: Fpu>(f: &F, theta: u32, cos: Seq<u32>, sin: Seq<u32>, dim: usize, j: usize, i: int, n: u32, q: u32, v: u32) -> bool {
    &&& fpu::counts(f, i as usize, n)
    &&& encoding::frequency(f, theta, j, dim, q)
    &&& fpu::muls(f, n, q, v)
    &&& fpu::coss(f, v, cos[i * dim + j])
    &&& fpu::sins(f, v, sin[i * dim + j])
}

spec fn frequency_of<F: Fpu>(f: &F, rope: RotaryEmbedding, theta: u32, cos: Seq<u32>, sin: Seq<u32>, j: usize) -> u32 {
    angle_at(f, theta, cos, sin, rope.dim, j, 0).1
}

proof fn lemma_angle_at<F: Fpu>(rope: RotaryEmbedding, f: &F, theta: u32, cos: Seq<u32>, sin: Seq<u32>, j: usize, i: int)
    requires
        cos.len() == rope.max_seq_len * rope.dim,
        sin.len() == cos.len(),
        0 <= i < rope.max_seq_len,
        2 * j + 1 < rope.dim,
        encoding::position_row(
            f,
            theta,
            i as usize,
            rope.dim,
            matmul::flat_row(cos, i, rope.dim as int),
            matmul::flat_row(sin, i, rope.dim as int),
        ),
    ensures
        ({
            let (n, q, v) = angle_at(f, theta, cos, sin, rope.dim, j, i);
            is_angle_at(f, theta, cos, sin, rope.dim, j, i, n, q, v)
        }),
{
    let d = rope.dim as int;
    let cr = matmul::flat_row(cos, i, d);
    let sr = matmul::flat_row(sin, i, d);
    let rows = rope.max_seq_len as int;
    assert(0 <= i * d && i * d + d <= rows * d) by (nonlinear_arith)
        requires
            0 <= i < rows,
            0 <= d,
    ;
    assert(encoding::angle_pair(f, theta, i as usize, j, rope.dim, cr[j as int], sr[j as int]));
    let v = choose|v: u32| #[trigger]
        encoding::angle(f, theta, i as usize, j, rope.dim, v) && fpu::coss(f, v, cr[j as int]) && fpu::sins(f, v, sr[j as int]);
    let (n, q) = choose|n: u32, q: u32|
        fpu::counts(f, i as usize, n) && encoding::frequency(f, theta, j, rope.dim, q) && #[trigger] fpu::muls(f, n, q, v);
    assert(is_angle_at(f, theta, cos, sin, rope.dim, j, i, n, q, v));
}

/// A pair has one frequency.
proof fn lemma_one_frequency<F: Fpu>(f: &F, rd: spec_fn(int, int) -> int, theta: u32, j: usize, dim: usize, q: u32, r: u32)
    requires
        fpu::fixed_answers(f),
        fixed_powers(f),
        encoding::frequency(f, theta, j, dim, q),
        encoding::frequency(f, theta, j, dim, r),
    ensures
        q == r,
{
    let (n1, d1, e1, p1) = choose|n: u32, d: u32, e: u32, p: u32|
        encoding::frequency_exponent(f, j, dim, n, d, e) && #[trigger] fpu::powfs(f, theta, e, p) && #[trigger] fpu::divs(
            f,
            fpu::ONE,
            p,
            q,
        ) && #[trigger] fpu::counts(f, dim, d) && #[trigger] fpu::counts(f, j, n);
    let (n2, d2, e2, p2) = choose|n: u32, d: u32, e: u32, p: u32|
        encoding::frequency_exponent(f, j, dim, n, d, e) && #[trigger] fpu::powfs(f, theta, e, p) && #[trigger] fpu::divs(
            f,
            fpu::ONE,
            p,
            r,
        ) && #[trigger] fpu::counts(f, dim, d) && #[trigger] fpu::counts(f, j, n);
    assert(n1 == n2 && d1 == d2);
    assert(e1 == e2);
    assert(p1 == p2);
}

/// What `forward` makes of a pair of features of a token: they are turned, as the two sides
/// of a right angle are, by the multiple of one number by the position of the token. The
/// number `r.0` is that of the pair, the same for all tokens and positions; `r.1` is the angle,
/// and `r.2` and `r.3` are its cosine and its sine.
#[verifier::rlimit(40)]
pub proof fn law_pairs_turn_by_their_angles<F: Fpu>(
    rope: RotaryEmbedding,
    f: &F,
    rd: spec_fn(int, int) -> int,
    theta: u32,
    x: Tensor,
    offset: int,
    mode: GradMode,
    t: Tensor,
    row: int,
    j: usize,
) -> (r: (u32, u32, u32, u32))
    requires
        fpu::fixed_answers(f),
        rounding::rounds_by(f, rd),
        powers_grow(f),
        fixed_powers(f),
        waves_bounded(f),
        rope.wf(),
        rope.holds(f, theta, DType::F32),
        float_bits::is_finite(theta),
        rounding::value(theta) >= rounding::unit(),
        2 * j + 1 < rope.dim < 0x100_0000,
        rope.max_seq_len < 0x100_0000,
        x.wf(),
        x.storage is F32,
        0 <= offset,
        rope.forward_error(x.spec_shape(), offset) is None,
        rope.rope_result(f, x, offset, mode, t),
        0 <= row < encoding::token_rows(x.spec_shape()),
        float_bits::is_finite(x.storage->F32_0.data@[row * rope.dim + j]),
        float_bits::is_finite(x.storage->F32_0.data@[row * rope.dim + (j + rope.dim / 2)]),
    ensures
        t.storage is F32,
        float_bits::is_finite(r.0),
        r.0 == pair_number(rope, f, rd, theta, j),
        j == 0 ==> rounding::value(r.0) == rounding::unit(),
        rounding::value(r.1) == rd((offset + row % x.spec_shape()[2] as int) * rounding::value(r.0), 1),
        fpu::coss(f, r.1, r.2),
        fpu::sins(f, r.1, r.3),
        rounding::value(t.storage->F32_0.data@[row * rope.dim + j]) == rd(
            rd(
                rounding::value(x.storage->F32_0.data@[row * rope.dim + j]) * rounding::value(r.2),
                rounding::unit(),
            ) - rd(
                rounding::value(x.storage->F32_0.data@[row * rope.dim + (j + rope.dim / 2)]) * rounding::value(r.3),
                rounding::unit(),
            ),
            1,
        ),
        rounding::value(t.storage->F32_0.data@[row * rope.dim + (j + rope.dim / 2)]) == rd(
            rd(
                rounding::value(x.storage->F32_0.data@[row * rope.dim + (j + rope.dim / 2)]) * rounding::value(r.2),
                rounding::unit(),
            ) + rd(
                rounding::value(x.storage->F32_0.data@[row * rope.dim + j]) * rounding::value(r.3),
                rounding::unit(),
            ),
            1,
        ),
{
    let d = rope.dim as int;
    let h = d / 2;
    let k = j as int;
    let (cos, sin) = choose|c: NdArray<u32>, s: NdArray<u32>|
        #[trigger] encoding::position_tables(f, theta, rope.max_seq_len, rope.dim, c, s) && autograd::stored_as(
            f,
            c,
            DType::F32,
            rope.cos_cache.storage,
        ) && autograd::stored_as(f, s, DType::F32, rope.sin_cache.storage);
    assert(autograd::reads_as(f, rope.cos_cache.storage, cos) && autograd::reads_as(f, rope.sin_cache.storage, sin));
    assert(x.spec_shape()[2] > 0) by {
        if x.spec_shape()[2] == 0 {
            assert(encoding::token_rows(x.spec_shape()) == 0) by (nonlinear_arith)
                requires
                    encoding::token_rows(x.spec_shape()) == (x.spec_shape()[0] * x.spec_shape()[1]) * 0,
            ;
        }
    }
    let pos = offset + row % x.spec_shape()[2] as int;
    assert(0 <= pos < rope.max_seq_len);
    let q0 = law_angles_grow_evenly(rope, f, rd, theta, cos, sin, j);
    lemma_pair_number(rope, f, rd, theta, j, q0, cos, sin);
    let q = pair_number(rope, f, rd, theta, j);
    lemma_number_of_pair(rope, f, rd, theta, j, q, cos, sin);
    assert(turned_at(f, rd, cos.data@, sin.data@, d, k, q, pos));
    let v = choose|v: u32|
        float_bits::is_finite(v) && rounding::value(v) == rd(pos * rounding::value(q), 1) && #[trigger] fpu::coss(
            f,
            v,
            cos.data@[pos * d + k],
        ) && fpu::sins(f, v, sin.data@[pos * d + k]);
    let (c, s) = (cos.data@[pos * d + k], sin.data@[pos * d + k]);
    encoding::lemma_token_of_pass(rope, f, x, offset, mode, t, row, &cos, &sin);
    encoding::lemma_table_size(rope.max_seq_len, rope.dim);
    let rows = rope.max_seq_len as int;
    assert(0 <= pos * d && pos * d + d <= rows * d) by (nonlinear_arith)
        requires
            0 <= pos < rows,
            0 <= d,
    ;
    let total = encoding::token_rows(x.spec_shape());
    matmul::lemma_product4(x.spec_shape());
    assert(0 <= row * d && row * d + d <= total * d) by (nonlinear_arith)
        requires
            0 <= row < total,
            0 <= d,
    ;
    let xs = matmul::flat_row(x.storage->F32_0.data@, row, d);
    let ys = matmul::flat_row(t.storage->F32_0.data@, row, d);
    let cr = matmul::flat_row(cos.data@, pos, d);
    let sr = matmul::flat_row(sin.data@, pos, d);
    assert(cr[k] == c && sr[k] == s && xs.len() == d);
    assert(encoding::turned_back(f, xs[k], xs[k + h], cr[k], sr[k], ys[k]));
    assert(encoding::turned_forth(f, xs[k + h], xs[k], cr[k], sr[k], ys[k + h]));
    let (p1, q1) = choose|p: u32, q: u32|
        fpu::muls(f, xs[k], c, p) && fpu::muls(f, xs[k + h], s, q) && #[trigger] fpu::subs(f, p, q, ys[k]);
    let (p2, q2) = choose|p: u32, q: u32|
        fpu::muls(f, xs[k + h], c, p) && fpu::muls(f, xs[k], s, q) && #[trigger] fpu::adds(f, p, q, ys[k + h]);
    rounding::lemma_share_is_finite(f, rd, xs[k], c, p1);
    rounding::lemma_share_is_finite(f, rd, xs[k + h], s, q1);
    rounding::lemma_share_is_finite(f, rd, xs[k + h], c, p2);
    rounding::lemma_share_is_finite(f, rd, xs[k], s, q2);
    (q, v, c, s)
}

/// The number of which the angles of a pair are multiples.
pub open spec fn pair_number<F: Fpu>(rope: RotaryEmbedding, f: &F, rd: spec_fn(int, int) -> int, theta: u32, j: usize) -> u32 {
    choose|q: u32| #[trigger] is_pair_number(rope, f, rd, theta, j, q)
}

/// A number of which all angles of a pair are multiples.
pub open spec fn is_pair_number<F: Fpu>(
    rope: RotaryEmbedding,
    f: &F,
    rd: spec_fn(int, int) -> int,
    theta: u32,
    j: usize,
    q: u32,
) -> bool {
    &&& float_bits::is_finite(q)
    &&& j == 0 ==> rounding::value(q) == rounding::unit()
    &&& forall|cos: NdArray<u32>, sin: NdArray<u32>|
        #![trigger autograd::reads_as(f, rope.cos_cache.storage, cos), autograd::reads_as(f, rope.sin_cache.storage, sin)]
        autograd::reads_as(f, rope.cos_cache.storage, cos) && autograd::reads_as(f, rope.sin_cache.storage, sin)
            ==> turns_evenly(f, rd, cos.data@, sin.data@, rope.dim as int, j as int, q, rope.max_seq_len as int)
}

proof fn lemma_pair_number<F: Fpu>(
    rope: RotaryEmbedding,
    f: &F,
    rd: spec_fn(int, int) -> int,
    theta: u32,
    j: usize,
    q: u32,
    cos: NdArray<u32>,
    sin: NdArray<u32>,
)
    requires
        fpu::fixed_answers(f),
        float_bits::is_finite(q),
        j == 0 ==> rounding::value(q) == rounding::unit(),
        autograd::reads_as(f, rope.cos_cache.storage, cos),
        autograd::reads_as(f, rope.sin_cache.storage, sin),
        turns_evenly(f, rd, cos.data@, sin.data@, rope.dim as int, j as int, q, rope.max_seq_len as int),
    ensures
        is_pair_number(rope, f, rd, theta, j, pair_number(rope, f, rd, theta, j)),
{
    assert forall|c: NdArray<u32>, s: NdArray<u32>|
        #![trigger autograd::reads_as(f, rope.cos_cache.storage, c), autograd::reads_as(f, rope.sin_cache.storage, s)]
        autograd::reads_as(f, rope.cos_cache.storage, c) && autograd::reads_as(f, rope.sin_cache.storage, s) implies turns_evenly(
        f,
        rd,
        c.data@,
        s.data@,
        rope.dim as int,
        j as int,
        q,
        rope.max_seq_len as int,
    ) by {
        fixed::lemma_one_reading(f, rope.cos_cache.storage, &c, &cos);
        fixed::lemma_one_reading(f, rope.sin_cache.storage, &s, &sin);
    }
    assert(is_pair_number(rope, f, rd, theta, j, q));
}

proof fn lemma_number_of_pair<F: Fpu>(
    rope: RotaryEmbedding,
    f: &F,
    rd: spec_fn(int, int) -> int,
    theta: u32,
    j: usize,
    q: u32,
    cos: NdArray<u32>,
    sin: NdArray<u32>,
)
    requires
        is_pair_number(rope, f, rd, theta, j, q),
        autograd::reads_as(f, rope.cos_cache.storage, cos),
        autograd::reads_as(f, rope.sin_cache.storage, sin),
    ensures
        turns_evenly(f, rd, cos.data@, sin.data@, rope.dim as int, j as int, q, rope.max_seq_len as int),
{
}

/// The query of a step of decoding is rotated as the features of a token are: the two ways
/// add the same products, in another order.
pub proof fn law_queries_turn_alike<F: Fpu>(
    f: &F,
    rd: spec_fn(int, int) -> int,
    x: Seq<u32>,
    cos: Seq<u32>,
    sin: Seq<u32>,
    y: Seq<u32>,
    z: Seq<u32>,
    i: int,
)
    requires
        fpu::fixed_answers(f),
        rounding::rounds_by(f, rd),
        cos.len() == x.len(),
        sin.len() == x.len(),
        forall|k: int|
            0 <= k < x.len() ==> float_bits::is_finite(#[trigger] cos[k]) && -rounding::unit() <= rounding::value(cos[k])
                <= rounding::unit(),
        forall|k: int|
            0 <= k < x.len() ==> float_bits::is_finite(#[trigger] sin[k]) && -rounding::unit() <= rounding::value(sin[k])
                <= rounding::unit(),
        forall|k: int| 0 <= k < x.len() ==> float_bits::is_finite(#[trigger] x[k]),
        decode::query_rotated(f, x, cos, sin, y),
        encoding::rotated(f, x, cos, sin, fpu::ZERO, z),
        0 <= i < x.len(),
    ensures
        rounding::value(y[i]) == rounding::value(z[i]),
{
    let h = x.len() as int / 2;
    if i < h {
        assert(encoding::turned_back(f, x[i], x[i + h], cos[i], sin[i], y[i]));
        assert(encoding::turned_back(f, x[i], x[i + h], cos[i], sin[i], z[i]));
    } else if i < 2 * h {
        let k = i - h;
        assert(float_bits::is_finite(x[k]) && float_bits::is_finite(x[k + h]) && float_bits::is_finite(cos[k])
            && float_bits::is_finite(sin[k]));
        assert(encoding::turned_forth(f, x[k], x[k + h], sin[k], cos[k], y[k + h]));
        assert(encoding::turned_forth(f, x[k + h], x[k], cos[k], sin[k], z[k + h]));
        let (p1, q1) = choose|p: u32, q: u32|
            fpu::muls(f, x[k], sin[k], p) && fpu::muls(f, x[k + h], cos[k], q) && #[trigger] fpu::adds(f, p, q, y[k + h]);
        let (p2, q2) = choose|p: u32, q: u32|
            fpu::muls(f, x[k + h], cos[k], p) && fpu::muls(f, x[k], sin[k], q) && #[trigger] fpu::adds(f, p, q, z[k + h]);
        rounding::lemma_share_is_finite(f, rd, x[k], sin[k], p1);
        rounding::lemma_share_is_finite(f, rd, x[k + h], cos[k], q1);
        assert(p1 == q2 && q1 == p2);
        assert(rounding::value(p1) + rounding::value(q1) == rounding::value(p2) + rounding::value(q2));
    }
}

/// Gradients turn the other way: the gradient of a pair is turned by the same cosine and sine
/// as the pair itself, but with the sign of the sine changed. With `c` and `s` of the position,
/// the first of a pair `(a, b)` receives `a c + b s`, and the second `b c - a s`. The products
/// are the result.
pub proof fn law_gradients_turn_back<F: Fpu>(
    f: &F,
    rd: spec_fn(int, int) -> int,
    back: RopeBackward,
    g: NdArray<u32>,
    r: NdArray<u32>,
    i: int,
    j: int,
) -> (p: (u32, u32, u32, u32))
    requires
        rounding::rounds_by(f, rd),
        back.sends(f, g, r),
        0 <= i < (g.shape@[0] * g.shape@[1]) * g.shape@[2],
        0 <= j < g.shape@[3] as int / 2,
        matmul::flat_row(g.data@, i, g.shape@[3] as int).len() == g.shape@[3],
    ensures
        ({
            let d = g.shape@[3] as int;
            let at = back.offset + i % (g.shape@[2] as int);
            let (a, b) = (matmul::flat_row(g.data@, i, d)[j], matmul::flat_row(g.data@, i, d)[j + d / 2]);
            let (c, s) = (matmul::flat_row(back.cos.data@, at, d)[j], matmul::flat_row(back.sin.data@, at, d)[j]);
            let (x, y) = (matmul::flat_row(r.data@, i, d)[j], matmul::flat_row(r.data@, i, d)[j + d / 2]);
            &&& rounding::is_product(rd, a, c, p.0)
            &&& rounding::is_product(rd, b, s, p.1)
            &&& rounding::is_sum(rd, p.0, p.1, x)
            &&& rounding::is_product(rd, b, c, p.2)
            &&& rounding::is_product(rd, a, s, p.3)
            &&& rounding::is_difference(rd, p.2, p.3, y)
        }),
{
    let d = g.shape@[3] as int;
    let at = back.offset + i % (g.shape@[2] as int);
    let row = matmul::flat_row(g.data@, i, d);
    let (cos, sin) = (matmul::flat_row(back.cos.data@, at, d), matmul::flat_row(back.sin.data@, at, d));
    let out = matmul::flat_row(r.data@, i, d);
    assert(encoding::rotated_back(f, row, cos, sin, out));
    let (a, b, c, s) = (row[j], row[j + d / 2], cos[j], sin[j]);
    assert(encoding::turned_forth(f, a, b, c, s, out[j]));
    assert(encoding::turned_back(f, b, a, c, s, out[j + d / 2]));
    let (k, l) = choose|p: u32, q: u32| fpu::muls(f, a, c, p) && fpu::muls(f, b, s, q) && #[trigger] fpu::adds(f, p, q, out[j]);
    let (m, n) = choose|p: u32, q: u32|
        fpu::muls(f, b, c, p) && fpu::muls(f, a, s, q) && #[trigger] fpu::subs(f, p, q, out[j + d / 2]);
    (k, l, m, n)
}

} // verus!
