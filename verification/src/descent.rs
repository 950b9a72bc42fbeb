use crate::array::NdArray;
use crate::autograd;
use crate::autograd::Tensor;
use crate::float_bits;
use crate::fpu;
use crate::fpu::Fpu;
use crate::graph::Node;
use crate::optim;
use crate::optim::{Adam, AdamTurn, Optimizer, SGD};
use crate::precision::DType;
use crate::rounding;
use vstd::prelude::*;

verus! {

/// One element of a parameter before and after a step, with its gradient, and with its two
/// moments before and after.
pub struct Moved {
    pub w: u32,
    pub m: u32,
    pub v: u32,
    pub g: u32,
    pub w2: u32,
    pub m2: u32,
    pub v2: u32,
}

/// An element of what an optimizer holds: zero where it holds nothing yet.
pub open spec fn held_element(held: Option<Tensor>, i: int) -> u32 {
    match held {
        Some(t) => t.storage->F32_0.data@[i],
        None => fpu::ZERO,
    }
}

/// Parameter `k` is one of its own, in single precision, with a gradient that has its element
/// `i`.
pub open spec fn has_element(ids: Seq<usize>, k: int, nodes: Seq<Node>, i: int) -> bool {
    let t = nodes[ids[k] as int].tensor;
    &&& 0 <= k < ids.len()
    &&& ids[k] < nodes.len()
    &&& forall|j: int| 0 <= j < ids.len() && j != k ==> #[trigger] ids[j] != ids[k]
    &&& t.wf()
    &&& t.storage is F32
    &&& t.grad matches Some(g) && g.wf() && g.shape@ == t.spec_shape()
    &&& 0 <= i < t.storage->F32_0.data@.len()
}

/// What a step of Adam does to element `i` of parameter `k`, seen from outside.
pub open spec fn adam_observed<F: Fpu>(
    f: &F,
    before: Adam,
    g0: Seq<Node>,
    after: Adam,
    g1: Seq<Node>,
    k: int,
    i: int,
    o: Moved,
) -> bool {
    let id = before.params@[k] as int;
    &&& <Adam as Optimizer<F>>::steps(f, &before, g0, &after, g1)
    &&& has_element(before.params@, k, g0, i)
    &&& before.state_dtype == DType::F32
    &&& before.exp_avg@.len() == before.params@.len()
    &&& before.exp_avg_sq@.len() == before.params@.len()
    &&& optim::state_fits(before.exp_avg@[k], g0[id].tensor.spec_shape(), DType::F32)
    &&& optim::state_fits(before.exp_avg_sq@[k], g0[id].tensor.spec_shape(), DType::F32)
    &&& o.w == g0[id].tensor.storage->F32_0.data@[i]
    &&& o.g == g0[id].tensor.grad->0.data@[i]
    &&& o.m == held_element(before.exp_avg@[k], i)
    &&& o.v == held_element(before.exp_avg_sq@[k], i)
    &&& o.w2 == g1[id].tensor.storage->F32_0.data@[i]
    &&& o.m2 == held_element(after.exp_avg@[k], i)
    &&& o.v2 == held_element(after.exp_avg_sq@[k], i)
}

/// What becomes of a parameter that is one of its own depends on it alone.
proof fn lemma_adam_turn_of<F: Fpu>(
    f: &F,
    opt: Adam,
    c1: u32,
    c2: u32,
    g0: Seq<Node>,
    n: int,
    ms: Seq<Option<Tensor>>,
    vs: Seq<Option<Tensor>>,
    g1: Seq<Node>,
    k: int,
)
    requires
        0 <= n <= opt.params@.len(),
        0 <= k < opt.params@.len(),
        opt.params@[k] < g0.len(),
        forall|j: int| 0 <= j < opt.params@.len() && j != k ==> #[trigger] opt.params@[j] != opt.params@[k],
        opt.exp_avg@.len() == opt.params@.len(),
        opt.exp_avg_sq@.len() == opt.params@.len(),
        optim::adam_swept(f, opt, c1, c2, g0, n, ms, vs, g1),
    ensures
        g1.len() == g0.len(),
        ms.len() == opt.params@.len(),
        vs.len() == opt.params@.len(),
        k < n ==> optim::adam_moved(
            f,
            opt,
            c1,
            c2,
            g0[opt.params@[k] as int].tensor,
            opt.exp_avg@[k],
            opt.exp_avg_sq@[k],
            g1[opt.params@[k] as int].tensor,
            ms[k],
            vs[k],
        ),
        k >= n ==> g1[opt.params@[k] as int] == g0[opt.params@[k] as int] && ms[k] == opt.exp_avg@[k] && vs[k]
            == opt.exp_avg_sq@[k],
    decreases n,
{
    if n > 0 {
        let (m, v, g) = choose|
            m: Seq<Option<Tensor>>,
            v: Seq<Option<Tensor>>,
            g: Seq<Node>,
        |
            optim::adam_swept(f, opt, c1, c2, g0, n - 1, m, v, g) && #[trigger] optim::adam_turn(
                f,
                opt,
                c1,
                c2,
                n - 1,
                m,
                v,
                g,
                ms,
                vs,
                g1,
            );
        lemma_adam_turn_of(f, opt, c1, c2, g0, n - 1, m, v, g, k);
        if k != n - 1 {
            assert(opt.params@[n - 1] != opt.params@[k]);
            assert(g1[opt.params@[k] as int] == g[opt.params@[k] as int]);
        }
    }
}

/// How an element moves: the corrections are `r.0` and `r.1`.
#[verifier::rlimit(40)]
proof fn lemma_adam_element<F: Fpu>(
    f: &F,
    before: Adam,
    g0: Seq<Node>,
    after: Adam,
    g1: Seq<Node>,
    k: int,
    i: int,
    o: Moved,
) -> (r: (u32, u32))
    requires
        adam_observed(f, before, g0, after, g1, k, i, o),
    ensures
        optim::bias_correction(f, before.betas.0, after.step_count as i32, r.0),
        optim::bias_correction(f, before.betas.1, after.step_count as i32, r.1),
        optim::first_moment(f, before.betas.0, o.m, o.g, o.m2),
        optim::second_moment(f, before.betas.1, o.v, o.g, o.v2),
        optim::adam_moves(f, o.w, o.m2, o.v2, r.0, r.1, before.eps, before.lr, o.w2),
{
    let id = before.params@[k] as int;
    let (c1, c2) = choose|c1: u32, c2: u32| #[trigger]
        optim::bias_correction(f, before.betas.0, after.step_count as i32, c1) && #[trigger] optim::bias_correction(
            f,
            before.betas.1,
            after.step_count as i32,
            c2,
        ) && optim::adam_swept(
            f,
            before,
            c1,
            c2,
            g0,
            before.params@.len() as int,
            after.exp_avg@,
            after.exp_avg_sq@,
            g1,
        );
    lemma_adam_turn_of(f, before, c1, c2, g0, before.params@.len() as int, after.exp_avg@, after.exp_avg_sq@, g1, k);
    let p = g0[id].tensor;
    let g = *p.grad->0;
    let t = choose|t: AdamTurn|
        optim::adam_updates(
            f,
            before,
            c1,
            c2,
            p,
            g,
            before.exp_avg@[k],
            before.exp_avg_sq@[k],
            t,
            g1[id].tensor,
            after.exp_avg@[k]->0,
            after.exp_avg_sq@[k]->0,
        );
    assert(t.w.data@ == p.storage->F32_0.data@);
    assert(t.m.data@[i] == o.m);
    assert(t.v.data@[i] == o.v);
    assert(t.w2[i] == o.w2 && t.m2[i] == o.m2 && t.v2[i] == o.v2);
    (c1, c2)
}

/// The share that a rate leaves: one minus the rate.
proof fn lemma_rest<F: Fpu>(f: &F, rd: spec_fn(int, int) -> int, beta: u32, c: u32)
    requires
        rounding::rounds_by(f, rd),
        float_bits::is_finite(beta),
        0 <= rounding::value(beta) <= rounding::unit(),
        fpu::subs(f, fpu::ONE, beta, c),
    ensures
        float_bits::is_finite(c),
        0 <= rounding::value(c) <= rounding::unit(),
        rounding::value(c) == rd(rounding::unit() - rounding::value(beta), 1),
{
    rounding::lemma_constants();
    let u = rounding::unit();
    rounding::lemma_rounds_to_side(rd, u - rounding::value(beta), 1, fpu::ZERO);
    rounding::lemma_rounds_to_side(rd, u - rounding::value(beta), 1, fpu::ONE);
    rounding::lemma_finite_between(fpu::ZERO, c, fpu::ONE);
}

/// The first moment of Adam is a mean of the earlier one and the gradient: it grows with
/// both.
pub proof fn law_moment_grows_with_both<F: Fpu>(
    f: &F,
    rd: spec_fn(int, int) -> int,
    before: Adam,
    g0: Seq<Node>,
    after: Adam,
    g1: Seq<Node>,
    k: int,
    i: int,
    o: Moved,
    other_before: Adam,
    h0: Seq<Node>,
    other_after: Adam,
    h1: Seq<Node>,
    l: int,
    j: int,
    other: Moved,
)
    requires
        rounding::rounds_by(f, rd),
        adam_observed(f, before, g0, after, g1, k, i, o),
        adam_observed(f, other_before, h0, other_after, h1, l, j, other),
        before.betas.0 == other_before.betas.0,
        float_bits::is_finite(before.betas.0),
        0 <= rounding::value(before.betas.0) <= rounding::unit(),
        float_bits::is_finite(o.m) && float_bits::is_finite(o.g),
        float_bits::is_finite(other.m) && float_bits::is_finite(other.g),
        rounding::value(o.m) <= rounding::value(other.m),
        rounding::value(o.g) <= rounding::value(other.g),
    ensures
        rounding::value(o.m2) <= rounding::value(other.m2),
{
    let beta = before.betas.0;
    let u = rounding::unit();
    rounding::lemma_constants();
    let _ = lemma_adam_element(f, before, g0, after, g1, k, i, o);
    let _ = lemma_adam_element(f, other_before, h0, other_after, h1, l, j, other);
    let (a1, c1, b1) = choose|a: u32, c: u32, b: u32|
        #[trigger] fpu::muls(f, beta, o.m, a) && #[trigger] fpu::subs(f, fpu::ONE, beta, c) && fpu::muls(f, c, o.g, b)
            && #[trigger] fpu::adds(f, a, b, o.m2);
    let (a2, c2, b2) = choose|a: u32, c: u32, b: u32|
        #[trigger] fpu::muls(f, beta, other.m, a) && #[trigger] fpu::subs(f, fpu::ONE, beta, c) && fpu::muls(f, c, other.g, b)
            && #[trigger] fpu::adds(f, a, b, other.m2);
    lemma_rest(f, rd, beta, c1);
    lemma_rest(f, rd, beta, c2);
    lemma_shares_in_order(f, rd, beta, o.m, a1, other.m, a2);
    assert(rounding::value(c1) == rounding::value(c2));
    lemma_share(f, rd, c1, o.g, b1);
    lemma_share(f, rd, c2, other.g, b2);
    lemma_products_in_order(rd, rounding::value(c1), rounding::value(o.g), rounding::value(other.g));
    rounding::lemma_rounds_in_order(rd, rounding::value(a1) + rounding::value(b1), 1, rounding::value(a2) + rounding::value(b2), 1);
}

/// A share of a number.
proof fn lemma_share<F: Fpu>(f: &F, rd: spec_fn(int, int) -> int, c: u32, x: u32, r: u32)
    requires
        rounding::rounds_by(f, rd),
        float_bits::is_finite(c),
        0 <= rounding::value(c) <= rounding::unit(),
        float_bits::is_finite(x),
        fpu::muls(f, c, x, r),
    ensures
        float_bits::is_finite(r),
        rounding::value(r) == rd(rounding::value(c) * rounding::value(x), rounding::unit()),
        rounding::value(x) >= 0 ==> 0 <= rounding::value(r) <= rounding::value(x),
        rounding::value(x) <= 0 ==> rounding::value(x) <= rounding::value(r) <= 0,
{
    rounding::lemma_constants();
    let u = rounding::unit();
    let (vc, vx) = (rounding::value(c), rounding::value(x));
    let (lo, hi) = if vx <= 0 {
        (x, fpu::ZERO)
    } else {
        (fpu::ZERO, x)
    };
    assert(rounding::value(lo) * u <= vc * vx <= rounding::value(hi) * u) by (nonlinear_arith)
        requires
            0 <= vc <= u,
            vx <= 0 ==> rounding::value(lo) == vx && rounding::value(hi) == 0,
            vx > 0 ==> rounding::value(lo) == 0 && rounding::value(hi) == vx,
    ;
    rounding::lemma_rounds_to_side(rd, vc * vx, u, lo);
    rounding::lemma_rounds_to_side(rd, vc * vx, u, hi);
    rounding::lemma_finite_between(lo, r, hi);
}

proof fn lemma_products_in_order(rd: spec_fn(int, int) -> int, c: int, x: int, y: int)
    requires
        rounding::is_rounding(rd),
        c >= 0,
        x <= y,
    ensures
        rd(c * x, rounding::unit()) <= rd(c * y, rounding::unit()),
{
    rounding::lemma_constants();
    let u = rounding::unit();
    assert((c * x) * u <= (c * y) * u) by (nonlinear_arith)
        requires
            c >= 0,
            x <= y,
            u > 0,
    ;
    rounding::lemma_rounds_in_order(rd, c * x, u, c * y, u);
}

proof fn lemma_shares_in_order<F: Fpu>(f: &F, rd: spec_fn(int, int) -> int, c: u32, x: u32, r: u32, y: u32, s: u32)
    requires
        rounding::rounds_by(f, rd),
        float_bits::is_finite(c),
        0 <= rounding::value(c) <= rounding::unit(),
        float_bits::is_finite(x),
        float_bits::is_finite(y),
        rounding::value(x) <= rounding::value(y),
        fpu::muls(f, c, x, r),
        fpu::muls(f, c, y, s),
    ensures
        float_bits::is_finite(r),
        float_bits::is_finite(s),
        rounding::value(r) <= rounding::value(s),
{
    lemma_share(f, rd, c, x, r);
    lemma_share(f, rd, c, y, s);
    lemma_products_in_order(rd, rounding::value(c), rounding::value(x), rounding::value(y));
}

/// The first moment of Adam lies between the earlier one and the gradient, where the shares
/// of both are numbers.
#[verifier::rlimit(40)]
pub proof fn law_moment_lies_between<F: Fpu>(
    f: &F,
    rd: spec_fn(int, int) -> int,
    before: Adam,
    g0: Seq<Node>,
    after: Adam,
    g1: Seq<Node>,
    k: int,
    i: int,
    o: Moved,
)
    requires
        rounding::rounds_by(f, rd),
        adam_observed(f, before, g0, after, g1, k, i, o),
        float_bits::is_finite(before.betas.0),
        0 <= rounding::value(before.betas.0) <= rounding::unit(),
        float_bits::is_finite(o.m) && float_bits::is_finite(o.g),
        rounding::is_number(rounding::unit() - rounding::value(before.betas.0), 1),
        rounding::is_number(rounding::value(before.betas.0) * rounding::value(o.m), rounding::unit()),
        rounding::is_number((rounding::unit() - rounding::value(before.betas.0)) * rounding::value(o.g), rounding::unit()),
    ensures
        rounding::value(o.m) <= rounding::value(o.m2) <= rounding::value(o.g) || rounding::value(o.g) <= rounding::value(o.m2) <= rounding::value(o.m),
{
    let beta = before.betas.0;
    let u = rounding::unit();
    rounding::lemma_constants();
    let _ = lemma_adam_element(f, before, g0, after, g1, k, i, o);
    let (a, c, b) = choose|a: u32, c: u32, b: u32|
        #[trigger] fpu::muls(f, beta, o.m, a) && #[trigger] fpu::subs(f, fpu::ONE, beta, c) && fpu::muls(f, c, o.g, b)
            && #[trigger] fpu::adds(f, a, b, o.m2);
    let (vb, vm, vg) = (rounding::value(beta), rounding::value(o.m), rounding::value(o.g));
    lemma_rest(f, rd, beta, c);
    rounding::lemma_number_stays(rd, u - vb, 1, c);
    lemma_share(f, rd, beta, o.m, a);
    rounding::lemma_number_stays(rd, vb * vm, u, a);
    lemma_share(f, rd, c, o.g, b);
    rounding::lemma_number_stays(rd, (u - vb) * vg, u, b);
    let sum = rounding::value(a) + rounding::value(b);
    assert(vm <= vg ==> vm <= sum <= vg) by (nonlinear_arith)
        requires
            rounding::value(a) * u == vb * vm,
            rounding::value(b) * u == (u - vb) * vg,
            sum == rounding::value(a) + rounding::value(b),
            0 <= vb <= u,
            u > 0,
    ;
    assert(vg <= vm ==> vg <= sum <= vm) by (nonlinear_arith)
        requires
            rounding::value(a) * u == vb * vm,
            rounding::value(b) * u == (u - vb) * vg,
            sum == rounding::value(a) + rounding::value(b),
            0 <= vb <= u,
            u > 0,
    ;
    rounding::lemma_rounds_to_side(rd, sum, 1, o.m);
    rounding::lemma_rounds_to_side(rd, sum, 1, o.g);
}

/// A number that stays the same, a mean of zeros and of that number: the share of the number
/// in the mean is what the power of the rate leaves.
proof fn lemma_mean_of_same(u: int, b: int, p: int, n: int, g: int, m: int, m2: int, c: int)
    requires
        u > 0,
        m * u == (u - p) * g,
        n * u == b * p,
        m2 * u == b * m + (u - b) * g,
        c == u - n,
    ensures
        m2 * u == c * g,
{
    let w = (u - b) * g;
    let bp = b * p;
    assert(b * (m * u) == b * ((u - p) * g));
    assert((b * m + w) * u == b * (m * u) + w * u) by (nonlinear_arith);
    assert(b * ((u - p) * g) == (b * u) * g - bp * g) by (nonlinear_arith)
        requires
            bp == b * p,
    ;
    assert(w * u == (u * u) * g - (b * u) * g) by (nonlinear_arith)
        requires
            w == (u - b) * g,
    ;
    assert((c * g) * u == (u * u) * g - (n * u) * g) by (nonlinear_arith)
        requires
            c == u - n,
    ;
    assert((m2 * u) * u == (c * g) * u);
    assert(m2 * u == c * g) by (nonlinear_arith)
        requires
            (m2 * u) * u == (c * g) * u,
            u > 0,
    ;
}

/// The same for squares.
proof fn lemma_mean_of_squares(u: int, b: int, p: int, n: int, g: int, v: int, v2: int, c: int)
    requires
        u > 0,
        (v * u) * u == (u - p) * (g * g),
        n * u == b * p,
        (v2 * u) * u == (b * v) * u + ((u - b) * g) * g,
        c == u - n,
    ensures
        (v2 * u) * u == c * (g * g),
{
    let s = g * g;
    assert(((u - b) * g) * g == (u - b) * s) by (nonlinear_arith)
        requires
            s == g * g,
    ;
    assert((b * v) * u == b * (v * u)) by (nonlinear_arith);
    lemma_mean_of_same(u, b, p, n, s, v * u, v2 * u, c);
}

/// What a step of Adam starts from under a gradient that has stayed the same: its moments are
/// the shares of the gradient, and of its square, that the powers `p` and `q` of the rates
/// leave. Nothing has to be rounded on the way.
pub open spec fn is_steady<F: Fpu>(f: &F, opt: Adam, count: usize, o: Moved, p: u32, q: u32) -> bool {
    let u = rounding::unit();
    let (b1, b2) = (rounding::value(opt.betas.0), rounding::value(opt.betas.1));
    let (m, v, g) = (rounding::value(o.m), rounding::value(o.v), rounding::value(o.g));
    &&& float_bits::is_finite(opt.betas.0) && 0 <= b1 < u
    &&& float_bits::is_finite(opt.betas.1) && 0 <= b2 < u
    &&& float_bits::is_finite(o.w) && float_bits::is_finite(o.m) && float_bits::is_finite(o.v) && float_bits::is_finite(o.g)
    &&& float_bits::is_finite(p) && 0 <= rounding::value(p) <= u
    &&& float_bits::is_finite(q) && 0 <= rounding::value(q) <= u
    &&& g != 0
    &&& m * u == (u - rounding::value(p)) * g
    &&& (v * u) * u == (u - rounding::value(q)) * (g * g)
    &&& forall|n: u32| #[trigger]
        fpu::powis(f, opt.betas.0, count as i32, n) ==> float_bits::is_finite(n) && rounding::value(n) * u == b1
            * rounding::value(p)
    &&& forall|n: u32| #[trigger]
        fpu::powis(f, opt.betas.1, count as i32, n) ==> float_bits::is_finite(n) && rounding::value(n) * u == b2
            * rounding::value(q)
    &&& rounding::is_number(u - b1, 1)
    &&& rounding::is_number(u - b2, 1)
    &&& rounding::is_number(b1 * m, u)
    &&& rounding::is_number((u - b1) * g, u)
    &&& rounding::is_number(b1 * m + (u - b1) * g, u)
    &&& rounding::is_number(u * u - b1 * rounding::value(p), u)
    &&& rounding::is_number(b2 * v, u)
    &&& rounding::is_number((u - b2) * g, u)
    &&& rounding::is_number(((u - b2) * g) * g, u * u)
    &&& rounding::is_number((b2 * v) * u + ((u - b2) * g) * g, u * u)
    &&& rounding::is_number(u * u - b2 * rounding::value(q), u)
    &&& rounding::is_number(g * g, u)
}

/// What is rounded of two shares of a sum that are numbers.
proof fn lemma_steady_moment<F: Fpu>(f: &F, rd: spec_fn(int, int) -> int, beta: u32, m: u32, g: u32, r: u32)
    requires
        rounding::rounds_by(f, rd),
        float_bits::is_finite(beta),
        0 <= rounding::value(beta) <= rounding::unit(),
        float_bits::is_finite(m),
        float_bits::is_finite(g),
        rounding::is_number(rounding::unit() - rounding::value(beta), 1),
        rounding::is_number(rounding::value(beta) * rounding::value(m), rounding::unit()),
        rounding::is_number((rounding::unit() - rounding::value(beta)) * rounding::value(g), rounding::unit()),
        rounding::is_number(
            rounding::value(beta) * rounding::value(m) + (rounding::unit() - rounding::value(beta)) * rounding::value(g),
            rounding::unit(),
        ),
        optim::first_moment(f, beta, m, g, r),
    ensures
        float_bits::is_finite(r),
        rounding::value(r) * rounding::unit() == rounding::value(beta) * rounding::value(m) + (rounding::unit()
            - rounding::value(beta)) * rounding::value(g),
{
    let u = rounding::unit();
    rounding::lemma_constants();
    let (a, c, b) = choose|a: u32, c: u32, b: u32|
        #[trigger] fpu::muls(f, beta, m, a) && #[trigger] fpu::subs(f, fpu::ONE, beta, c) && fpu::muls(f, c, g, b)
            && #[trigger] fpu::adds(f, a, b, r);
    let (vb, vm, vg) = (rounding::value(beta), rounding::value(m), rounding::value(g));
    lemma_rest(f, rd, beta, c);
    rounding::lemma_number_stays(rd, u - vb, 1, c);
    lemma_share(f, rd, beta, m, a);
    rounding::lemma_number_stays(rd, vb * vm, u, a);
    lemma_share(f, rd, c, g, b);
    rounding::lemma_number_stays(rd, (u - vb) * vg, u, b);
    let n = vb * vm + (u - vb) * vg;
    let sum = rounding::value(a) + rounding::value(b);
    assert(sum * u == n) by (nonlinear_arith)
        requires
            sum == rounding::value(a) + rounding::value(b),
            rounding::value(a) * u == vb * vm,
            rounding::value(b) * u == (u - vb) * vg,
            n == vb * vm + (u - vb) * vg,
    ;
    rounding::lemma_rounds_alike(rd, sum, 1, n, u);
    rounding::lemma_number_stays(rd, n, u, r);
}

#[verifier::rlimit(40)]
proof fn lemma_steady_square<F: Fpu>(f: &F, rd: spec_fn(int, int) -> int, beta: u32, v: u32, g: u32, r: u32)
    requires
        rounding::rounds_by(f, rd),
        float_bits::is_finite(beta),
        0 <= rounding::value(beta) <= rounding::unit(),
        float_bits::is_finite(v),
        float_bits::is_finite(g),
        rounding::is_number(rounding::unit() - rounding::value(beta), 1),
        rounding::is_number(rounding::value(beta) * rounding::value(v), rounding::unit()),
        rounding::is_number((rounding::unit() - rounding::value(beta)) * rounding::value(g), rounding::unit()),
        rounding::is_number(
            ((rounding::unit() - rounding::value(beta)) * rounding::value(g)) * rounding::value(g),
            rounding::unit() * rounding::unit(),
        ),
        rounding::is_number(
            (rounding::value(beta) * rounding::value(v)) * rounding::unit() + ((rounding::unit() - rounding::value(beta))
                * rounding::value(g)) * rounding::value(g),
            rounding::unit() * rounding::unit(),
        ),
        optim::second_moment(f, beta, v, g, r),
    ensures
        float_bits::is_finite(r),
        (rounding::value(r) * rounding::unit()) * rounding::unit() == (rounding::value(beta) * rounding::value(v))
            * rounding::unit() + ((rounding::unit() - rounding::value(beta)) * rounding::value(g)) * rounding::value(g),
{
    let u = rounding::unit();
    rounding::lemma_constants();
    let (a, c, b, d) = choose|a: u32, c: u32, b: u32, d: u32|
        #[trigger] fpu::muls(f, beta, v, a) && #[trigger] fpu::subs(f, fpu::ONE, beta, c) && #[trigger] fpu::muls(f, c, g, b)
            && fpu::muls(f, b, g, d) && #[trigger] fpu::adds(f, a, d, r);
    let (vb, vv, vg) = (rounding::value(beta), rounding::value(v), rounding::value(g));
    lemma_rest(f, rd, beta, c);
    rounding::lemma_number_stays(rd, u - vb, 1, c);
    lemma_share(f, rd, beta, v, a);
    rounding::lemma_number_stays(rd, vb * vv, u, a);
    lemma_share(f, rd, c, g, b);
    rounding::lemma_number_stays(rd, (u - vb) * vg, u, b);
    let h = rounding::value(b);
    let w = (u - vb) * vg;
    let uu = u * u;
    assert(uu > 0 && (h * vg) * uu == (w * vg) * u) by (nonlinear_arith)
        requires
            u > 0,
            uu == u * u,
            h * u == w,
    ;
    rounding::lemma_rounds_alike(rd, h * vg, u, w * vg, uu);
    rounding::lemma_number_stays(rd, w * vg, uu, d);
    let n = (vb * vv) * u + w * vg;
    let sum = rounding::value(a) + rounding::value(d);
    assert(sum * uu == n && (rounding::value(d) * u) * u == w * vg) by (nonlinear_arith)
        requires
            sum == rounding::value(a) + rounding::value(d),
            rounding::value(a) * u == vb * vv,
            rounding::value(d) * uu == w * vg,
            n == (vb * vv) * u + w * vg,
            uu == u * u,
    ;
    rounding::lemma_rounds_alike(rd, sum, 1, n, uu);
    rounding::lemma_number_stays(rd, n, uu, r);
    let vr = rounding::value(r);
    assert((vr * u) * u == vr * uu) by (nonlinear_arith)
        requires
            uu == u * u,
    ;
}

/// The correction for a power of a rate that is a number.
proof fn lemma_steady_correction<F: Fpu>(f: &F, rd: spec_fn(int, int) -> int, beta: u32, count: i32, p: int, c: u32) -> (n: u32)
    requires
        rounding::rounds_by(f, rd),
        0 <= rounding::value(beta) < rounding::unit(),
        0 <= p <= rounding::unit(),
        forall|n: u32| #[trigger]
            fpu::powis(f, beta, count, n) ==> float_bits::is_finite(n) && rounding::value(n) * rounding::unit()
                == rounding::value(beta) * p,
        rounding::is_number(rounding::unit() * rounding::unit() - rounding::value(beta) * p, rounding::unit()),
        optim::bias_correction(f, beta, count, c),
    ensures
        fpu::powis(f, beta, count, n),
        float_bits::is_finite(n),
        0 <= rounding::value(n) < rounding::unit(),
        rounding::value(n) * rounding::unit() == rounding::value(beta) * p,
        float_bits::is_finite(c),
        rounding::value(c) == rounding::unit() - rounding::value(n),
        rounding::value(c) > 0,
{
    let u = rounding::unit();
    rounding::lemma_constants();
    let n = choose|n: u32| fpu::powis(f, beta, count, n) && #[trigger] fpu::subs(f, fpu::ONE, n, c);
    let (b, vn) = (rounding::value(beta), rounding::value(n));
    assert(0 <= vn < u) by (nonlinear_arith)
        requires
            vn * u == b * p,
            0 <= b < u,
            0 <= p <= u,
            u > 0,
    ;
    assert((u - vn) * u == u * u - b * p) by (nonlinear_arith)
        requires
            vn * u == b * p,
    ;
    rounding::lemma_rounds_alike(rd, u - vn, 1, u * u - b * p, u);
    rounding::lemma_number_stays(rd, u * u - b * p, u, c);
    let vc = rounding::value(c);
    assert(vc == u - vn) by (nonlinear_arith)
        requires
            vc * u == (u - vn) * u,
            u > 0,
    ;
    n
}

/// A corrected moment over the size of the gradient that it is.
#[verifier::rlimit(40)]
proof fn lemma_steady_step<F: Fpu>(f: &F, rd: spec_fn(int, int) -> int, o: Moved, mh: u32, e: u32, d: u32, lr: u32)
    requires
        rounding::rounds_by(f, rd),
        float_bits::is_finite(o.w) && float_bits::is_finite(mh) && float_bits::is_finite(e) && float_bits::is_finite(lr),
        rounding::value(o.g) != 0,
        rounding::value(mh) == rounding::value(o.g),
        rounding::value(e) == size_of(rounding::value(o.g)),
        fpu::divs(f, mh, e, d),
        optim::descends(f, o.w, d, lr, o.w2),
    ensures
        rounding::value(o.g) > 0 ==> rounding::value(o.w2) == rd(rounding::value(o.w) - rounding::value(lr), 1),
        rounding::value(o.g) < 0 ==> rounding::value(o.w2) == rd(rounding::value(o.w) + rounding::value(lr), 1),
{
    let u = rounding::unit();
    rounding::lemma_constants();
    let g = rounding::value(o.g);
    let vz = rounding::value(e);
    let minus_one = rounding::lemma_negated(fpu::ONE);
    let dir = if g > 0 {
        fpu::ONE
    } else {
        minus_one
    };
    let vd = rounding::value(dir);
    assert(vd * vz == g * u) by (nonlinear_arith)
        requires
            g > 0 ==> vd == u && vz == g,
            g < 0 ==> vd == -u && vz == -g,
            g != 0,
    ;
    rounding::lemma_rounds_to_side(rd, g * u, vz, dir);
    rounding::lemma_finite_between(dir, d, dir);
    let step = choose|step: u32| fpu::muls(f, lr, d, step) && #[trigger] fpu::subs(f, o.w, step, o.w2);
    let minus_rate = rounding::lemma_negated(lr);
    let rate = if g > 0 {
        lr
    } else {
        minus_rate
    };
    let (vl, vr) = (rounding::value(lr), rounding::value(rate));
    assert(vr * u == vl * vd) by (nonlinear_arith)
        requires
            g > 0 ==> vd == u && vr == vl,
            g < 0 ==> vd == -u && vr == -vl,
            g != 0,
    ;
    rounding::lemma_rounds_to_side(rd, vl * vd, u, rate);
    rounding::lemma_finite_between(rate, step, rate);
}

/// A direction that moments of a gradient that stays the same give.
#[verifier::rlimit(40)]
proof fn lemma_steady_direction<F: Fpu>(f: &F, rd: spec_fn(int, int) -> int, o: Moved, c1: u32, c2: u32, eps: u32, lr: u32)
    requires
        rounding::rounds_by(f, rd),
        float_bits::is_finite(o.w) && float_bits::is_finite(o.m2) && float_bits::is_finite(o.v2) && float_bits::is_finite(o.g),
        float_bits::is_finite(c1) && rounding::value(c1) > 0,
        float_bits::is_finite(c2) && rounding::value(c2) > 0,
        float_bits::is_finite(eps),
        float_bits::is_finite(lr),
        rounding::value(o.g) != 0,
        rounding::value(o.m2) * rounding::unit() == rounding::value(c1) * rounding::value(o.g),
        (rounding::value(o.v2) * rounding::unit()) * rounding::unit() == rounding::value(c2) * (rounding::value(o.g)
            * rounding::value(o.g)),
        rounding::is_number(rounding::value(o.g) * rounding::value(o.g), rounding::unit()),
        rounding::value(o.g) > 0 ==> rd(rounding::value(o.g) + rounding::value(eps), 1) == rounding::value(o.g),
        rounding::value(o.g) < 0 ==> rd(-rounding::value(o.g) + rounding::value(eps), 1) == -rounding::value(o.g),
        optim::adam_moves(f, o.w, o.m2, o.v2, c1, c2, eps, lr, o.w2),
    ensures
        rounding::value(o.g) > 0 ==> rounding::value(o.w2) == rd(rounding::value(o.w) - rounding::value(lr), 1),
        rounding::value(o.g) < 0 ==> rounding::value(o.w2) == rd(rounding::value(o.w) + rounding::value(lr), 1),
{
    let u = rounding::unit();
    rounding::lemma_constants();
    let (m2, v2, g) = (rounding::value(o.m2), rounding::value(o.v2), rounding::value(o.g));
    let (k1, k2) = (rounding::value(c1), rounding::value(c2));
    let d = choose|d: u32|
        optim::adam_direction(f, o.m2, o.v2, c1, c2, eps, d) && #[trigger] optim::descends(
            f,
            o.w,
            d,
            lr,
            o.w2,
        );
    let (mh, vh, s, e) = choose|mh: u32, vh: u32, s: u32, e: u32|
        #[trigger] fpu::divs(f, o.m2, c1, mh) && #[trigger] fpu::divs(f, o.v2, c2, vh) && fpu::sqrts(f, vh, s)
            && #[trigger] fpu::adds(f, s, eps, e) && fpu::divs(f, mh, e, d);
    assert(g * k1 == m2 * u) by (nonlinear_arith)
        requires
            m2 * u == k1 * g,
    ;
    rounding::lemma_rounds_to_side(rd, m2 * u, k1, o.g);
    rounding::lemma_finite_between(o.g, mh, o.g);
    let s2 = g * g;
    assert((v2 * u) * u == s2 * k2) by (nonlinear_arith)
        requires
            (v2 * u) * u == k2 * s2,
    ;
    rounding::lemma_rounds_alike(rd, v2 * u, k2, s2, u);
    rounding::lemma_number_stays(rd, s2, u, vh);
    let vvh = rounding::value(vh);
    assert(s2 > 0) by (nonlinear_arith)
        requires
            s2 == g * g,
            g != 0,
    ;
    assert(vvh > 0) by (nonlinear_arith)
        requires
            vvh * u == s2,
            s2 > 0,
            u > 0,
    ;
    let minus = rounding::lemma_negated(o.g);
    let size = if g > 0 {
        o.g
    } else {
        minus
    };
    let vz = rounding::value(size);
    assert(vz * vz == s2) by (nonlinear_arith)
        requires
            vz == g || vz == -g,
            s2 == g * g,
    ;
    assert(rounding::is_root(vh, s));
    assert(vz >= 0 && vvh * u <= vz * vz && vz * vz <= vvh * u);
    assert(rounding::value(s) == vz);
    rounding::lemma_finite_between(size, s, size);
    rounding::lemma_finite_is_number(size);
    assert(rounding::value(e) == vz);
    rounding::lemma_finite_between(size, e, size);
    lemma_steady_step(f, rd, o, mh, e, d, lr);
}

/// Under a gradient that stays the same each step of Adam moves a parameter by the rate,
/// against the gradient, and not only the first: where nothing has to be rounded on the way,
/// and the small number that keeps the divisor from zero vanishes in it. The moments are again
/// such shares of the gradient that the next step starts from, with the powers `r.0` and `r.1`
/// of the rates.
pub proof fn law_steady_gradient_moves_by_the_rate<F: Fpu>(
    f: &F,
    rd: spec_fn(int, int) -> int,
    before: Adam,
    g0: Seq<Node>,
    after: Adam,
    g1: Seq<Node>,
    k: int,
    i: int,
    o: Moved,
    p: u32,
    q: u32,
) -> (r: (u32, u32))
    requires
        rounding::rounds_by(f, rd),
        adam_observed(f, before, g0, after, g1, k, i, o),
        is_steady(f, before, after.step_count, o, p, q),
        float_bits::is_finite(before.eps),
        float_bits::is_finite(before.lr),
        rounding::value(o.g) > 0 ==> rd(rounding::value(o.g) + rounding::value(before.eps), 1) == rounding::value(o.g),
        rounding::value(o.g) < 0 ==> rd(-rounding::value(o.g) + rounding::value(before.eps), 1) == -rounding::value(o.g),
    ensures
        rounding::value(o.g) > 0 ==> rounding::value(o.w2) == rd(rounding::value(o.w) - rounding::value(before.lr), 1),
        rounding::value(o.g) < 0 ==> rounding::value(o.w2) == rd(rounding::value(o.w) + rounding::value(before.lr), 1),
        fpu::powis(f, before.betas.0, after.step_count as i32, r.0),
        fpu::powis(f, before.betas.1, after.step_count as i32, r.1),
        rounding::value(o.m2) * rounding::unit() == (rounding::unit() - rounding::value(r.0)) * rounding::value(o.g),
        (rounding::value(o.v2) * rounding::unit()) * rounding::unit() == (rounding::unit() - rounding::value(r.1)) * (
        rounding::value(o.g) * rounding::value(o.g)),
{
    let u = rounding::unit();
    rounding::lemma_constants();
    let count = after.step_count as i32;
    let (c1, c2) = lemma_adam_element(f, before, g0, after, g1, k, i, o);
    let (b1, b2) = (rounding::value(before.betas.0), rounding::value(before.betas.1));
    let (vp, vq) = (rounding::value(p), rounding::value(q));
    let (m, v, g) = (rounding::value(o.m), rounding::value(o.v), rounding::value(o.g));
    let n1 = lemma_steady_correction(f, rd, before.betas.0, count, vp, c1);
    let n2 = lemma_steady_correction(f, rd, before.betas.1, count, vq, c2);
    lemma_steady_moment(f, rd, before.betas.0, o.m, o.g, o.m2);
    lemma_steady_square(f, rd, before.betas.1, o.v, o.g, o.v2);
    let (m2, v2) = (rounding::value(o.m2), rounding::value(o.v2));
    let (k1, k2) = (rounding::value(c1), rounding::value(c2));
    lemma_mean_of_same(u, b1, vp, rounding::value(n1), g, m, m2, k1);
    lemma_mean_of_squares(u, b2, vq, rounding::value(n2), g, v, v2, k2);
    lemma_steady_direction(f, rd, o, c1, c2, before.eps, before.lr);
    (n1, n2)
}

/// The second moment of Adam is a mean of squares: it is never negative, it grows with the
/// earlier one, and with the size of the gradient.
#[verifier::rlimit(40)]
pub proof fn law_second_moment_grows_with_size<F: Fpu>(
    f: &F,
    rd: spec_fn(int, int) -> int,
    before: Adam,
    g0: Seq<Node>,
    after: Adam,
    g1: Seq<Node>,
    k: int,
    i: int,
    o: Moved,
    other_before: Adam,
    h0: Seq<Node>,
    other_after: Adam,
    h1: Seq<Node>,
    l: int,
    j: int,
    other: Moved,
)
    requires
        rounding::rounds_by(f, rd),
        rounding::is_even_handed(rd),
        adam_observed(f, before, g0, after, g1, k, i, o),
        adam_observed(f, other_before, h0, other_after, h1, l, j, other),
        before.betas.1 == other_before.betas.1,
        float_bits::is_finite(before.betas.1),
        0 <= rounding::value(before.betas.1) <= rounding::unit(),
        float_bits::is_finite(o.v) && float_bits::is_finite(o.g),
        float_bits::is_finite(other.v) && float_bits::is_finite(other.g),
        0 <= rounding::value(o.v) <= rounding::value(other.v),
        size_of(rounding::value(o.g)) <= size_of(rounding::value(other.g)),
        rounding::is_number(size_of(rounding::value(other.g)) * size_of(rounding::value(other.g)), rounding::unit())
            || size_of(rounding::value(other.g)) <= rounding::unit(),
    ensures
        0 <= rounding::value(o.v2) <= rounding::value(other.v2),
{
    let beta = before.betas.1;
    let u = rounding::unit();
    rounding::lemma_constants();
    let _ = lemma_adam_element(f, before, g0, after, g1, k, i, o);
    let _ = lemma_adam_element(f, other_before, h0, other_after, h1, l, j, other);
    let (a1, c1, b1, d1) = choose|a: u32, c: u32, b: u32, d: u32|
        #[trigger] fpu::muls(f, beta, o.v, a) && #[trigger] fpu::subs(f, fpu::ONE, beta, c) && #[trigger] fpu::muls(f, c, o.g, b)
            && fpu::muls(f, b, o.g, d) && #[trigger] fpu::adds(f, a, d, o.v2);
    let (a2, c2, b2, d2) = choose|a: u32, c: u32, b: u32, d: u32|
        #[trigger] fpu::muls(f, beta, other.v, a) && #[trigger] fpu::subs(f, fpu::ONE, beta, c) && #[trigger] fpu::muls(
            f,
            c,
            other.g,
            b,
        ) && fpu::muls(f, b, other.g, d) && #[trigger] fpu::adds(f, a, d, other.v2);
    lemma_rest(f, rd, beta, c1);
    lemma_rest(f, rd, beta, c2);
    lemma_shares_in_order(f, rd, beta, o.v, a1, other.v, a2);
    lemma_share(f, rd, beta, o.v, a1);
    lemma_share(f, rd, beta, other.v, a2);
    let x = rounding::value(c1);
    let (y, z) = (rounding::value(o.g), rounding::value(other.g));
    lemma_share(f, rd, c1, o.g, b1);
    lemma_share(f, rd, c2, other.g, b2);
    lemma_sizes(rd, x, y);
    lemma_sizes(rd, x, z);
    let (s, t) = (size_of(y), size_of(z));
    lemma_products_in_order(rd, x, s, t);
    let (p, q) = (rd(x * s, u), rd(x * t, u));
    assert(size_of(rounding::value(b1)) == p && size_of(rounding::value(b2)) == q);
    assert(0 <= p <= q <= t && p <= s);
    // the squares
    assert(rounding::value(b1) * y == p * s) by (nonlinear_arith)
        requires
            y >= 0 ==> s == y && rounding::value(b1) == p,
            y < 0 ==> s == -y && rounding::value(b1) == -p,
    ;
    assert(rounding::value(b2) * z == q * t) by (nonlinear_arith)
        requires
            z >= 0 ==> t == z && rounding::value(b2) == q,
            z < 0 ==> t == -z && rounding::value(b2) == -q,
    ;
    assert(0 <= p * s <= q * t && (p * s) * u <= (q * t) * u && q * t <= t * t) by (nonlinear_arith)
        requires
            0 <= p <= q <= t,
            0 <= s <= t,
            u > 0,
    ;
    rounding::lemma_rounds_in_order(rd, p * s, u, q * t, u);
    rounding::lemma_rounds_to_side(rd, p * s, u, fpu::ZERO);
    let top = if t <= u {
        fpu::ONE
    } else {
        choose|r: u32| float_bits::is_finite(r) && #[trigger] rounding::value(r) * u == t * t
    };
    assert(q * t <= rounding::value(top) * u) by (nonlinear_arith)
        requires
            q * t <= t * t,
            t <= u ==> rounding::value(top) == u,
            t > u ==> rounding::value(top) * u == t * t,
            0 <= t,
            u > 0,
    ;
    rounding::lemma_rounds_to_side(rd, q * t, u, top);
    rounding::lemma_finite_between(fpu::ZERO, d1, top);
    rounding::lemma_finite_between(fpu::ZERO, d2, top);
    rounding::lemma_rounds_in_order(
        rd,
        rounding::value(a1) + rounding::value(d1),
        1,
        rounding::value(a2) + rounding::value(d2),
        1,
    );
    rounding::lemma_rounds_to_side(rd, rounding::value(a1) + rounding::value(d1), 1, fpu::ZERO);
}

/// A number without its sign.
pub open spec fn size_of(x: int) -> int {
    if x >= 0 {
        x
    } else {
        -x
    }
}

/// The size of a product is the product of the sizes.
proof fn lemma_sizes(rd: spec_fn(int, int) -> int, c: int, x: int)
    requires
        rounding::is_rounding(rd),
        rounding::is_even_handed(rd),
        c >= 0,
    ensures
        rd(c * size_of(x), rounding::unit()) >= 0,
        x >= 0 ==> rd(c * x, rounding::unit()) == rd(c * size_of(x), rounding::unit()),
        x < 0 ==> rd(c * x, rounding::unit()) == -rd(c * size_of(x), rounding::unit()),
{
    rounding::lemma_constants();
    let u = rounding::unit();
    let s = size_of(x);
    assert(c * s >= 0 && (x < 0 ==> c * x == -(c * s))) by (nonlinear_arith)
        requires
            c >= 0,
            s >= 0,
            x < 0 ==> s == -x,
    ;
    rounding::lemma_rounds_to_side(rd, c * s, u, fpu::ZERO);
    assert(rd(-(c * s), u) == -rd(c * s, u));
}

/// A parameter without a gradient to follow, now or before, stays where it is: the divisor is
/// kept from zero.
#[verifier::rlimit(40)]
pub proof fn law_nothing_moves_nothing<F: Fpu>(
    f: &F,
    rd: spec_fn(int, int) -> int,
    before: Adam,
    g0: Seq<Node>,
    after: Adam,
    g1: Seq<Node>,
    k: int,
    i: int,
    o: Moved,
)
    requires
        rounding::rounds_by(f, rd),
        adam_observed(f, before, g0, after, g1, k, i, o),
        float_bits::is_finite(before.betas.0) && 0 <= rounding::value(before.betas.0) < rounding::unit(),
        float_bits::is_finite(before.betas.1) && 0 <= rounding::value(before.betas.1) < rounding::unit(),
        forall|n: u32| #[trigger]
            fpu::powis(f, before.betas.0, after.step_count as i32, n) ==> leaves_a_rest(n),
        forall|n: u32| #[trigger]
            fpu::powis(f, before.betas.1, after.step_count as i32, n) ==> leaves_a_rest(n),
        float_bits::is_finite(before.eps) && rounding::value(before.eps) > 0,
        float_bits::is_finite(before.lr),
        float_bits::is_finite(o.w),
        float_bits::is_finite(o.m) && rounding::value(o.m) == 0,
        float_bits::is_finite(o.v) && rounding::value(o.v) == 0,
        float_bits::is_finite(o.g) && rounding::value(o.g) == 0,
    ensures
        rounding::value(o.w2) == rounding::value(o.w),
{
    let u = rounding::unit();
    rounding::lemma_constants();
    let (c1, c2) = lemma_adam_element(f, before, g0, after, g1, k, i, o);
    let (b1, b2) = (before.betas.0, before.betas.1);
    let (a, c, b) = choose|a: u32, c: u32, b: u32|
        #[trigger] fpu::muls(f, b1, o.m, a) && #[trigger] fpu::subs(f, fpu::ONE, b1, c) && fpu::muls(f, c, o.g, b)
            && #[trigger] fpu::adds(f, a, b, o.m2);
    lemma_rest(f, rd, b1, c);
    lemma_share(f, rd, b1, o.m, a);
    lemma_share(f, rd, c, o.g, b);
    lemma_zero(rd, 1, o.m2);
    let (a, c, b, d) = choose|a: u32, c: u32, b: u32, d: u32|
        #[trigger] fpu::muls(f, b2, o.v, a) && #[trigger] fpu::subs(f, fpu::ONE, b2, c) && #[trigger] fpu::muls(f, c, o.g, b)
            && fpu::muls(f, b, o.g, d) && #[trigger] fpu::adds(f, a, d, o.v2);
    lemma_rest(f, rd, b2, c);
    lemma_share(f, rd, b2, o.v, a);
    lemma_share(f, rd, c, o.g, b);
    assert(rounding::value(b) * rounding::value(o.g) == 0) by (nonlinear_arith)
        requires
            rounding::value(o.g) == 0,
    ;
    lemma_zero(rd, u, d);
    lemma_zero(rd, 1, o.v2);
    lemma_correction_is_positive(f, rd, b1, after.step_count as i32, c1);
    lemma_correction_is_positive(f, rd, b2, after.step_count as i32, c2);
    let dir = choose|d: u32|
        optim::adam_direction(f, o.m2, o.v2, c1, c2, before.eps, d) && #[trigger] optim::descends(
            f,
            o.w,
            d,
            before.lr,
            o.w2,
        );
    let (mh, vh, s, e) = choose|mh: u32, vh: u32, s: u32, e: u32|
        #[trigger] fpu::divs(f, o.m2, c1, mh) && #[trigger] fpu::divs(f, o.v2, c2, vh) && fpu::sqrts(f, vh, s)
            && #[trigger] fpu::adds(f, s, before.eps, e) && fpu::divs(f, mh, e, dir);
    assert(0 * u == 0) by (nonlinear_arith);
    lemma_zero(rd, rounding::value(c1), mh);
    lemma_zero(rd, rounding::value(c2), vh);
    assert(rounding::is_root(vh, s));
    assert(rounding::value(fpu::ZERO) * rounding::value(fpu::ZERO) == 0);
    assert(rounding::value(s) == 0);
    rounding::lemma_finite_between(fpu::ZERO, s, fpu::ZERO);
    rounding::lemma_rounds_to_side(rd, rounding::value(before.eps), 1, before.eps);
    rounding::lemma_finite_between(before.eps, e, before.eps);
    lemma_zero(rd, rounding::value(e), dir);
    let step = choose|step: u32| fpu::muls(f, before.lr, dir, step) && #[trigger] fpu::subs(f, o.w, step, o.w2);
    assert(rounding::value(before.lr) * rounding::value(dir) == 0) by (nonlinear_arith)
        requires
            rounding::value(dir) == 0,
    ;
    lemma_zero(rd, u, step);
    rounding::lemma_rounds_to_side(rd, rounding::value(o.w), 1, o.w);
}

/// A power of a rate that is below one.
pub open spec fn leaves_a_rest(n: u32) -> bool {
    float_bits::is_finite(n) && 0 <= rounding::value(n) <= rounding::unit() - rounding::value(LEAST_REST)
}

/// The least difference from one that a number below one has.
pub const LEAST_REST: u32 = 0x3380_0000;

/// A zero is not rounded.
proof fn lemma_zero(rd: spec_fn(int, int) -> int, d: int, r: u32)
    requires
        rounding::is_rounding(rd),
        d > 0,
        !float_bits::is_nan(r),
        rounding::value(r) == rd(0, d),
    ensures
        float_bits::is_finite(r),
        rounding::value(r) == 0,
{
    rounding::lemma_constants();
    rounding::lemma_rounds_to_side(rd, 0, d, fpu::ZERO);
    rounding::lemma_finite_between(fpu::ZERO, r, fpu::ZERO);
}

proof fn lemma_correction_is_positive<F: Fpu>(f: &F, rd: spec_fn(int, int) -> int, beta: u32, count: i32, c: u32)
    requires
        rounding::rounds_by(f, rd),
        forall|n: u32| #[trigger] fpu::powis(f, beta, count, n) ==> leaves_a_rest(n),
        optim::bias_correction(f, beta, count, c),
    ensures
        float_bits::is_finite(c),
        rounding::value(c) > 0,
{
    let u = rounding::unit();
    rounding::lemma_constants();
    let n = choose|n: u32| fpu::powis(f, beta, count, n) && #[trigger] fpu::subs(f, fpu::ONE, n, c);
    assert(leaves_a_rest(n));
    assert(0x3380_0000u32 / 0x80_0000u32 == 103);
    vstd::arithmetic::power2::lemma_pow2_pos(102);
    assert(float_bits::scaled_magnitude(LEAST_REST) == 0x80_0000nat * vstd::arithmetic::power2::pow2(102));
    assert(rounding::value(LEAST_REST) > 0) by (nonlinear_arith)
        requires
            rounding::value(LEAST_REST) == 0x80_0000 * vstd::arithmetic::power2::pow2(102),
            vstd::arithmetic::power2::pow2(102) > 0,
    ;
    let d = u - rounding::value(n);
    rounding::lemma_rounds_to_side(rd, d, 1, LEAST_REST);
    rounding::lemma_rounds_to_side(rd, d, 1, fpu::ONE);
    rounding::lemma_finite_between(LEAST_REST, c, fpu::ONE);
}

/// What a step of plain descent does to element `i` of parameter `k`, seen from outside: the
/// moments of `o` are the velocity.
pub open spec fn sgd_observed<F: Fpu>(
    f: &F,
    before: SGD,
    g0: Seq<Node>,
    after: SGD,
    g1: Seq<Node>,
    k: int,
    i: int,
    o: Moved,
) -> bool {
    let id = before.params@[k] as int;
    &&& <SGD as Optimizer<F>>::steps(f, &before, g0, &after, g1)
    &&& has_element(before.params@, k, g0, i)
    &&& before.state_dtype == DType::F32
    &&& before.velocities@.len() == before.params@.len()
    &&& optim::state_fits(before.velocities@[k], g0[id].tensor.spec_shape(), DType::F32)
    &&& o.w == g0[id].tensor.storage->F32_0.data@[i]
    &&& o.g == g0[id].tensor.grad->0.data@[i]
    &&& o.m == held_element(before.velocities@[k], i)
    &&& o.w2 == g1[id].tensor.storage->F32_0.data@[i]
    &&& o.m2 == held_element(after.velocities@[k], i)
}

proof fn lemma_sgd_turn_of<F: Fpu>(
    f: &F,
    opt: SGD,
    g0: Seq<Node>,
    n: int,
    held: Seq<Option<Tensor>>,
    g1: Seq<Node>,
    k: int,
)
    requires
        0 <= n <= opt.params@.len(),
        0 <= k < opt.params@.len(),
        opt.params@[k] < g0.len(),
        forall|j: int| 0 <= j < opt.params@.len() && j != k ==> #[trigger] opt.params@[j] != opt.params@[k],
        opt.velocities@.len() == opt.params@.len(),
        optim::sgd_swept(f, opt, g0, n, held, g1),
    ensures
        g1.len() == g0.len(),
        held.len() == opt.params@.len(),
        k < n ==> optim::sgd_moves(
            f,
            opt.lr,
            opt.momentum,
            opt.state_dtype,
            g0[opt.params@[k] as int].tensor,
            opt.velocities@[k],
            g1[opt.params@[k] as int].tensor,
            held[k],
        ),
        k >= n ==> g1[opt.params@[k] as int] == g0[opt.params@[k] as int] && held[k] == opt.velocities@[k],
    decreases n,
{
    if n > 0 {
        let (h, g) = choose|h: Seq<Option<Tensor>>, g: Seq<Node>|
            optim::sgd_swept(f, opt, g0, n - 1, h, g) && #[trigger] optim::sgd_turn(f, opt, n - 1, h, g, held, g1);
        lemma_sgd_turn_of(f, opt, g0, n - 1, h, g, k);
        if k != n - 1 {
            assert(opt.params@[n - 1] != opt.params@[k]);
            assert(g1[opt.params@[k] as int] == g[opt.params@[k] as int]);
        }
    }
}

#[verifier::rlimit(40)]
proof fn lemma_sgd_element<F: Fpu>(f: &F, before: SGD, g0: Seq<Node>, after: SGD, g1: Seq<Node>, k: int, i: int, o: Moved)
    requires
        sgd_observed(f, before, g0, after, g1, k, i, o),
    ensures
        float_bits::equal_values(before.momentum, fpu::ZERO) ==> optim::descends(f, o.w, o.g, before.lr, o.w2),
        !float_bits::equal_values(before.momentum, fpu::ZERO) ==> optim::accelerates(f, o.m, o.g, before.momentum, o.m2)
            && optim::descends(f, o.w, o.m2, before.lr, o.w2),
{
    let id = before.params@[k] as int;
    lemma_sgd_turn_of(f, before, g0, before.params@.len() as int, after.velocities@, g1, k);
    let p = g0[id].tensor;
    let g = *p.grad->0;
    let p2 = g1[id].tensor;
    if float_bits::equal_values(before.momentum, fpu::ZERO) {
        let (a, w) = choose|a: NdArray<u32>, w: Seq<u32>|
            autograd::reads_as(f, p.storage, a) && #[trigger] optim::descended(f, a.data@, g.data@, before.lr, w)
                && optim::rewritten(f, p, w, p2);
        assert(a.data@ == p.storage->F32_0.data@);
        assert(w[i] == o.w2);
        assert(optim::descends(f, a.data@[i], g.data@[i], before.lr, w[i]));
    } else {
        let v2 = after.velocities@[k]->0;
        let (state, b, v, a, w) = choose|
            state: Tensor,
            b: NdArray<u32>,
            v: Seq<u32>,
            a: NdArray<u32>,
            w: Seq<u32>,
        |
            optim::state_from(f, before.velocities@[k], p.spec_shape(), before.state_dtype, state) && autograd::reads_as(
                f,
                state.storage,
                b,
            ) && #[trigger] optim::accelerated(f, b.data@, g.data@, before.momentum, v) && autograd::reads_as(
                f,
                p.storage,
                a,
            ) && #[trigger] optim::descended(f, a.data@, v, before.lr, w) && optim::rewritten(f, p, w, p2)
                && #[trigger] optim::rewritten(f, state, v, v2);
        assert(a.data@ == p.storage->F32_0.data@);
        assert(w[i] == o.w2 && v[i] == o.m2);
        assert(b.data@[i] == o.m);
        assert(optim::descends(f, a.data@[i], v[i], before.lr, w[i]));
        assert(optim::accelerates(f, b.data@[i], g.data@[i], before.momentum, v[i]));
    }
}

/// How far a step of descent goes along what it follows.
proof fn lemma_descends<F: Fpu>(f: &F, rd: spec_fn(int, int) -> int, w: u32, d: u32, lr: u32, r: u32) -> (step: int)
    requires
        rounding::rounds_by(f, rd),
        float_bits::is_finite(w),
        float_bits::is_finite(d),
        float_bits::is_finite(lr),
        0 <= rounding::value(lr) <= rounding::unit(),
        optim::descends(f, w, d, lr, r),
    ensures
        step == rd(rounding::value(lr) * rounding::value(d), rounding::unit()),
        rounding::value(r) == rd(rounding::value(w) - step, 1),
        rounding::value(d) >= 0 ==> 0 <= step <= rounding::value(d),
        rounding::value(d) <= 0 ==> rounding::value(d) <= step <= 0,
        rounding::value(lr) == rounding::unit() ==> step == rounding::value(d),
{
    let p = choose|p: u32| fpu::muls(f, lr, d, p) && #[trigger] fpu::subs(f, w, p, r);
    lemma_share(f, rd, lr, d, p);
    let (l, x) = (rounding::value(lr), rounding::value(d));
    if l == rounding::unit() {
        rounding::lemma_constants();
        assert(l * x == x * l) by (nonlinear_arith);
        rounding::lemma_rounds_to_side(rd, l * x, l, d);
    }
    rounding::value(p)
}

/// Plain descent moves a parameter against its gradient, by no more than the gradient for a
/// rate of one at most, by the gradient itself for a rate of one, and further for a greater
/// rate or a greater gradient. A rate and a gradient have the same part in it. A parameter
/// whose gradient is zero stays.
#[verifier::rlimit(40)]
pub proof fn law_descent_goes_against_the_gradient<F: Fpu>(
    f: &F,
    rd: spec_fn(int, int) -> int,
    before: SGD,
    g0: Seq<Node>,
    after: SGD,
    g1: Seq<Node>,
    k: int,
    i: int,
    o: Moved,
    other_before: SGD,
    h0: Seq<Node>,
    other_after: SGD,
    h1: Seq<Node>,
    l: int,
    j: int,
    other: Moved,
)
    requires
        rounding::rounds_by(f, rd),
        sgd_observed(f, before, g0, after, g1, k, i, o),
        sgd_observed(f, other_before, h0, other_after, h1, l, j, other),
        float_bits::equal_values(before.momentum, fpu::ZERO),
        float_bits::equal_values(other_before.momentum, fpu::ZERO),
        float_bits::is_finite(before.lr) && 0 <= rounding::value(before.lr) <= rounding::unit(),
        float_bits::is_finite(other_before.lr) && 0 <= rounding::value(other_before.lr) <= rounding::unit(),
        float_bits::is_finite(o.w) && float_bits::is_finite(o.g),
        float_bits::is_finite(other.w) && float_bits::is_finite(other.g),
    ensures
        rounding::value(o.g) >= 0 ==> rd(rounding::value(o.w) - rounding::value(o.g), 1) <= rounding::value(o.w2)
            <= rounding::value(o.w),
        rounding::value(o.g) <= 0 ==> rounding::value(o.w) <= rounding::value(o.w2) <= rd(
            rounding::value(o.w) - rounding::value(o.g),
            1,
        ),
        rounding::value(before.lr) == rounding::unit() ==> rounding::value(o.w2) == rd(
            rounding::value(o.w) - rounding::value(o.g),
            1,
        ),
        rounding::value(o.w) == rounding::value(other.w) && rounding::value(before.lr) == rounding::value(other.g)
            && rounding::value(o.g) == rounding::value(other_before.lr) ==> rounding::value(o.w2) == rounding::value(other.w2),
        rounding::value(o.w) == rounding::value(other.w) && 0 <= rounding::value(o.g) <= rounding::value(other.g)
            && rounding::value(before.lr) <= rounding::value(other_before.lr) ==> rounding::value(other.w2)
            <= rounding::value(o.w2),
{
    let u = rounding::unit();
    rounding::lemma_constants();
    lemma_sgd_element(f, before, g0, after, g1, k, i, o);
    lemma_sgd_element(f, other_before, h0, other_after, h1, l, j, other);
    let s = lemma_descends(f, rd, o.w, o.g, before.lr, o.w2);
    let t = lemma_descends(f, rd, other.w, other.g, other_before.lr, other.w2);
    let (w, g) = (rounding::value(o.w), rounding::value(o.g));
    rounding::lemma_rounds_to_side(rd, w - s, 1, o.w);
    if g >= 0 {
        rounding::lemma_rounds_in_order(rd, w - g, 1, w - s, 1);
    }
    if g <= 0 {
        rounding::lemma_rounds_in_order(rd, w - s, 1, w - g, 1);
    }
    let (a, b, c, d) = (
        rounding::value(before.lr),
        rounding::value(o.g),
        rounding::value(other_before.lr),
        rounding::value(other.g),
    );
    assert(a == d && b == c ==> a * b == c * d) by (nonlinear_arith);
    if w == rounding::value(other.w) && 0 <= b <= d && a <= c {
        assert((a * b) * u <= (c * d) * u) by (nonlinear_arith)
            requires
                0 <= a <= c,
                0 <= b <= d,
                u > 0,
        ;
        rounding::lemma_rounds_in_order(rd, a * b, u, c * d, u);
        rounding::lemma_rounds_in_order(rd, w - t, 1, w - s, 1);
    }
}

/// With momentum the velocity takes up the gradient and keeps a share of what it was: it is
/// the gradient at first, and grows with the earlier velocity and with the gradient. The
/// parameter moves along the velocity as it would move along a gradient without momentum.
#[verifier::rlimit(40)]
pub proof fn law_velocity_takes_up_the_gradient<F: Fpu>(
    f: &F,
    rd: spec_fn(int, int) -> int,
    before: SGD,
    g0: Seq<Node>,
    after: SGD,
    g1: Seq<Node>,
    k: int,
    i: int,
    o: Moved,
    other_before: SGD,
    h0: Seq<Node>,
    other_after: SGD,
    h1: Seq<Node>,
    l: int,
    j: int,
    other: Moved,
    plain_before: SGD,
    p0: Seq<Node>,
    plain_after: SGD,
    p1: Seq<Node>,
    n: int,
    q: int,
    plain: Moved,
)
    requires
        rounding::rounds_by(f, rd),
        sgd_observed(f, before, g0, after, g1, k, i, o),
        sgd_observed(f, other_before, h0, other_after, h1, l, j, other),
        sgd_observed(f, plain_before, p0, plain_after, p1, n, q, plain),
        !float_bits::equal_values(before.momentum, fpu::ZERO),
        before.momentum == other_before.momentum,
        float_bits::is_finite(before.momentum) && 0 <= rounding::value(before.momentum) <= rounding::unit(),
        float_bits::equal_values(plain_before.momentum, fpu::ZERO),
        plain_before.lr == before.lr,
        plain.w == o.w,
        plain.g == o.m2,
        float_bits::is_finite(o.m2),
        float_bits::is_finite(before.lr) && 0 <= rounding::value(before.lr) <= rounding::unit(),
        float_bits::is_finite(o.w) && float_bits::is_finite(o.g) && float_bits::is_finite(o.m),
        float_bits::is_finite(other.g) && float_bits::is_finite(other.m),
    ensures
        rounding::value(o.m) == 0 ==> rounding::value(o.m2) == rounding::value(o.g),
        rounding::value(o.m) <= rounding::value(other.m) && rounding::value(o.g) <= rounding::value(other.g)
            ==> rounding::value(o.m2) <= rounding::value(other.m2),
        rounding::value(before.momentum) == rounding::unit() ==> rounding::value(o.m2) == rd(
            rounding::value(o.m) + rounding::value(o.g),
            1,
        ),
        rounding::value(o.w2) == rounding::value(plain.w2),
{
    let u = rounding::unit();
    rounding::lemma_constants();
    lemma_sgd_element(f, before, g0, after, g1, k, i, o);
    lemma_sgd_element(f, other_before, h0, other_after, h1, l, j, other);
    lemma_sgd_element(f, plain_before, p0, plain_after, p1, n, q, plain);
    let mu = before.momentum;
    let a = choose|p: u32| fpu::muls(f, mu, o.m, p) && #[trigger] fpu::adds(f, p, o.g, o.m2);
    let b = choose|p: u32| fpu::muls(f, mu, other.m, p) && #[trigger] fpu::adds(f, p, other.g, other.m2);
    lemma_share(f, rd, mu, o.m, a);
    lemma_share(f, rd, mu, other.m, b);
    rounding::lemma_rounds_to_side(rd, rounding::value(o.g), 1, o.g);
    if rounding::value(o.m) <= rounding::value(other.m) && rounding::value(o.g) <= rounding::value(other.g) {
        lemma_products_in_order(rd, rounding::value(mu), rounding::value(o.m), rounding::value(other.m));
        rounding::lemma_rounds_in_order(
            rd,
            rounding::value(a) + rounding::value(o.g),
            1,
            rounding::value(b) + rounding::value(other.g),
            1,
        );
    }
    if rounding::value(mu) == u {
        let x = rounding::value(o.m);
        assert(u * x == x * u) by (nonlinear_arith);
        rounding::lemma_rounds_to_side(rd, u * x, u, o.m);
    }
    let s = lemma_descends(f, rd, o.w, o.m2, before.lr, o.w2);
    let t = lemma_descends(f, rd, plain.w, plain.g, plain_before.lr, plain.w2);
}

/// The numbers on the way of a step of Adam.
pub struct AdamNumbers {
    pub powers: (u32, u32),
    pub corrections: (u32, u32),
    pub kept: (u32, u32),
    pub rests: (u32, u32),
    pub taken: (u32, u32),
    pub square: u32,
    pub means: (u32, u32),
    pub root: u32,
    pub raised: u32,
    pub direction: u32,
    pub change: u32,
}

/// A step of Adam, in numbers: each moment is its rate of itself and the rest of the gradient,
/// or of its square; both are divided by what the rates leave of one after as many steps; the
/// first is divided by the root of the second, with a little added; and the parameter moves
/// against that by the rate of learning. Each operation rounds.
#[verifier::rlimit(40)]
pub proof fn law_step_of_adam<F: Fpu>(
    f: &F,
    rd: spec_fn(int, int) -> int,
    before: Adam,
    g0: Seq<Node>,
    after: Adam,
    g1: Seq<Node>,
    k: int,
    i: int,
    o: Moved,
) -> (r: AdamNumbers)
    requires
        rounding::rounds_by(f, rd),
        adam_observed(f, before, g0, after, g1, k, i, o),
    ensures
        before.step_count < usize::MAX ==> after.step_count == before.step_count + 1,
        fpu::powis(f, before.betas.0, after.step_count as i32, r.powers.0),
        fpu::powis(f, before.betas.1, after.step_count as i32, r.powers.1),
        rounding::is_difference(rd, fpu::ONE, r.powers.0, r.corrections.0),
        rounding::is_difference(rd, fpu::ONE, r.powers.1, r.corrections.1),
        rounding::is_product(rd, before.betas.0, o.m, r.kept.0),
        rounding::is_difference(rd, fpu::ONE, before.betas.0, r.rests.0),
        rounding::is_product(rd, r.rests.0, o.g, r.taken.0),
        rounding::is_sum(rd, r.kept.0, r.taken.0, o.m2),
        rounding::is_product(rd, before.betas.1, o.v, r.kept.1),
        rounding::is_difference(rd, fpu::ONE, before.betas.1, r.rests.1),
        rounding::is_product(rd, r.rests.1, o.g, r.square),
        rounding::is_product(rd, r.square, o.g, r.taken.1),
        rounding::is_sum(rd, r.kept.1, r.taken.1, o.v2),
        rounding::is_quotient(rd, o.m2, r.corrections.0, r.means.0),
        rounding::is_quotient(rd, o.v2, r.corrections.1, r.means.1),
        float_bits::is_finite(r.means.1) && rounding::value(r.means.1) >= 0 ==> rounding::is_root(r.means.1, r.root),
        rounding::is_sum(rd, r.root, before.eps, r.raised),
        rounding::is_quotient(rd, r.means.0, r.raised, r.direction),
        rounding::is_product(rd, before.lr, r.direction, r.change),
        rounding::is_difference(rd, o.w, r.change, o.w2),
{
    rounding::lemma_constants();
    let count = after.step_count as i32;
    let (c1, c2) = lemma_adam_element(f, before, g0, after, g1, k, i, o);
    let (b1, b2) = before.betas;
    let p1 = choose|p: u32| fpu::powis(f, b1, count, p) && #[trigger] fpu::subs(f, fpu::ONE, p, c1);
    let p2 = choose|p: u32| fpu::powis(f, b2, count, p) && #[trigger] fpu::subs(f, fpu::ONE, p, c2);
    let (a1, r1, t1) = choose|a: u32, c: u32, b: u32|
        #[trigger] fpu::muls(f, b1, o.m, a) && #[trigger] fpu::subs(f, fpu::ONE, b1, c) && fpu::muls(f, c, o.g, b)
            && #[trigger] fpu::adds(f, a, b, o.m2);
    let (a2, r2, s2, t2) = choose|a: u32, c: u32, b: u32, d: u32|
        #[trigger] fpu::muls(f, b2, o.v, a) && #[trigger] fpu::subs(f, fpu::ONE, b2, c) && #[trigger] fpu::muls(f, c, o.g, b)
            && fpu::muls(f, b, o.g, d) && #[trigger] fpu::adds(f, a, d, o.v2);
    let d = choose|d: u32|
        optim::adam_direction(f, o.m2, o.v2, c1, c2, before.eps, d) && #[trigger] optim::descends(f, o.w, d, before.lr, o.w2);
    let (mh, vh, root, raised) = choose|mh: u32, vh: u32, s: u32, e: u32|
        #[trigger] fpu::divs(f, o.m2, c1, mh) && #[trigger] fpu::divs(f, o.v2, c2, vh) && fpu::sqrts(f, vh, s) && #[trigger]
            fpu::adds(f, s, before.eps, e) && fpu::divs(f, mh, e, d);
    let change = choose|p: u32| fpu::muls(f, before.lr, d, p) && #[trigger] fpu::subs(f, o.w, p, o.w2);
    AdamNumbers {
        powers: (p1, p2),
        corrections: (c1, c2),
        kept: (a1, a2),
        rests: (r1, r2),
        taken: (t1, t2),
        square: s2,
        means: (mh, vh),
        root,
        raised,
        direction: d,
        change,
    }
}

} // verus!
