use vstd::prelude::*;

verus! {

/// Single-precision arithmetic on bit patterns.
///
/// The library moves, compares and converts the patterns itself. Rounding
/// arithmetic is the processor's, and the program hands it in, with draws at random.
/// Nothing is promised of the results: what the library states of a computed element is
/// that it is a possible result of these operations, applied in a given order to given
/// operands.
pub trait Fpu {
    fn add(&self, a: u32, b: u32) -> u32;

    fn sub(&self, a: u32, b: u32) -> u32;

    fn mul(&self, a: u32, b: u32) -> u32;

    fn div(&self, a: u32, b: u32) -> u32;

    fn sqrt(&self, a: u32) -> u32;

    fn exp(&self, a: u32) -> u32;

    fn ln(&self, a: u32) -> u32;

    fn tanh(&self, a: u32) -> u32;

    fn cos(&self, a: u32) -> u32;

    fn sin(&self, a: u32) -> u32;

    /// The first operand to the power of the second.
    fn powf(&self, a: u32, b: u32) -> u32;

    /// The first operand to a whole power.
    fn powi(&self, a: u32, n: i32) -> u32;

    /// The value nearest to a number that is written out, if it is one.
    fn parse(&self, text: &String) -> Option<u32>;

    /// The nearest value to a count.
    fn from_count(&self, n: usize) -> u32;

    /// The value of a signed byte.
    fn from_byte(&self, q: i8) -> u32;

    /// The signed byte nearest to a value, within the bounds of the type.
    fn to_byte(&self, a: u32) -> i8;

    /// The step by which a list of values is stored as signed bytes.
    fn byte_step(&self, xs: &[u32]) -> u32;

    /// Sum of the elements, in an order of the processor's choosing.
    fn sum(&self, xs: &[u32]) -> u32;

    /// Sum of the products of corresponding elements, in an order of the
    /// processor's choosing.
    fn dot(&self, xs: &[u32], ys: &[u32]) -> u32;

    /// Sum of the products of corresponding elements, as the processor's vector
    /// unit computes it for bytes.
    fn dot_bytes(&self, xs: &[u32], qs: &[i8]) -> u32;

    /// A draw at random that is false for a share `p` of all draws.
    fn keeps(&self, p: u32) -> bool;
}

pub open spec fn adds<F: Fpu>(f: &F, a: u32, b: u32, r: u32) -> bool {
    call_ensures(F::add, (f, a, b), r)
}

pub open spec fn subs<F: Fpu>(f: &F, a: u32, b: u32, r: u32) -> bool {
    call_ensures(F::sub, (f, a, b), r)
}

pub open spec fn muls<F: Fpu>(f: &F, a: u32, b: u32, r: u32) -> bool {
    call_ensures(F::mul, (f, a, b), r)
}

pub open spec fn divs<F: Fpu>(f: &F, a: u32, b: u32, r: u32) -> bool {
    call_ensures(F::div, (f, a, b), r)
}

pub open spec fn sqrts<F: Fpu>(f: &F, a: u32, r: u32) -> bool {
    call_ensures(F::sqrt, (f, a), r)
}

pub open spec fn exps<F: Fpu>(f: &F, a: u32, r: u32) -> bool {
    call_ensures(F::exp, (f, a), r)
}

pub open spec fn lns<F: Fpu>(f: &F, a: u32, r: u32) -> bool {
    call_ensures(F::ln, (f, a), r)
}

pub open spec fn tanhs<F: Fpu>(f: &F, a: u32, r: u32) -> bool {
    call_ensures(F::tanh, (f, a), r)
}

pub open spec fn coss<F: Fpu>(f: &F, a: u32, r: u32) -> bool {
    call_ensures(F::cos, (f, a), r)
}

pub open spec fn sins<F: Fpu>(f: &F, a: u32, r: u32) -> bool {
    call_ensures(F::sin, (f, a), r)
}

pub open spec fn powis<F: Fpu>(f: &F, a: u32, n: i32, r: u32) -> bool {
    call_ensures(F::powi, (f, a, n), r)
}

pub open spec fn powfs<F: Fpu>(f: &F, a: u32, b: u32, r: u32) -> bool {
    call_ensures(F::powf, (f, a, b), r)
}

pub open spec fn parses<F: Fpu>(f: &F, text: &String, r: Option<u32>) -> bool {
    call_ensures(F::parse, (f, text), r)
}

pub open spec fn draws<F: Fpu>(f: &F, p: u32, kept: bool) -> bool {
    call_ensures(F::keeps, (f, p), kept)
}

pub open spec fn counts<F: Fpu>(f: &F, n: usize, r: u32) -> bool {
    call_ensures(F::from_count, (f, n), r)
}

pub open spec fn bytes_as<F: Fpu>(f: &F, q: i8, r: u32) -> bool {
    call_ensures(F::from_byte, (f, q), r)
}

pub open spec fn rounds_to<F: Fpu>(f: &F, a: u32, q: i8) -> bool {
    call_ensures(F::to_byte, (f, a), q)
}

pub open spec fn steps_by<F: Fpu>(f: &F, xs: Seq<u32>, r: u32) -> bool {
    exists|s: &[u32]| s@ == xs && #[trigger] call_ensures(F::byte_step, (f, s), r)
}

pub open spec fn sums<F: Fpu>(f: &F, xs: Seq<u32>, r: u32) -> bool {
    exists|s: &[u32]| s@ == xs && #[trigger] call_ensures(F::sum, (f, s), r)
}

pub open spec fn dots<F: Fpu>(f: &F, xs: Seq<u32>, ys: Seq<u32>, r: u32) -> bool {
    exists|s: &[u32], t: &[u32]| s@ == xs && t@ == ys && #[trigger] call_ensures(F::dot, (f, s, t), r)
}

pub open spec fn dots_bytes<F: Fpu>(f: &F, xs: Seq<u32>, qs: Seq<i8>, r: u32) -> bool {
    exists|s: &[u32], t: &[i8]| s@ == xs && t@ == qs && #[trigger] call_ensures(F::dot_bytes, (f, s, t), r)
}

/// The processor answers alike: the same operation on the same operands has one result.
/// Draws at random are no part of this.
pub open spec fn fixed_answers<F: Fpu>(f: &F) -> bool {
    &&& forall|a: u32, b: u32, r: u32, s: u32|
        #![trigger adds(f, a, b, r), adds(f, a, b, s)]
        adds(f, a, b, r) && adds(f, a, b, s) ==> r == s
    &&& forall|a: u32, b: u32, r: u32, s: u32|
        #![trigger subs(f, a, b, r), subs(f, a, b, s)]
        subs(f, a, b, r) && subs(f, a, b, s) ==> r == s
    &&& forall|a: u32, b: u32, r: u32, s: u32|
        #![trigger muls(f, a, b, r), muls(f, a, b, s)]
        muls(f, a, b, r) && muls(f, a, b, s) ==> r == s
    &&& forall|a: u32, b: u32, r: u32, s: u32|
        #![trigger divs(f, a, b, r), divs(f, a, b, s)]
        divs(f, a, b, r) && divs(f, a, b, s) ==> r == s
    &&& forall|a: u32, r: u32, s: u32|
        #![trigger sqrts(f, a, r), sqrts(f, a, s)]
        sqrts(f, a, r) && sqrts(f, a, s) ==> r == s
    &&& forall|a: u32, r: u32, s: u32|
        #![trigger exps(f, a, r), exps(f, a, s)]
        exps(f, a, r) && exps(f, a, s) ==> r == s
    &&& forall|n: usize, r: u32, s: u32|
        #![trigger counts(f, n, r), counts(f, n, s)]
        counts(f, n, r) && counts(f, n, s) ==> r == s
    &&& forall|q: i8, r: u32, s: u32|
        #![trigger bytes_as(f, q, r), bytes_as(f, q, s)]
        bytes_as(f, q, r) && bytes_as(f, q, s) ==> r == s
    &&& forall|xs: Seq<u32>, ys: Seq<u32>, r: u32, s: u32|
        #![trigger dots(f, xs, ys, r), dots(f, xs, ys, s)]
        dots(f, xs, ys, r) && dots(f, xs, ys, s) ==> r == s
    &&& forall|xs: Seq<u32>, qs: Seq<i8>, r: u32, s: u32|
        #![trigger dots_bytes(f, xs, qs, r), dots_bytes(f, xs, qs, s)]
        dots_bytes(f, xs, qs, r) && dots_bytes(f, xs, qs, s) ==> r == s
}

/// The patterns of the constants that the formulas use.
pub const ZERO: u32 = 0;

pub const ONE: u32 = 0x3f80_0000;

pub const NEG_INFINITY: u32 = 0xff80_0000;

/// The pattern with its sign turned: negation rounds nothing.
pub open spec fn negated(a: u32) -> int {
    if a < 0x8000_0000 {
        a + 0x8000_0000
    } else {
        a - 0x8000_0000
    }
}

/// The value with its sign turned.
pub fn negate(a: u32) -> (r: u32)
    ensures
        r == negated(a),
{
    if a < 0x8000_0000 {
        a + 0x8000_0000
    } else {
        a - 0x8000_0000
    }
}

/// `1 / (1 + exp(-x))`.
pub open spec fn is_logistic<F: Fpu>(f: &F, x: u32, r: u32) -> bool {
    exists|e: u32, d: u32|
        exps(f, negated(x) as u32, e) && #[trigger] adds(f, ONE, e, d) && divs(f, ONE, d, r)
}

pub fn logistic<F: Fpu>(f: &F, x: u32) -> (r: u32)
    ensures
        is_logistic(f, x, r),
{
    let e: u32 = f.exp(negate(x));
    let d: u32 = f.add(ONE, e);
    let r: u32 = f.div(ONE, d);
    assert(exps(f, negated(x) as u32, e) && adds(f, ONE, e, d) && divs(f, ONE, d, r));
    r
}

/// `(g * logistic(g)) * u`.
pub open spec fn is_silu_product<F: Fpu>(f: &F, g: u32, u: u32, r: u32) -> bool {
    exists|s: u32, m: u32| is_logistic(f, g, s) && #[trigger] muls(f, g, s, m) && muls(f, m, u, r)
}

pub fn silu_product<F: Fpu>(f: &F, g: u32, u: u32) -> (r: u32)
    ensures
        is_silu_product(f, g, u, r),
{
    let s: u32 = logistic(f, g);
    let m: u32 = f.mul(g, s);
    let r: u32 = f.mul(m, u);
    assert(is_logistic(f, g, s) && muls(f, g, s, m) && muls(f, m, u, r));
    r
}

} // verus!
