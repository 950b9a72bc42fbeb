use crate::float_bits;
use crate::float_bits::is_above;
use crate::fpu;
use crate::fpu::Fpu;
use crate::ops::matvec;
use crate::ops::matvec::SumTree;
use vstd::prelude::*;

verus! {

/// The greater of two values; the other one where one is not a number.
pub open spec fn larger(a: u32, b: u32) -> u32 {
    if float_bits::is_nan(a) || float_bits::above(b, a) {
        b
    } else {
        a
    }
}

/// The greatest value in a list, from negative infinity on.
pub open spec fn row_max(xs: Seq<u32>) -> u32
    decreases xs.len(),
{
    if xs.len() == 0 {
        fpu::NEG_INFINITY
    } else {
        larger(row_max(xs.drop_last()), xs.last())
    }
}

/// The greatest value in a list.
pub fn max_of(xs: &[u32]) -> (m: u32)
    ensures
        m == row_max(xs@),
{
    let mut m: u32 = fpu::NEG_INFINITY;
    for i in 0..xs.len()
        invariant
            m == row_max(xs@.take(i as int)),
    {
        let x: u32 = xs[i];
        assert(xs@.take(i + 1).drop_last() =~= xs@.take(i as int));
        if m % 0x8000_0000 > 0x7f80_0000 || is_above(x, m) {
            m = x;
        }
    }
    assert(xs@.take(xs@.len() as int) =~= xs@);
    m
}

/// `r` is `start` with the elements added to it from left to right.
pub open spec fn left_sum<F: Fpu>(f: &F, start: u32, xs: Seq<u32>, r: u32) -> bool
    decreases xs.len(),
{
    if xs.len() == 0 {
        r == start
    } else {
        exists|m: u32| left_sum(f, start, xs.drop_last(), m) && #[trigger] fpu::adds(f, m, xs.last(), r)
    }
}

/// `exp(x - m)`.
pub open spec fn shifted_exp<F: Fpu>(f: &F, x: u32, m: u32, e: u32) -> bool {
    exists|d: u32| fpu::subs(f, x, m, d) && #[trigger] fpu::exps(f, d, e)
}

/// `es` are the exponentials of the elements, shifted by the greatest, and `total` is
/// their sum.
pub open spec fn exponentials<F: Fpu>(f: &F, xs: Seq<u32>, es: Seq<u32>, total: u32) -> bool {
    &&& es.len() == xs.len()
    &&& forall|i: int| 0 <= i < xs.len() ==> shifted_exp(f, xs[i], row_max(xs), #[trigger] es[i])
    &&& left_sum(f, fpu::ZERO, es, total)
}

/// `ys` are the exponentials of the elements, divided by their sum.
pub open spec fn is_softmax<F: Fpu>(f: &F, xs: Seq<u32>, ys: Seq<u32>) -> bool {
    &&& ys.len() == xs.len()
    &&& exists|es: Seq<u32>, total: u32, inv: u32|
        #[trigger] exponentials(f, xs, es, total) && #[trigger] fpu::divs(f, fpu::ONE, total, inv) && scaled_by(f, es, inv, ys)
}

/// Each element times a factor.
pub open spec fn scaled_by<F: Fpu>(f: &F, es: Seq<u32>, factor: u32, ys: Seq<u32>) -> bool {
    &&& ys.len() == es.len()
    &&& forall|i: int| 0 <= i < es.len() ==> fpu::muls(f, es[i], factor, #[trigger] ys[i])
}

/// The exponentials of a row, shifted by its greatest element, and their sum.
pub fn exponentiate<F: Fpu>(xs: &[u32], f: &F) -> (r: (Vec<u32>, u32))
    ensures
        exponentials(f, xs@, r.0@, r.1),
{
    let m: u32 = max_of(xs);
    let mut es: Vec<u32> = Vec::with_capacity(xs.len());
    let mut total: u32 = fpu::ZERO;
    for i in 0..xs.len()
        invariant
            m == row_max(xs@),
            es@.len() == i,
            forall|j: int| 0 <= j < i ==> shifted_exp(f, xs@[j], m, #[trigger] es@[j]),
            left_sum(f, fpu::ZERO, es@, total),
    {
        let d: u32 = f.sub(xs[i], m);
        let e: u32 = f.exp(d);
        assert(shifted_exp(f, xs@[i as int], m, e)) by {
            assert(fpu::subs(f, xs@[i as int], m, d) && fpu::exps(f, d, e));
        }
        let next: u32 = f.add(total, e);
        let ghost before = es@;
        es.push(e);
        proof {
            assert(es@.drop_last() =~= before);
            assert(fpu::adds(f, total, es@.last(), next));
        }
        total = next;
    }
    (es, total)
}

/// The exponentials of a row, divided by their sum.
pub fn softmax_row<F: Fpu>(xs: &[u32], f: &F) -> (ys: Vec<u32>)
    ensures
        is_softmax(f, xs@, ys@),
{
    let (es, total) = exponentiate(xs, f);
    let inv: u32 = f.div(fpu::ONE, total);
    let mut ys: Vec<u32> = Vec::with_capacity(es.len());
    for i in 0..es.len()
        invariant
            ys@.len() == i,
            forall|j: int| 0 <= j < i ==> fpu::muls(f, es@[j], inv, #[trigger] ys@[j]),
    {
        ys.push(f.mul(es[i], inv));
    }
    assert(fpu::divs(f, fpu::ONE, total, inv) && scaled_by(f, es@, inv, ys@));
    ys
}

/// `r` is the sum of terms, in the order that a tree gives.
pub open spec fn tree_sum<F: Fpu>(f: &F, terms: Seq<u32>, t: SumTree, r: u32) -> bool
    decreases t,
{
    match t {
        SumTree::Zero => r == fpu::ZERO,
        SumTree::Product(k) => r == terms[k],
        SumTree::Plus(a, b) => exists|u: u32, v: u32|
            #[trigger] fpu::adds(f, u, v, r) && tree_sum(f, terms, *a, u) && tree_sum(f, terms, *b, v),
    }
}

/// `r` is the sum of all terms, each taken once, in some order.
pub open spec fn sum_in_some_order<F: Fpu>(f: &F, terms: Seq<u32>, r: u32) -> bool {
    exists|t: SumTree| matvec::covers(t, terms.len() as int) && #[trigger] tree_sum(f, terms, t, r)
}

/// A sum from left to right, starting with zero, takes each term once.
pub proof fn lemma_left_sum_in_some_order<F: Fpu>(f: &F, terms: Seq<u32>, r: u32) -> (t: SumTree)
    requires
        left_sum(f, fpu::ZERO, terms, r),
    ensures
        matvec::covers(t, terms.len() as int),
        tree_sum(f, terms, t, r),
    decreases terms.len(),
{
    if terms.len() == 0 {
        let t = SumTree::Zero;
        assert forall|k: int| #[trigger] matvec::occurrences(t, k) == (if 0 <= k < 0 { 1nat } else { 0nat }) by {}
        t
    } else {
        let m = choose|m: u32| left_sum(f, fpu::ZERO, terms.drop_last(), m) && #[trigger] fpu::adds(f, m, terms.last(), r);
        let a = lemma_left_sum_in_some_order(f, terms.drop_last(), m);
        let n = terms.len() - 1;
        let t = matvec::plus(a, SumTree::Product(n));
        matvec::lemma_covers_next(a, n);
        lemma_tree_prefix(f, terms, a, m);
        assert(fpu::adds(f, m, terms.last(), r) && tree_sum(f, terms, a, m) && tree_sum(
            f,
            terms,
            SumTree::Product(n),
            terms.last(),
        ));
        t
    }
}

/// Terms behind those that a tree uses do not matter.
proof fn lemma_tree_prefix<F: Fpu>(f: &F, terms: Seq<u32>, t: SumTree, r: u32)
    requires
        terms.len() > 0,
        tree_sum(f, terms.drop_last(), t, r),
        forall|k: int| #[trigger] matvec::occurrences(t, k) > 0 ==> 0 <= k < terms.len() - 1,
    ensures
        tree_sum(f, terms, t, r),
    decreases t,
{
    match t {
        SumTree::Zero => {},
        SumTree::Product(k) => {
            assert(matvec::occurrences(t, k) > 0);
        },
        SumTree::Plus(a, b) => {
            let (u, v) = choose|u: u32, v: u32|
                #[trigger] fpu::adds(f, u, v, r) && tree_sum(f, terms.drop_last(), *a, u) && tree_sum(
                    f,
                    terms.drop_last(),
                    *b,
                    v,
                );
            assert forall|k: int| #[trigger] matvec::occurrences(*a, k) > 0 implies 0 <= k < terms.len() - 1 by {
                assert(matvec::occurrences(t, k) > 0);
            }
            assert forall|k: int| #[trigger] matvec::occurrences(*b, k) > 0 implies 0 <= k < terms.len() - 1 by {
                assert(matvec::occurrences(t, k) > 0);
            }
            lemma_tree_prefix(f, terms, *a, u);
            lemma_tree_prefix(f, terms, *b, v);
            assert(fpu::adds(f, u, v, r));
        },
    }
}

} // verus!
