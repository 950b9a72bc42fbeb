use crate::array::NdArray;
use crate::fpu;
use crate::fpu::Fpu;
use crate::ops::int8_kernels;
use crate::ops::matmul;
use crate::ops::matvec;
use crate::ops::matvec::SumTree;
use crate::ops::rows;
use crate::rounding;
use vstd::prelude::*;

verus! {

/// `r` is a sum of products of corresponding elements, in the order that a tree gives; each
/// operation rounds.
pub open spec fn adds_up(rd: spec_fn(int, int) -> int, x: Seq<u32>, row: Seq<u32>, t: SumTree, r: u32) -> bool
    decreases t,
{
    match t {
        SumTree::Zero => rounding::value(r) == 0,
        SumTree::Product(k) => rounding::is_product(rd, row[k], x[k], r),
        SumTree::Plus(a, b) => exists|u: u32, v: u32| #[trigger]
            rounding::is_sum(rd, u, v, r) && adds_up(rd, x, row, *a, u) && adds_up(rd, x, row, *b, v),
    }
}

/// `r` is the sum of the products of all corresponding elements, each taken once.
pub open spec fn is_total(rd: spec_fn(int, int) -> int, x: Seq<u32>, row: Seq<u32>, r: u32) -> bool {
    exists|t: SumTree| matvec::covers(t, x.len() as int) && #[trigger] adds_up(rd, x, row, t, r)
}

proof fn lemma_adds_up<F: Fpu>(f: &F, rd: spec_fn(int, int) -> int, x: Seq<u32>, row: Seq<u32>, t: SumTree, r: u32)
    requires
        rounding::rounds_by(f, rd),
        matvec::evaluates(f, x, row, t, r),
    ensures
        adds_up(rd, x, row, t, r),
    decreases t,
{
    rounding::lemma_constants();
    if let SumTree::Plus(a, b) = t {
        let (u, v) = choose|u: u32, v: u32| #[trigger]
            fpu::adds(f, u, v, r) && matvec::evaluates(f, x, row, *a, u) && matvec::evaluates(f, x, row, *b, v);
        lemma_adds_up(f, rd, x, row, *a, u);
        lemma_adds_up(f, rd, x, row, *b, v);
        assert(rounding::is_sum(rd, u, v, r));
    }
}

/// A product of two rows is the sum of the products of their elements, each taken once,
/// whichever of the ways of summing is used.
pub proof fn law_rows_multiply_in_numbers<F: Fpu>(
    f: &F,
    rd: spec_fn(int, int) -> int,
    n_rows: int,
    x: Seq<u32>,
    row: Seq<u32>,
    r: u32,
)
    requires
        rounding::rounds_by(f, rd),
        matvec::row_sum(f, n_rows, x, row, r) || matvec::unrolled_sum(f, x, row, r) || matvec::straight_sum(f, x, row, r),
    ensures
        is_total(rd, x, row, r),
{
    let n = x.len() as int;
    matvec::law_each_product_counts_once(n_rows, n);
    let line = matvec::tailed(SumTree::Zero, 0, n);
    assert forall|k: int| #[trigger] matvec::occurrences(line, k) == (if 0 <= k < n {
        1nat
    } else {
        0nat
    }) by {
        matvec::lemma_tail_occurrences(SumTree::Zero, 0, n, k);
    }
    if matvec::row_sum(f, n_rows, x, row, r) {
        lemma_adds_up(f, rd, x, row, matvec::row_tree(n_rows, n), r);
    } else if matvec::unrolled_sum(f, x, row, r) {
        lemma_adds_up(f, rd, x, row, matvec::unrolled_tree(n), r);
    } else {
        lemma_adds_up(f, rd, x, row, line, r);
    }
}

/// The product of a single row with a matrix: element `j` is the sum of the products of the
/// elements of the row with those of row `j` of the matrix.
pub proof fn law_single_row_multiplies<F: Fpu>(
    f: &F,
    rd: spec_fn(int, int) -> int,
    a: NdArray<u32>,
    b: NdArray<u32>,
    r: NdArray<u32>,
    j: int,
)
    requires
        rounding::rounds_by(f, rd),
        matmul::multiplied(f, a, b, r),
        0 < b.shape@[1],
        a.data@.len() == b.shape@[1],
        0 <= j < b.shape@[0],
    ensures
        is_total(rd, a.data@, matmul::flat_row(b.data@, j, b.shape@[1] as int), r.data@[j]),
{
    let k = b.shape@[1] as int;
    let n = b.shape@[0] as int;
    assert(k / k == 1) by (nonlinear_arith)
        requires
            k > 0,
    ;
    let z: int = 0;
    assert(0 <= z < 1 && 0 <= j < n);
    assert(z * n + j == j && z * k == 0) by (nonlinear_arith)
        requires
            z == 0,
    ;
    assert(matmul::row_product(f, 1, n, matmul::flat_row(a.data@, z, k), matmul::flat_row(b.data@, j, k), r.data@[z * n + j]));
    assert(matmul::flat_row(a.data@, z, k) =~= a.data@);
    law_rows_multiply_in_numbers(f, rd, n, a.data@, matmul::flat_row(b.data@, j, k), r.data@[j]);
}

/// `r` is a sum of terms in the order that a tree gives; each addition rounds.
pub open spec fn terms_add_up(rd: spec_fn(int, int) -> int, terms: Seq<u32>, t: SumTree, r: u32) -> bool
    decreases t,
{
    match t {
        SumTree::Zero => rounding::value(r) == 0,
        SumTree::Product(k) => r == terms[k],
        SumTree::Plus(a, b) => exists|u: u32, v: u32| #[trigger]
            rounding::is_sum(rd, u, v, r) && terms_add_up(rd, terms, *a, u) && terms_add_up(rd, terms, *b, v),
    }
}

/// `r` is the sum of all terms, each taken once.
pub open spec fn is_sum_of(rd: spec_fn(int, int) -> int, terms: Seq<u32>, r: u32) -> bool {
    exists|t: SumTree| matvec::covers(t, terms.len() as int) && #[trigger] terms_add_up(rd, terms, t, r)
}

proof fn lemma_terms_add_up<F: Fpu>(f: &F, rd: spec_fn(int, int) -> int, terms: Seq<u32>, t: SumTree, r: u32)
    requires
        rounding::rounds_by(f, rd),
        rows::tree_sum(f, terms, t, r),
    ensures
        terms_add_up(rd, terms, t, r),
    decreases t,
{
    rounding::lemma_constants();
    if let SumTree::Plus(a, b) = t {
        let (u, v) = choose|u: u32, v: u32| #[trigger]
            fpu::adds(f, u, v, r) && rows::tree_sum(f, terms, *a, u) && rows::tree_sum(f, terms, *b, v);
        lemma_terms_add_up(f, rd, terms, *a, u);
        lemma_terms_add_up(f, rd, terms, *b, v);
        assert(rounding::is_sum(rd, u, v, r));
    }
}

/// A sum in some order takes each term once.
pub proof fn lemma_sum_of<F: Fpu>(f: &F, rd: spec_fn(int, int) -> int, terms: Seq<u32>, r: u32)
    requires
        rounding::rounds_by(f, rd),
        rows::sum_in_some_order(f, terms, r),
    ensures
        is_sum_of(rd, terms, r),
{
    let t = choose|t: SumTree| matvec::covers(t, terms.len() as int) && #[trigger] rows::tree_sum(f, terms, t, r);
    lemma_terms_add_up(f, rd, terms, t, r);
}

/// The product of a row with a row of bytes is the processor's sum for the bytes, times what
/// one step of the bytes stands for.
pub proof fn law_bytes_multiply_in_steps<F: Fpu>(
    f: &F,
    rd: spec_fn(int, int) -> int,
    x: Seq<u32>,
    row: Seq<i8>,
    step: u32,
    r: u32,
) -> (s: u32)
    requires
        rounding::rounds_by(f, rd),
        int8_kernels::scaled_dot(f, x, row, step, r),
    ensures
        fpu::dots_bytes(f, x, row, s),
        rounding::is_product(rd, s, step, r),
{
    choose|s: u32| fpu::dots_bytes(f, x, row, s) && #[trigger] fpu::muls(f, s, step, r)
}

} // verus!
