use crate::float_bits;
use crate::float_bits::is_above;
use crate::fpu;
use crate::fpu::{silu_product, Fpu};
use crate::ops::mat;
use vstd::prelude::*;

verus! {

/// From this many rows on, rows are summed in blocks.
pub const MATVEC_BLOCK_THRESHOLD: usize = 16384;

/// An order in which products of corresponding elements are summed up.
pub enum SumTree {
    Zero,
    Product(int),
    Plus(Box<SumTree>, Box<SumTree>),
}

/// How often the product at position `k` occurs in the sum.
pub open spec fn occurrences(t: SumTree, k: int) -> nat
    decreases t,
{
    match t {
        SumTree::Zero => 0,
        SumTree::Product(j) => if j == k {
            1
        } else {
            0
        },
        SumTree::Plus(a, b) => occurrences(*a, k) + occurrences(*b, k),
    }
}

/// `r` is a value of the sum.
pub open spec fn evaluates<F: Fpu>(f: &F, x: Seq<u32>, row: Seq<u32>, t: SumTree, r: u32) -> bool
    decreases t,
{
    match t {
        SumTree::Zero => r == fpu::ZERO,
        SumTree::Product(k) => fpu::muls(f, row[k], x[k], r),
        SumTree::Plus(a, b) => exists|u: u32, v: u32|
            #[trigger] fpu::adds(f, u, v, r) && evaluates(f, x, row, *a, u) && evaluates(f, x, row, *b, v),
    }
}

/// The sum takes each of the first `n` products once, and no other.
pub open spec fn covers(t: SumTree, n: int) -> bool {
    forall|k: int| #[trigger] occurrences(t, k) == (if 0 <= k < n { 1nat } else { 0nat })
}

pub open spec fn plus(a: SumTree, b: SumTree) -> SumTree {
    SumTree::Plus(Box::new(a), Box::new(b))
}

/// The product at a position, and the tree that it is.
fn product_at<F: Fpu>(f: &F, x: &[u32], row: &[u32], k: usize) -> (r: u32)
    requires
        k < x@.len(),
        x@.len() == row@.len(),
    ensures
        evaluates(f, x@, row@, SumTree::Product(k as int), r),
{
    f.mul(row[k], x[k])
}

/// The sum of two values of sums.
fn plus_values<F: Fpu>(f: &F, x: &[u32], row: &[u32], Ghost(a): Ghost<SumTree>, u: u32, Ghost(b): Ghost<SumTree>, v: u32) -> (r: u32)
    requires
        evaluates(f, x@, row@, a, u),
        evaluates(f, x@, row@, b, v),
    ensures
        evaluates(f, x@, row@, plus(a, b), r),
{
    let r: u32 = f.add(u, v);
    assert(fpu::adds(f, u, v, r));
    r
}

/// The partial sum of every fourth product, from place `l` on, in the first `b` groups of
/// eight.
pub open spec fn lane_groups(b: int, l: int) -> SumTree
    decreases b,
{
    if b <= 0 {
        SumTree::Zero
    } else {
        plus(
            lane_groups(b - 1, l),
            plus(SumTree::Product(8 * (b - 1) + l), SumTree::Product(8 * (b - 1) + l + 4)),
        )
    }
}

/// The partial sum of every fourth product of `n`, from place `l` on; those that are left
/// when fewer than four remain are not in it.
pub open spec fn lane(n: int, l: int) -> SumTree {
    if n % 8 >= 4 {
        plus(lane_groups(n / 8, l), SumTree::Product(8 * (n / 8) + l))
    } else {
        lane_groups(n / 8, l)
    }
}

/// The products from `from` to `n`, added to a sum one after the other.
pub open spec fn tailed(t: SumTree, from: int, n: int) -> SumTree
    decreases n - from,
{
    if n <= from {
        t
    } else {
        plus(tailed(t, from, n - 1), SumTree::Product(n - 1))
    }
}

/// The order of a sum of `n` products in four interleaved partial sums.
pub open spec fn unrolled_tree(n: int) -> SumTree {
    tailed(plus(plus(plus(lane(n, 0), lane(n, 1)), lane(n, 2)), lane(n, 3)), n - n % 4, n)
}

/// The sum of `n` products from `from` on, one after the other.
pub open spec fn run(from: int, n: int) -> SumTree
    decreases n,
{
    if n <= 1 {
        SumTree::Product(from)
    } else {
        plus(run(from, n - 1), SumTree::Product(from + n - 1))
    }
}

/// The sum of `b` groups of eight products.
pub open spec fn groups(b: int) -> SumTree
    decreases b,
{
    if b <= 0 {
        SumTree::Zero
    } else {
        plus(groups(b - 1), run(8 * (b - 1), 8))
    }
}

/// The order of a sum of `n` products, eight at a time.
pub open spec fn blocked_tree(n: int) -> SumTree {
    tailed(groups(n / 8), 8 * (n / 8), n)
}

/// The order in which a row is summed up: it depends on the number of rows.
pub open spec fn row_tree(n_rows: int, n: int) -> SumTree {
    if n_rows >= MATVEC_BLOCK_THRESHOLD {
        blocked_tree(n)
    } else {
        unrolled_tree(n)
    }
}

/// `r` is the product of a vector with one of `n_rows` rows.
pub open spec fn row_sum<F: Fpu>(f: &F, n_rows: int, x: Seq<u32>, row: Seq<u32>, r: u32) -> bool {
    evaluates(f, x, row, row_tree(n_rows, x.len() as int), r)
}

/// `r` is the product of two vectors in four interleaved partial sums.
pub open spec fn unrolled_sum<F: Fpu>(f: &F, x: Seq<u32>, row: Seq<u32>, r: u32) -> bool {
    evaluates(f, x, row, unrolled_tree(x.len() as int), r)
}

/// The sum of products, in four interleaved partial sums.
pub fn dot_unrolled<F: Fpu>(x: &[u32], row: &[u32], f: &F) -> (r: u32)
    requires
        x@.len() == row@.len(),
    ensures
        unrolled_sum(f, x@, row@, r),
{
    let k_dim: usize = x.len();
    let mut s0: u32 = fpu::ZERO;
    let mut s1: u32 = fpu::ZERO;
    let mut s2: u32 = fpu::ZERO;
    let mut s3: u32 = fpu::ZERO;
    let ghost mut b: int = 0;
    let mut kk: usize = 0;
    while k_dim - kk >= 8
        invariant
            k_dim == x@.len() == row@.len(),
            kk <= k_dim,
            kk == 8 * b,
            b >= 0,
            evaluates(f, x@, row@, lane_groups(b, 0), s0),
            evaluates(f, x@, row@, lane_groups(b, 1), s1),
            evaluates(f, x@, row@, lane_groups(b, 2), s2),
            evaluates(f, x@, row@, lane_groups(b, 3), s3),
        decreases k_dim - kk,
    {
        s0 = add_pair(f, x, row, Ghost(lane_groups(b, 0)), s0, kk);
        s1 = add_pair(f, x, row, Ghost(lane_groups(b, 1)), s1, kk + 1);
        s2 = add_pair(f, x, row, Ghost(lane_groups(b, 2)), s2, kk + 2);
        s3 = add_pair(f, x, row, Ghost(lane_groups(b, 3)), s3, kk + 3);
        kk = kk + 8;
        proof {
            b = b + 1;
        }
    }
    assert(b == k_dim as int / 8);
    if k_dim - kk >= 4 {
        let a0: u32 = product_at(f, x, row, kk);
        let a1: u32 = product_at(f, x, row, kk + 1);
        let a2: u32 = product_at(f, x, row, kk + 2);
        let a3: u32 = product_at(f, x, row, kk + 3);
        s0 = plus_values(f, x, row, Ghost(lane_groups(b, 0)), s0, Ghost(SumTree::Product(kk as int)), a0);
        s1 = plus_values(f, x, row, Ghost(lane_groups(b, 1)), s1, Ghost(SumTree::Product(kk + 1)), a1);
        s2 = plus_values(f, x, row, Ghost(lane_groups(b, 2)), s2, Ghost(SumTree::Product(kk + 2)), a2);
        s3 = plus_values(f, x, row, Ghost(lane_groups(b, 3)), s3, Ghost(SumTree::Product(kk + 3)), a3);
        kk = kk + 4;
    }
    let ghost n = k_dim as int;
    assert(kk == n - n % 4);
    let u: u32 = plus_values(f, x, row, Ghost(lane(n, 0)), s0, Ghost(lane(n, 1)), s1);
    let v: u32 = plus_values(f, x, row, Ghost(plus(lane(n, 0), lane(n, 1))), u, Ghost(lane(n, 2)), s2);
    let sum: u32 = plus_values(
        f,
        x,
        row,
        Ghost(plus(plus(lane(n, 0), lane(n, 1)), lane(n, 2))),
        v,
        Ghost(lane(n, 3)),
        s3,
    );
    add_tail(f, x, row, Ghost(plus(plus(plus(lane(n, 0), lane(n, 1)), lane(n, 2)), lane(n, 3))), sum, kk)
}

/// Adds the product at a position, and the one four places on, to a sum.
fn add_pair<F: Fpu>(f: &F, x: &[u32], row: &[u32], Ghost(t): Ghost<SumTree>, s: u32, k: usize) -> (r: u32)
    requires
        k + 4 < x@.len(),
        x@.len() == row@.len(),
        evaluates(f, x@, row@, t, s),
    ensures
        evaluates(f, x@, row@, plus(t, plus(SumTree::Product(k as int), SumTree::Product(k + 4))), r),
{
    let len: usize = x.len();
    assert(k + 4 < len);
    let a: u32 = product_at(f, x, row, k);
    let b: u32 = product_at(f, x, row, k + 4);
    let c: u32 = plus_values(f, x, row, Ghost(SumTree::Product(k as int)), a, Ghost(SumTree::Product(k + 4)), b);
    plus_values(f, x, row, Ghost(t), s, Ghost(plus(SumTree::Product(k as int), SumTree::Product(k + 4))), c)
}

/// Adds the products from a position on to a sum, one after the other.
fn add_tail<F: Fpu>(f: &F, x: &[u32], row: &[u32], Ghost(t): Ghost<SumTree>, s: u32, from: usize) -> (r: u32)
    requires
        from <= x@.len(),
        x@.len() == row@.len(),
        evaluates(f, x@, row@, t, s),
    ensures
        evaluates(f, x@, row@, tailed(t, from as int, x@.len() as int), r),
{
    let k_dim: usize = x.len();
    let mut sum: u32 = s;
    let mut kk: usize = from;
    while kk < k_dim
        invariant
            k_dim == x@.len() == row@.len(),
            from <= kk <= k_dim,
            evaluates(f, x@, row@, tailed(t, from as int, kk as int), sum),
        decreases k_dim - kk,
    {
        let p: u32 = product_at(f, x, row, kk);
        sum = plus_values(f, x, row, Ghost(tailed(t, from as int, kk as int)), sum, Ghost(SumTree::Product(kk as int)), p);
        kk = kk + 1;
    }
    sum
}

/// `r` is the sum of products, one after the other, from zero on.
pub open spec fn straight_sum<F: Fpu>(f: &F, x: Seq<u32>, row: Seq<u32>, r: u32) -> bool {
    evaluates(f, x, row, tailed(SumTree::Zero, 0, x.len() as int), r)
}

/// The sum of products, one after the other.
pub fn dot_straight<F: Fpu>(x: &[u32], row: &[u32], f: &F) -> (r: u32)
    requires
        x@.len() == row@.len(),
    ensures
        straight_sum(f, x@, row@, r),
{
    add_tail(f, x, row, Ghost(SumTree::Zero), fpu::ZERO, 0)
}

/// The sum of products, eight at a time.
fn dot_blocked<F: Fpu>(x: &[u32], row: &[u32], f: &F) -> (r: u32)
    requires
        x@.len() == row@.len(),
    ensures
        evaluates(f, x@, row@, blocked_tree(x@.len() as int), r),
{
    let k_dim: usize = x.len();
    let mut acc: u32 = fpu::ZERO;
    let ghost mut b: int = 0;
    let mut kk: usize = 0;
    while k_dim - kk >= 8
        invariant
            k_dim == x@.len() == row@.len(),
            kk <= k_dim,
            kk == 8 * b,
            b >= 0,
            evaluates(f, x@, row@, groups(b), acc),
        decreases k_dim - kk,
    {
        let mut group: u32 = product_at(f, x, row, kk);
        for j in 1..8usize
            invariant
                k_dim == x@.len() == row@.len(),
                kk + 8 <= k_dim,
                evaluates(f, x@, row@, run(kk as int, j as int), group),
        {
            let p: u32 = product_at(f, x, row, kk + j);
            group = plus_values(f, x, row, Ghost(run(kk as int, j as int)), group, Ghost(SumTree::Product(kk + j)), p);
        }
        acc = plus_values(f, x, row, Ghost(groups(b)), acc, Ghost(run(kk as int, 8)), group);
        kk = kk + 8;
        proof {
            b = b + 1;
        }
    }
    assert(b == k_dim as int / 8);
    add_tail(f, x, row, Ghost(groups(b)), acc, kk)
}

/// The product of a vector with one of `n_rows` rows.
fn dot_row<F: Fpu>(n_rows: usize, x: &[u32], row: &[u32], f: &F) -> (r: u32)
    requires
        x@.len() == row@.len(),
    ensures
        row_sum(f, n_rows as int, x@, row@, r),
{
    if n_rows >= MATVEC_BLOCK_THRESHOLD {
        dot_blocked(x, row, f)
    } else {
        dot_unrolled(x, row, f)
    }
}

pub proof fn lemma_covers_next(t: SumTree, n: int)
    requires
        covers(t, n),
        n >= 0,
    ensures
        covers(plus(t, SumTree::Product(n)), n + 1),
{
    reveal_with_fuel(occurrences, 2);
    let next = plus(t, SumTree::Product(n));
    assert forall|k: int| #[trigger] occurrences(next, k) == (if 0 <= k < n + 1 { 1nat } else { 0nat }) by {
        assert(occurrences(t, k) == (if 0 <= k < n { 1nat } else { 0nat }));
    }
}

proof fn lemma_lane_occurrences(b: int, l: int, k: int)
    requires
        b >= 0,
        0 <= l < 4,
    ensures
        occurrences(lane_groups(b, l), k) == (if 0 <= k < 8 * b && k % 4 == l { 1nat } else { 0nat }),
    decreases b,
{
    if b > 0 {
        lemma_lane_occurrences(b - 1, l, k);
        let from = 8 * (b - 1);
        let low = SumTree::Product(from + l);
        let high = SumTree::Product(from + l + 4);
        let pair = plus(low, high);
        assert(occurrences(low, k) == (if k == from + l { 1nat } else { 0nat }));
        assert(occurrences(high, k) == (if k == from + l + 4 { 1nat } else { 0nat }));
        assert(occurrences(pair, k) == occurrences(low, k) + occurrences(high, k));
        assert(occurrences(lane_groups(b, l), k) == occurrences(lane_groups(b - 1, l), k) + occurrences(pair, k));
        if from <= k < from + 4 {
            assert(k % 4 == k - from);
        } else if from + 4 <= k < from + 8 {
            assert(k % 4 == k - from - 4);
        }
    }
}

proof fn lemma_whole_lane(n: int, l: int, k: int)
    requires
        n >= 0,
        0 <= l < 4,
    ensures
        occurrences(lane(n, l), k) == (if 0 <= k < n - n % 4 && k % 4 == l { 1nat } else { 0nat }),
{
    let b = n / 8;
    let r = n % 8;
    assert(n == 8 * b + r);
    lemma_lane_occurrences(b, l, k);
    if r >= 4 {
        let last = SumTree::Product(8 * b + l);
        assert(n % 4 == r - 4);
        assert(occurrences(last, k) == (if k == 8 * b + l { 1nat } else { 0nat }));
        assert(occurrences(lane(n, l), k) == occurrences(lane_groups(b, l), k) + occurrences(last, k));
        if 8 * b <= k < 8 * b + 4 {
            assert(k % 4 == k - 8 * b);
        }
    } else {
        assert(n % 4 == r);
    }
}

pub proof fn lemma_tail_occurrences(t: SumTree, from: int, n: int, k: int)
    requires
        from <= n,
    ensures
        occurrences(tailed(t, from, n), k) == occurrences(t, k) + (if from <= k < n { 1nat } else { 0nat }),
    decreases n - from,
{
    if from < n {
        lemma_tail_occurrences(t, from, n - 1, k);
        reveal_with_fuel(occurrences, 2);
    }
}

proof fn lemma_run_occurrences(from: int, n: int, k: int)
    requires
        n >= 1,
    ensures
        occurrences(run(from, n), k) == (if from <= k < from + n { 1nat } else { 0nat }),
    decreases n,
{
    if n > 1 {
        lemma_run_occurrences(from, n - 1, k);
        reveal_with_fuel(occurrences, 2);
    }
}

proof fn lemma_group_occurrences(b: int, k: int)
    requires
        b >= 0,
    ensures
        occurrences(groups(b), k) == (if 0 <= k < 8 * b { 1nat } else { 0nat }),
    decreases b,
{
    if b > 0 {
        lemma_group_occurrences(b - 1, k);
        lemma_run_occurrences(8 * (b - 1), 8, k);
    }
}

/// However many rows there are, a row is summed up so that each product is taken once.
pub proof fn law_each_product_counts_once(n_rows: int, n: int)
    requires
        n >= 0,
    ensures
        covers(row_tree(n_rows, n), n),
        covers(unrolled_tree(n), n),
{
    let ab = plus(lane(n, 0), lane(n, 1));
    let abc = plus(ab, lane(n, 2));
    let body = plus(abc, lane(n, 3));
    assert forall|k: int| #[trigger] occurrences(unrolled_tree(n), k) == (if 0 <= k < n { 1nat } else { 0nat }) by {
        lemma_tail_occurrences(body, n - n % 4, n, k);
        lemma_whole_lane(n, 0, k);
        lemma_whole_lane(n, 1, k);
        lemma_whole_lane(n, 2, k);
        lemma_whole_lane(n, 3, k);
        assert(occurrences(ab, k) == occurrences(lane(n, 0), k) + occurrences(lane(n, 1), k));
        assert(occurrences(abc, k) == occurrences(ab, k) + occurrences(lane(n, 2), k));
        assert(occurrences(body, k) == occurrences(abc, k) + occurrences(lane(n, 3), k));
    }
    assert forall|k: int| #[trigger] occurrences(blocked_tree(n), k) == (if 0 <= k < n { 1nat } else { 0nat }) by {
        lemma_tail_occurrences(groups(n / 8), 8 * (n / 8), n, k);
        lemma_group_occurrences(n / 8, k);
    }
}

/// Two sums of products with the same left operand.
pub fn dot2_unrolled<F: Fpu>(x: &[u32], row0: &[u32], row1: &[u32], f: &F) -> (r: (u32, u32))
    requires
        x@.len() == row0@.len() == row1@.len(),
    ensures
        unrolled_sum(f, x@, row0@, r.0),
        unrolled_sum(f, x@, row1@, r.1),
{
    (dot_unrolled(x, row0, f), dot_unrolled(x, row1, f))
}

/// Lengths that do not belong together.
#[derive(Clone, Copy, Debug, PartialEq, Eq, Structural)]
pub enum MatvecError {
    InputLength,
    WeightLength,
    SecondWeightLength,
    OutputLength,
    SecondOutputLength,
}

/// Row `i` of a matrix in row-major order.
pub open spec fn row_of(w: Seq<u32>, i: int, k_dim: int) -> Seq<u32> {
    w.subrange(i * k_dim, i * k_dim + k_dim)
}

/// The row of a matrix in row-major order.
fn take_row<'a>(w: &'a [u32], i: usize, n_rows: usize, k_dim: usize) -> (row: &'a [u32])
    requires
        i < n_rows,
        w@.len() == n_rows * k_dim,
    ensures
        row@ == row_of(w@, i as int, k_dim as int),
        row@.len() == k_dim,
{
    let len: usize = w.len();
    proof {
        if k_dim > 0 {
            mat::lemma_row_major(i as int, 0, n_rows as int, k_dim as int);
        } else {
            assert(i * k_dim == 0) by (nonlinear_arith)
                requires
                    k_dim == 0,
            ;
        }
    }
    let start: usize = i * k_dim;
    vstd::slice::slice_subrange(w, start, start + k_dim)
}

/// Whether a list has one element for each row and column.
fn has_extent(len: usize, n_rows: usize, k_dim: usize) -> (r: bool)
    ensures
        r == (len == n_rows * k_dim),
{
    match n_rows.checked_mul(k_dim) {
        Some(n) => len == n,
        None => false,
    }
}

/// What is wrong with the lengths of a matrix-vector product.
pub open spec fn matvec_error(x: int, w: int, n_rows: int, k_dim: int, out: int) -> Option<MatvecError> {
    if x != k_dim {
        Some(MatvecError::InputLength)
    } else if w != n_rows * k_dim {
        Some(MatvecError::WeightLength)
    } else if out != n_rows {
        Some(MatvecError::OutputLength)
    } else {
        None
    }
}

/// The products of a vector with each row of a matrix.
pub fn matvec_rowmajor_parallel<F: Fpu>(
    x: &[u32],
    w_rowmajor: &[u32],
    n_rows: usize,
    k_dim: usize,
    out: &mut Vec<u32>,
    f: &F,
) -> (r: Result<(), MatvecError>)
    ensures
        match matvec_error(x@.len() as int, w_rowmajor@.len() as int, n_rows as int, k_dim as int, old(out)@.len() as int) {
            Some(e) => r == Err::<(), MatvecError>(e) && final(out)@ == old(out)@,
            None => r is Ok && final(out)@.len() == n_rows && forall|i: int|
                0 <= i < n_rows ==> row_sum(f, n_rows as int, x@, row_of(w_rowmajor@, i, k_dim as int), #[trigger] final(out)@[i]),
        },
{
    if x.len() != k_dim {
        return Err(MatvecError::InputLength);
    }
    if !has_extent(w_rowmajor.len(), n_rows, k_dim) {
        return Err(MatvecError::WeightLength);
    }
    if out.len() != n_rows {
        return Err(MatvecError::OutputLength);
    }
    for i in 0..n_rows
        invariant
            x@.len() == k_dim,
            w_rowmajor@.len() == n_rows * k_dim,
            out@.len() == n_rows,
            forall|j: int| 0 <= j < i ==> row_sum(f, n_rows as int, x@, row_of(w_rowmajor@, j, k_dim as int), #[trigger] out@[j]),
    {
        let row = take_row(w_rowmajor, i, n_rows, k_dim);
        let v: u32 = dot_row(n_rows, x, row, f);
        out.set(i, v);
    }
    Ok(())
}

/// What is wrong with the lengths of a product with two matrices.
pub open spec fn dual_matvec_error(
    x: int,
    w0: int,
    w1: int,
    n_rows: int,
    k_dim: int,
    out0: int,
    out1: int,
) -> Option<MatvecError> {
    if x != k_dim {
        Some(MatvecError::InputLength)
    } else if w0 != n_rows * k_dim {
        Some(MatvecError::WeightLength)
    } else if w1 != n_rows * k_dim {
        Some(MatvecError::SecondWeightLength)
    } else if out0 != n_rows {
        Some(MatvecError::OutputLength)
    } else if out1 != n_rows {
        Some(MatvecError::SecondOutputLength)
    } else {
        None
    }
}

/// The products of a vector with each row of two matrices.
pub fn dual_matvec_rowmajor_parallel<F: Fpu>(
    x: &[u32],
    w0_rowmajor: &[u32],
    w1_rowmajor: &[u32],
    n_rows: usize,
    k_dim: usize,
    out0: &mut Vec<u32>,
    out1: &mut Vec<u32>,
    f: &F,
) -> (r: Result<(), MatvecError>)
    ensures
        match dual_matvec_error(
            x@.len() as int,
            w0_rowmajor@.len() as int,
            w1_rowmajor@.len() as int,
            n_rows as int,
            k_dim as int,
            old(out0)@.len() as int,
            old(out1)@.len() as int,
        ) {
            Some(e) => r == Err::<(), MatvecError>(e) && final(out0)@ == old(out0)@ && final(out1)@ == old(out1)@,
            None => r is Ok && final(out0)@.len() == n_rows && final(out1)@.len() == n_rows && (forall|i: int|
                0 <= i < n_rows ==> unrolled_sum(f, x@, row_of(w0_rowmajor@, i, k_dim as int), #[trigger] final(out0)@[i])) && (
            forall|i: int|
                0 <= i < n_rows ==> unrolled_sum(f, x@, row_of(w1_rowmajor@, i, k_dim as int), #[trigger] final(out1)@[i])),
        },
{
    if x.len() != k_dim {
        return Err(MatvecError::InputLength);
    }
    if !has_extent(w0_rowmajor.len(), n_rows, k_dim) {
        return Err(MatvecError::WeightLength);
    }
    if !has_extent(w1_rowmajor.len(), n_rows, k_dim) {
        return Err(MatvecError::SecondWeightLength);
    }
    if out0.len() != n_rows {
        return Err(MatvecError::OutputLength);
    }
    if out1.len() != n_rows {
        return Err(MatvecError::SecondOutputLength);
    }
    for i in 0..n_rows
        invariant
            x@.len() == k_dim,
            w0_rowmajor@.len() == n_rows * k_dim,
            w1_rowmajor@.len() == n_rows * k_dim,
            out0@.len() == n_rows,
            out1@.len() == n_rows,
            forall|j: int| 0 <= j < i ==> unrolled_sum(f, x@, row_of(w0_rowmajor@, j, k_dim as int), #[trigger] out0@[j]),
            forall|j: int| 0 <= j < i ==> unrolled_sum(f, x@, row_of(w1_rowmajor@, j, k_dim as int), #[trigger] out1@[j]),
    {
        let row0 = take_row(w0_rowmajor, i, n_rows, k_dim);
        let row1 = take_row(w1_rowmajor, i, n_rows, k_dim);
        let (a, b) = dot2_unrolled(x, row0, row1, f);
        out0.set(i, a);
        out1.set(i, b);
    }
    Ok(())
}

/// The gated product of a vector with a row of each of two matrices.
pub open spec fn gated<F: Fpu>(f: &F, x: Seq<u32>, gate: Seq<u32>, up: Seq<u32>, r: u32) -> bool {
    exists|g: u32, u: u32| unrolled_sum(f, x, gate, g) && unrolled_sum(f, x, up, u) && #[trigger] fpu::is_silu_product(f, g, u, r)
}

/// The gated products of a vector with the rows of two matrices.
pub fn dual_matvec_silu_mul_rowmajor_parallel<F: Fpu>(
    x: &[u32],
    gate_w_rowmajor: &[u32],
    up_w_rowmajor: &[u32],
    n_rows: usize,
    k_dim: usize,
    out: &mut Vec<u32>,
    f: &F,
) -> (r: Result<(), MatvecError>)
    ensures
        match dual_matvec_error(
            x@.len() as int,
            gate_w_rowmajor@.len() as int,
            up_w_rowmajor@.len() as int,
            n_rows as int,
            k_dim as int,
            old(out)@.len() as int,
            n_rows as int,
        ) {
            Some(e) => r == Err::<(), MatvecError>(e) && final(out)@ == old(out)@,
            None => r is Ok && final(out)@.len() == n_rows && forall|i: int|
                0 <= i < n_rows ==> gated(
                    f,
                    x@,
                    row_of(gate_w_rowmajor@, i, k_dim as int),
                    row_of(up_w_rowmajor@, i, k_dim as int),
                    #[trigger] final(out)@[i],
                ),
        },
{
    if x.len() != k_dim {
        return Err(MatvecError::InputLength);
    }
    if !has_extent(gate_w_rowmajor.len(), n_rows, k_dim) {
        return Err(MatvecError::WeightLength);
    }
    if !has_extent(up_w_rowmajor.len(), n_rows, k_dim) {
        return Err(MatvecError::SecondWeightLength);
    }
    if out.len() != n_rows {
        return Err(MatvecError::OutputLength);
    }
    for i in 0..n_rows
        invariant
            x@.len() == k_dim,
            gate_w_rowmajor@.len() == n_rows * k_dim,
            up_w_rowmajor@.len() == n_rows * k_dim,
            out@.len() == n_rows,
            forall|j: int|
                0 <= j < i ==> gated(
                    f,
                    x@,
                    row_of(gate_w_rowmajor@, j, k_dim as int),
                    row_of(up_w_rowmajor@, j, k_dim as int),
                    #[trigger] out@[j],
                ),
    {
        let gate_row = take_row(gate_w_rowmajor, i, n_rows, k_dim);
        let up_row = take_row(up_w_rowmajor, i, n_rows, k_dim);
        let (g, u) = dot2_unrolled(x, gate_row, up_row, f);
        let v: u32 = silu_product(f, g, u);
        assert(fpu::is_silu_product(f, g, u, v));
        out.set(i, v);
    }
    Ok(())
}

/// Some score is above the floor.
pub open spec fn any_above(scores: Seq<u32>, floor: u32) -> bool {
    exists|i: int| 0 <= i < scores.len() && float_bits::above(#[trigger] scores[i], floor)
}

/// `best` is the first of the largest scores above the floor, and 0 where there is
/// none.
pub open spec fn is_first_best(scores: Seq<u32>, floor: u32, best: int) -> bool {
    if any_above(scores, floor) {
        &&& 0 <= best < scores.len()
        &&& float_bits::above(scores[best], floor)
        &&& forall|i: int| 0 <= i < scores.len() ==> !float_bits::above(#[trigger] scores[i], scores[best])
        &&& forall|i: int|
            0 <= i < best ==> float_bits::is_nan(#[trigger] scores[i]) || float_bits::above(scores[best], scores[i])
    } else {
        best == 0
    }
}

/// The best score, and the floor where none is above it.
pub open spec fn best_score(scores: Seq<u32>, floor: u32, best: int) -> u32 {
    if any_above(scores, floor) {
        scores[best]
    } else {
        floor
    }
}

/// One more score is compared with the best so far.
pub proof fn lemma_next_score(scores: Seq<u32>, floor: u32, best: int, score: u32)
    requires
        is_first_best(scores, floor, best),
        !float_bits::is_nan(floor),
    ensures
        ({
            let next = scores.push(score);
            let held = best_score(scores, floor, best);
            let now = if float_bits::above(score, held) { scores.len() as int } else { best };
            &&& is_first_best(next, floor, now)
            &&& best_score(next, floor, now) == (if float_bits::above(score, held) { score } else { held })
        }),
{
    let next = scores.push(score);
    assert(next[scores.len() as int] == score);
    assert forall|j: int| 0 <= j < scores.len() implies scores[j] == #[trigger] next[j] by {}
    if any_above(scores, floor) {
        let j = choose|j: int| 0 <= j < scores.len() && float_bits::above(#[trigger] scores[j], floor);
        assert(float_bits::above(next[j], floor));
    }
    if any_above(next, floor) && !any_above(scores, floor) {
        let j = choose|j: int| 0 <= j < next.len() && float_bits::above(#[trigger] next[j], floor);
        if j < scores.len() {
            assert(float_bits::above(scores[j], floor));
        }
    }
}

/// `best` is the first row whose product with the vector is largest.
pub open spec fn is_best_row<F: Fpu>(f: &F, x: Seq<u32>, w: Seq<u32>, n_rows: int, k_dim: int, best: int) -> bool {
    exists|scores: Seq<u32>|
        scores.len() == n_rows && (forall|i: int|
            0 <= i < n_rows ==> row_sum(f, n_rows, x, row_of(w, i, k_dim), #[trigger] scores[i])) && #[trigger] is_first_best(
            scores,
            fpu::NEG_INFINITY,
            best,
        )
}

/// The row whose product with a vector is largest; the first of several.
pub fn matvec_argmax_rowmajor_parallel<F: Fpu>(
    x: &[u32],
    w_rowmajor: &[u32],
    n_rows: usize,
    k_dim: usize,
    f: &F,
) -> (r: Result<usize, MatvecError>)
    ensures
        match matvec_error(x@.len() as int, w_rowmajor@.len() as int, n_rows as int, k_dim as int, n_rows as int) {
            Some(e) => r == Err::<usize, MatvecError>(e),
            None => r matches Ok(best) && is_best_row(f, x@, w_rowmajor@, n_rows as int, k_dim as int, best as int),
        },
{
    if x.len() != k_dim {
        return Err(MatvecError::InputLength);
    }
    if !has_extent(w_rowmajor.len(), n_rows, k_dim) {
        return Err(MatvecError::WeightLength);
    }
    let mut best: usize = 0;
    let mut held: u32 = fpu::NEG_INFINITY;
    let ghost mut scores: Seq<u32> = Seq::empty();
    for i in 0..n_rows
        invariant
            x@.len() == k_dim,
            w_rowmajor@.len() == n_rows * k_dim,
            scores.len() == i,
            forall|j: int| 0 <= j < i ==> row_sum(f, n_rows as int, x@, row_of(w_rowmajor@, j, k_dim as int), #[trigger] scores[j]),
            is_first_best(scores, fpu::NEG_INFINITY, best as int),
            held == best_score(scores, fpu::NEG_INFINITY, best as int),
    {
        let row = take_row(w_rowmajor, i, n_rows, k_dim);
        let score: u32 = dot_row(n_rows, x, row, f);
        proof {
            lemma_next_score(scores, fpu::NEG_INFINITY, best as int, score);
            scores = scores.push(score);
        }
        if is_above(score, held) {
            best = i;
            held = score;
        }
    }
    assert(is_first_best(scores, fpu::NEG_INFINITY, best as int));
    Ok(best)
}

} // verus!
