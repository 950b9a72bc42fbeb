use crate::array::NdArray;
use crate::autograd;
use crate::autograd::{is_no_grad, BackwardOp, GradMode, Tensor, TensorStorage};
use crate::dims;
use crate::fixed;
use crate::fpu;
use crate::fpu::Fpu;
use crate::layers::activation;
use crate::ops::mat;
use crate::ops::matmul;
use crate::ops::rows;
use crate::precision::DType;
use std::sync::Arc;
use vstd::prelude::*;

verus! {

/// Scales each row to a root mean square of one, and then by a weight per column.
pub struct RMSNorm {
    pub weight: Tensor,
    pub eps: u32,
}

/// The squares of the elements.
pub open spec fn squares<F: Fpu>(f: &F, xs: Seq<u32>, sq: Seq<u32>) -> bool {
    &&& sq.len() == xs.len()
    &&& forall|i: int| 0 <= i < xs.len() ==> fpu::muls(f, xs[i], xs[i], #[trigger] sq[i])
}

/// The sum of the squares, from left to right, over their number.
pub open spec fn mean_square<F: Fpu>(f: &F, xs: Seq<u32>, q: u32) -> bool {
    exists|sq: Seq<u32>, s: u32, n: u32| #[trigger]
        squares(f, xs, sq) && rows::left_sum(f, fpu::ZERO, sq, s) && fpu::counts(f, xs.len() as usize, n)
            && #[trigger] fpu::divs(f, s, n, q)
}

/// `1 / sqrt(mean square + eps)`.
pub open spec fn inverse_rms<F: Fpu>(f: &F, xs: Seq<u32>, eps: u32, inv: u32) -> bool {
    exists|q: u32, a: u32, r: u32|
        mean_square(f, xs, q) && #[trigger] fpu::adds(f, q, eps, a) && #[trigger] fpu::sqrts(f, a, r) && fpu::divs(
            f,
            fpu::ONE,
            r,
            inv,
        )
}

fn inverse_rms_of<F: Fpu>(xs: &[u32], eps: u32, f: &F) -> (inv: u32)
    ensures
        inverse_rms(f, xs@, eps, inv),
{
    let mut total: u32 = fpu::ZERO;
    let ghost mut sq: Seq<u32> = Seq::empty();
    for i in 0..xs.len()
        invariant
            sq.len() == i,
            forall|j: int| 0 <= j < i ==> fpu::muls(f, xs@[j], xs@[j], #[trigger] sq[j]),
            rows::left_sum(f, fpu::ZERO, sq, total),
    {
        let v: u32 = f.mul(xs[i], xs[i]);
        let next: u32 = f.add(total, v);
        proof {
            let longer = sq.push(v);
            assert(longer.drop_last() =~= sq);
            assert(fpu::adds(f, total, longer.last(), next));
            sq = longer;
        }
        total = next;
    }
    let n: u32 = f.from_count(xs.len());
    let q: u32 = f.div(total, n);
    assert(mean_square(f, xs@, q)) by {
        assert(squares(f, xs@, sq) && fpu::divs(f, total, n, q));
    }
    let a: u32 = f.add(q, eps);
    let r: u32 = f.sqrt(a);
    let inv: u32 = f.div(fpu::ONE, r);
    assert(fpu::adds(f, q, eps, a) && fpu::sqrts(f, a, r) && fpu::divs(f, fpu::ONE, r, inv));
    inv
}

/// `(x * inv) * w`.
pub open spec fn weighted<F: Fpu>(f: &F, x: u32, inv: u32, w: u32, r: u32) -> bool {
    exists|m: u32| fpu::muls(f, x, inv, m) && #[trigger] fpu::muls(f, m, w, r)
}

/// The elements of a row over its root mean square, times the weights. Columns
/// without a weight are zero.
pub open spec fn normalized_by<F: Fpu>(f: &F, xs: Seq<u32>, w: Seq<u32>, inv: u32, ys: Seq<u32>) -> bool {
    &&& ys.len() == xs.len()
    &&& forall|i: int|
        0 <= i < xs.len() ==> if i < w.len() {
            weighted(f, xs[i], inv, w[i], #[trigger] ys[i])
        } else {
            ys[i] == fpu::ZERO
        }
}

pub open spec fn normalized<F: Fpu>(f: &F, xs: Seq<u32>, w: Seq<u32>, eps: u32, ys: Seq<u32>) -> bool {
    exists|inv: u32| inverse_rms(f, xs, eps, inv) && #[trigger] normalized_by(f, xs, w, inv, ys)
}

fn normalize_row<F: Fpu>(xs: &[u32], w: &Vec<u32>, eps: u32, f: &F) -> (ys: Vec<u32>)
    ensures
        normalized(f, xs@, w@, eps, ys@),
{
    let inv: u32 = inverse_rms_of(xs, eps, f);
    let mut ys: Vec<u32> = Vec::with_capacity(xs.len());
    for i in 0..xs.len()
        invariant
            ys@.len() == i,
            forall|j: int|
                0 <= j < i ==> if j < w@.len() {
                    weighted(f, xs@[j], inv, w@[j], #[trigger] ys@[j])
                } else {
                    ys@[j] == fpu::ZERO
                },
    {
        if i < w.len() {
            let m: u32 = f.mul(xs[i], inv);
            let y: u32 = f.mul(m, w[i]);
            assert(weighted(f, xs@[i as int], inv, w@[i as int], y)) by {
                assert(fpu::muls(f, xs@[i as int], inv, m) && fpu::muls(f, m, w@[i as int], y));
            }
            ys.push(y);
        } else {
            ys.push(fpu::ZERO);
        }
    }
    assert(normalized_by(f, xs@, w@, inv, ys@));
    ys
}

/// Each row of `r` is the normalized row of `a`.
pub open spec fn rows_normalized<F: Fpu>(f: &F, a: NdArray<u32>, w: Seq<u32>, eps: u32, r: NdArray<u32>) -> bool {
    let k = a.shape@.last() as int;
    &&& r.wf()
    &&& r.shape@ == a.shape@
    &&& forall|i: int|
        0 <= i < a.data@.len() as int / k ==> normalized(
            f,
            matmul::flat_row(a.data@, i, k),
            w,
            eps,
            #[trigger] matmul::flat_row(r.data@, i, k),
        )
}

fn normalize_rows<F: Fpu>(a: &NdArray<u32>, w: &Vec<u32>, eps: u32, f: &F) -> (r: NdArray<u32>)
    requires
        a.wf(),
        a.shape@.len() > 0,
        a.shape@.last() > 0,
    ensures
        rows_normalized(f, *a, w@, eps, r),
{
    let k: usize = a.shape[a.shape.len() - 1];
    let len: usize = a.data.len();
    let outer: usize = len / k;
    let mut data: Vec<u32> = Vec::with_capacity(len);
    proof {
        activation::lemma_whole_rows(a.shape@, len as int);
        assert(0 * k == 0) by (nonlinear_arith);
    }
    for i in 0..outer
        invariant
            k > 0,
            len == a.data@.len() == outer * k,
            data@.len() == i * k,
            forall|j: int|
                0 <= j < i ==> normalized(
                    f,
                    matmul::flat_row(a.data@, j, k as int),
                    w@,
                    eps,
                    #[trigger] matmul::flat_row(data@, j, k as int),
                ),
    {
        proof {
            assert(0 <= i * k && i * k + k <= outer * k && (i + 1) * k == i * k + k) by (nonlinear_arith)
                requires
                    0 <= i < outer,
                    k > 0,
            ;
        }
        let x = vstd::slice::slice_subrange(a.data.as_slice(), i * k, i * k + k);
        let mut y: Vec<u32> = normalize_row(x, w, eps, f);
        let ghost before = data@;
        let ghost row = y@;
        data.append(&mut y);
        proof {
            assert forall|j: int| 0 <= j < i + 1 implies normalized(
                f,
                matmul::flat_row(a.data@, j, k as int),
                w@,
                eps,
                #[trigger] matmul::flat_row(data@, j, k as int),
            ) by {
                if j < i {
                    activation::lemma_rows_stay(before, row, i as int, j, k as int);
                } else {
                    assert(matmul::flat_row(data@, j, k as int) =~= row);
                }
            }
        }
    }
    NdArray { shape: a.shape.clone(), data }
}

/// `(g * w) * (x * inv)`.
pub open spec fn norm_term<F: Fpu>(f: &F, g: u32, w: u32, x: u32, inv: u32, r: u32) -> bool {
    exists|a: u32, b: u32| fpu::muls(f, g, w, a) && fpu::muls(f, x, inv, b) && #[trigger] fpu::muls(f, a, b, r)
}

/// The mean of the terms of a row: their sum times the inverse of their number.
pub open spec fn mean_term<F: Fpu>(f: &F, g: Seq<u32>, w: Seq<u32>, x: Seq<u32>, inv: u32, mean: u32) -> bool {
    exists|terms: Seq<u32>, dot: u32, n: u32, inv_dim: u32| #[trigger]
        norm_terms(f, g, w, x, inv, terms) && rows::left_sum(f, fpu::ZERO, terms, dot) && fpu::counts(
            f,
            x.len() as usize,
            n,
        ) && #[trigger] fpu::divs(f, fpu::ONE, n, inv_dim) && #[trigger] fpu::muls(f, dot, inv_dim, mean)
}

pub open spec fn norm_terms<F: Fpu>(f: &F, g: Seq<u32>, w: Seq<u32>, x: Seq<u32>, inv: u32, terms: Seq<u32>) -> bool {
    &&& terms.len() == x.len()
    &&& forall|i: int| 0 <= i < x.len() ==> norm_term(f, g[i], w[i], x[i], inv, #[trigger] terms[i])
}

/// `inv * (g * w - (x * inv) * mean)`.
pub open spec fn norm_slope<F: Fpu>(f: &F, g: u32, w: u32, x: u32, inv: u32, mean: u32, r: u32) -> bool {
    exists|a: u32, b: u32, c: u32, d: u32|
        fpu::muls(f, g, w, a) && #[trigger] fpu::muls(f, x, inv, b) && #[trigger] fpu::muls(f, b, mean, c)
            && #[trigger] fpu::subs(f, a, c, d) && fpu::muls(f, inv, d, r)
}

/// `r` is the gradient that a row receives.
pub open spec fn norm_row_sends<F: Fpu>(f: &F, g: Seq<u32>, w: Seq<u32>, x: Seq<u32>, eps: u32, r: Seq<u32>) -> bool {
    exists|inv: u32, mean: u32|
        inverse_rms(f, x, eps, inv) && mean_term(f, g, w, x, inv, mean) && #[trigger] norm_slopes(f, g, w, x, inv, mean, r)
}

pub open spec fn norm_slopes<F: Fpu>(
    f: &F,
    g: Seq<u32>,
    w: Seq<u32>,
    x: Seq<u32>,
    inv: u32,
    mean: u32,
    r: Seq<u32>,
) -> bool {
    &&& r.len() == x.len()
    &&& forall|i: int| 0 <= i < x.len() ==> norm_slope(f, g[i], w[i], x[i], inv, mean, #[trigger] r[i])
}

fn norm_row_gradient<F: Fpu>(g: &[u32], w: &Vec<u32>, x: &[u32], eps: u32, f: &F) -> (r: Vec<u32>)
    requires
        g@.len() == x@.len() == w@.len(),
    ensures
        norm_row_sends(f, g@, w@, x@, eps, r@),
{
    let inv: u32 = inverse_rms_of(x, eps, f);
    let n: u32 = f.from_count(x.len());
    let inv_dim: u32 = f.div(fpu::ONE, n);
    let mut dot: u32 = fpu::ZERO;
    let ghost mut terms: Seq<u32> = Seq::empty();
    for i in 0..x.len()
        invariant
            g@.len() == x@.len() == w@.len(),
            terms.len() == i,
            forall|j: int| 0 <= j < i ==> norm_term(f, g@[j], w@[j], x@[j], inv, #[trigger] terms[j]),
            rows::left_sum(f, fpu::ZERO, terms, dot),
    {
        let a: u32 = f.mul(g[i], w[i]);
        let b: u32 = f.mul(x[i], inv);
        let v: u32 = f.mul(a, b);
        let next: u32 = f.add(dot, v);
        proof {
            assert(norm_term(f, g@[i as int], w@[i as int], x@[i as int], inv, v)) by {
                assert(fpu::muls(f, g@[i as int], w@[i as int], a) && fpu::muls(f, x@[i as int], inv, b) && fpu::muls(
                    f,
                    a,
                    b,
                    v,
                ));
            }
            let longer = terms.push(v);
            assert(longer.drop_last() =~= terms);
            assert(fpu::adds(f, dot, longer.last(), next));
            terms = longer;
        }
        dot = next;
    }
    let mean: u32 = f.mul(dot, inv_dim);
    assert(mean_term(f, g@, w@, x@, inv, mean)) by {
        assert(norm_terms(f, g@, w@, x@, inv, terms) && fpu::divs(f, fpu::ONE, n, inv_dim) && fpu::muls(
            f,
            dot,
            inv_dim,
            mean,
        ));
    }
    let mut r: Vec<u32> = Vec::with_capacity(x.len());
    for i in 0..x.len()
        invariant
            g@.len() == x@.len() == w@.len(),
            r@.len() == i,
            forall|j: int| 0 <= j < i ==> norm_slope(f, g@[j], w@[j], x@[j], inv, mean, #[trigger] r@[j]),
    {
        let a: u32 = f.mul(g[i], w[i]);
        let b: u32 = f.mul(x[i], inv);
        let c: u32 = f.mul(b, mean);
        let d: u32 = f.sub(a, c);
        let v: u32 = f.mul(inv, d);
        assert(norm_slope(f, g@[i as int], w@[i as int], x@[i as int], inv, mean, v)) by {
            assert(fpu::muls(f, g@[i as int], w@[i as int], a) && fpu::muls(f, x@[i as int], inv, b) && fpu::muls(
                f,
                b,
                mean,
                c,
            ) && fpu::subs(f, a, c, d) && fpu::muls(f, inv, d, v));
        }
        r.push(v);
    }
    assert(norm_slopes(f, g@, w@, x@, inv, mean, r@));
    r
}

/// `(g * x) * inv`.
pub open spec fn weight_term<F: Fpu>(f: &F, g: u32, x: u32, inv: u32, r: u32) -> bool {
    exists|m: u32| fpu::muls(f, g, x, m) && #[trigger] fpu::muls(f, m, inv, r)
}

/// What the rows contribute to the weight of column `j`.
pub open spec fn weight_terms<F: Fpu>(
    f: &F,
    g: Seq<u32>,
    x: Seq<u32>,
    k: int,
    invs: Seq<u32>,
    j: int,
    terms: Seq<u32>,
) -> bool {
    &&& terms.len() == invs.len()
    &&& forall|i: int| 0 <= i < invs.len() ==> weight_term(f, g[i * k + j], x[i * k + j], invs[i], #[trigger] terms[i])
}

/// `r` is the sum of what the rows contribute, in some order.
pub open spec fn weight_sum<F: Fpu>(f: &F, g: Seq<u32>, x: Seq<u32>, k: int, invs: Seq<u32>, j: int, r: u32) -> bool {
    exists|terms: Seq<u32>| #[trigger] weight_terms(f, g, x, k, invs, j, terms) && rows::sum_in_some_order(f, terms, r)
}

/// The inverse root mean squares of the rows.
pub open spec fn row_inverses<F: Fpu>(f: &F, x: Seq<u32>, k: int, eps: u32, invs: Seq<u32>) -> bool {
    forall|i: int| 0 <= i < invs.len() ==> inverse_rms(f, matmul::flat_row(x, i, k), eps, #[trigger] invs[i])
}

/// The operands of a recorded normalization.
pub struct RmsNormBackward {
    pub input: Arc<NdArray<u32>>,
    pub weight: Arc<NdArray<u32>>,
    pub eps: u32,
}

impl RmsNormBackward {
    pub open spec fn suits(&self, out: Seq<usize>, operands: Seq<Seq<usize>>) -> bool {
        &&& self.input.wf()
        &&& self.weight.wf()
        &&& self.input.shape@ == out
        &&& out.len() > 0
        &&& out.last() > 0
        &&& self.weight.shape@ == seq![out.last()]
        &&& operands == seq![out, seq![out.last()]]
    }

    pub open spec fn sends_input<F: Fpu>(&self, f: &F, g: NdArray<u32>, r: NdArray<u32>) -> bool {
        let k = g.shape@.last() as int;
        &&& r.wf()
        &&& r.shape@ == g.shape@
        &&& forall|i: int|
            0 <= i < g.data@.len() as int / k ==> norm_row_sends(
                f,
                matmul::flat_row(g.data@, i, k),
                self.weight.data@,
                matmul::flat_row(self.input.data@, i, k),
                self.eps,
                #[trigger] matmul::flat_row(r.data@, i, k),
            )
    }

    pub open spec fn sends_weight<F: Fpu>(&self, f: &F, g: NdArray<u32>, r: NdArray<u32>) -> bool {
        let k = g.shape@.last() as int;
        &&& r.wf()
        &&& r.shape@ == seq![g.shape@.last()]
        &&& exists|invs: Seq<u32>|
            invs.len() == g.data@.len() as int / k && #[trigger] row_inverses(f, self.input.data@, k, self.eps, invs) && (
            forall|j: int| 0 <= j < k ==> weight_sum(f, g.data@, self.input.data@, k, invs, j, #[trigger] r.data@[j]))
    }

    pub open spec fn sends<F: Fpu>(&self, f: &F, g: NdArray<u32>, p: int, r: NdArray<u32>) -> bool {
        if p == 0 {
            self.sends_input(f, g, r)
        } else {
            self.sends_weight(f, g, r)
        }
    }

    fn input_gradient<F: Fpu>(&self, g: &NdArray<u32>, f: &F) -> (r: NdArray<u32>)
        requires
            g.wf(),
            self.suits(g.shape@, seq![g.shape@, seq![g.shape@.last()]]),
        ensures
            self.sends_input(f, *g, r),
    {
        let k: usize = g.shape[g.shape.len() - 1];
        let len: usize = g.data.len();
        let outer: usize = len / k;
        let x_len: usize = self.input.data.len();
        let mut data: Vec<u32> = Vec::with_capacity(len);
        proof {
            activation::lemma_whole_rows(g.shape@, len as int);
            dims::lemma_product1(k);
            assert(0 * k == 0) by (nonlinear_arith);
        }
        for i in 0..outer
            invariant
                k > 0,
                len == g.data@.len() == self.input.data@.len() == outer * k,
                self.weight.data@.len() == k,
                data@.len() == i * k,
                forall|j: int|
                    0 <= j < i ==> norm_row_sends(
                        f,
                        matmul::flat_row(g.data@, j, k as int),
                        self.weight.data@,
                        matmul::flat_row(self.input.data@, j, k as int),
                        self.eps,
                        #[trigger] matmul::flat_row(data@, j, k as int),
                    ),
        {
            proof {
                assert(0 <= i * k && i * k + k <= outer * k && (i + 1) * k == i * k + k) by (nonlinear_arith)
                    requires
                        0 <= i < outer,
                        k > 0,
                ;
            }
            let gr = vstd::slice::slice_subrange(g.data.as_slice(), i * k, i * k + k);
            let x = vstd::slice::slice_subrange(self.input.data.as_slice(), i * k, i * k + k);
            let mut part: Vec<u32> = norm_row_gradient(gr, &self.weight.data, x, self.eps, f);
            let ghost before = data@;
            let ghost row = part@;
            data.append(&mut part);
            proof {
                assert forall|j: int| 0 <= j < i + 1 implies norm_row_sends(
                    f,
                    matmul::flat_row(g.data@, j, k as int),
                    self.weight.data@,
                    matmul::flat_row(self.input.data@, j, k as int),
                    self.eps,
                    #[trigger] matmul::flat_row(data@, j, k as int),
                ) by {
                    if j < i {
                        activation::lemma_rows_stay(before, row, i as int, j, k as int);
                    } else {
                        assert(matmul::flat_row(data@, j, k as int) =~= row);
                    }
                }
            }
        }
        NdArray { shape: g.shape.clone(), data }
    }

    fn weight_gradient<F: Fpu>(&self, g: &NdArray<u32>, f: &F) -> (r: NdArray<u32>)
        requires
            g.wf(),
            self.suits(g.shape@, seq![g.shape@, seq![g.shape@.last()]]),
        ensures
            self.sends_weight(f, *g, r),
    {
        let k: usize = g.shape[g.shape.len() - 1];
        let len: usize = g.data.len();
        let outer: usize = len / k;
        let x_len: usize = self.input.data.len();
        let mut invs: Vec<u32> = Vec::with_capacity(outer);
        proof {
            activation::lemma_whole_rows(g.shape@, len as int);
            dims::lemma_product1(k);
        }
        for i in 0..outer
            invariant
                k > 0,
                len == g.data@.len() == self.input.data@.len() == outer * k,
                invs@.len() == i,
                row_inverses(f, self.input.data@, k as int, self.eps, invs@),
        {
            proof {
                assert(0 <= i * k && i * k + k <= outer * k) by (nonlinear_arith)
                    requires
                        0 <= i < outer,
                        k > 0,
                ;
            }
            let x = vstd::slice::slice_subrange(self.input.data.as_slice(), i * k, i * k + k);
            invs.push(inverse_rms_of(x, self.eps, f));
        }
        let mut data: Vec<u32> = Vec::with_capacity(k);
        for j in 0..k
            invariant
                k > 0,
                len == g.data@.len() == self.input.data@.len() == outer * k,
                invs@.len() == outer,
                data@.len() == j,
                forall|q: int|
                    0 <= q < j ==> weight_sum(
                        f,
                        g.data@,
                        self.input.data@,
                        k as int,
                        invs@,
                        q,
                        #[trigger] data@[q],
                    ),
        {
            let mut acc: u32 = fpu::ZERO;
            let ghost mut terms: Seq<u32> = Seq::empty();
            for i in 0..outer
                invariant
                    j < k,
                    len == g.data@.len() == self.input.data@.len() == outer * k,
                    invs@.len() == outer,
                    terms.len() == i,
                    rows::left_sum(f, fpu::ZERO, terms, acc),
                    forall|q: int|
                        0 <= q < i ==> weight_term(
                            f,
                            g.data@[q * k + j],
                            self.input.data@[q * k + j],
                            invs@[q],
                            #[trigger] terms[q],
                        ),
            {
                proof {
                    mat::lemma_row_major(i as int, j as int, outer as int, k as int);
                }
                let p: usize = i * k + j;
                let m: u32 = f.mul(g.data[p], self.input.data[p]);
                let v: u32 = f.mul(m, invs[i]);
                let next: u32 = f.add(acc, v);
                proof {
                    assert(weight_term(f, g.data@[p as int], self.input.data@[p as int], invs@[i as int], v)) by {
                        assert(fpu::muls(f, g.data@[p as int], self.input.data@[p as int], m) && fpu::muls(
                            f,
                            m,
                            invs@[i as int],
                            v,
                        ));
                    }
                    let longer = terms.push(v);
                    assert(longer.drop_last() =~= terms);
                    assert(fpu::adds(f, acc, longer.last(), next));
                    terms = longer;
                }
                acc = next;
            }
            proof {
                let t = rows::lemma_left_sum_in_some_order(f, terms, acc);
                assert(rows::sum_in_some_order(f, terms, acc));
                assert(weight_terms(f, g.data@, self.input.data@, k as int, invs@, j as int, terms));
            }
            data.push(acc);
        }
        let shape: Vec<usize> = vec![k];
        assert(shape@ =~= seq![g.shape@.last()]);
        assert(dims::nonzero_extents(shape@) =~= shape@);
        NdArray { shape, data }
    }

    pub fn gradients<F: Fpu>(&self, g: &NdArray<u32>, f: &F) -> (r: (NdArray<u32>, NdArray<u32>))
        requires
            g.wf(),
            self.suits(g.shape@, seq![g.shape@, seq![g.shape@.last()]]),
        ensures
            self.sends(f, *g, 0, r.0),
            self.sends(f, *g, 1, r.1),
    {
        (self.input_gradient(g, f), self.weight_gradient(g, f))
    }
}

pub open spec fn normalized_storage<F: Fpu>(
    f: &F,
    input: TensorStorage,
    weight: TensorStorage,
    eps: u32,
    dtype: DType,
    s: TensorStorage,
) -> bool {
    exists|a: NdArray<u32>, w: NdArray<u32>, b: NdArray<u32>|
        autograd::reads_as(f, input, a) && autograd::reads_as(f, weight, w) && #[trigger] rows_normalized(
            f,
            a,
            w.data@,
            eps,
            b,
        ) && autograd::stored_as(f, b, dtype, s)
}

impl RMSNorm {
    pub open spec fn wf(&self) -> bool {
        &&& self.weight.wf()
        &&& self.weight.spec_shape().len() == 1
    }

    /// Whether the layer is sound.
    pub fn is_sound(&self) -> (r: bool)
        ensures
            r == self.wf(),
    {
        self.weight.is_sound() && self.weight.ndim() == 1
    }

    /// The layer with other weights.
    pub open spec fn with_parameters(&self, params: Seq<Tensor>) -> RMSNorm {
        RMSNorm { weight: params[0], ..*self }
    }

    /// Weights of one, in single precision.
    pub fn new(dim: usize, eps: u32) -> (l: RMSNorm)
        ensures
            l.wf(),
            l.eps == eps,
            l.weight.is_leaf(l.weight.storage, true),
            l.weight.storage matches TensorStorage::F32(w) && crate::graph::all_ones(seq![dim], *w),
    {
        RMSNorm { weight: Tensor::parameter(ones(dim)), eps }
    }

    /// Weights of one, in the given precision.
    pub fn new_with_dtype<F: Fpu>(dim: usize, eps: u32, dtype: DType, f: &F) -> (l: RMSNorm)
        ensures
            l.wf(),
            l.eps == eps,
            l.weight.is_leaf(l.weight.storage, true),
            ones_stored(f, dim, dtype, l.weight.storage),
    {
        let data = ones(dim);
        let weight = Tensor::parameter_with_dtype(f, data, dtype);
        assert(crate::graph::all_ones(seq![dim], data));
        RMSNorm { weight, eps }
    }

    /// Whether a pass is recorded.
    pub open spec fn records(&self, input: Tensor, mode: GradMode) -> bool {
        !mode.no_grad() && (input.requires_grad || self.weight.requires_grad)
    }

    /// The normalized rows, recorded if they are to be differentiated.
    pub open spec fn norm_result<F: Fpu>(&self, f: &F, input: Tensor, mode: GradMode, t: Tensor) -> bool {
        &&& t.wf()
        &&& t.spec_shape() == input.spec_shape()
        &&& t.grad is None
        &&& if !self.records(input, mode) {
            t.is_leaf(t.storage, false) && normalized_storage(
                f,
                input.storage,
                self.weight.storage,
                self.eps,
                activation::softmax_dtype(input.spec_dtype()),
                t.storage,
            )
        } else {
            &&& t.requires_grad
            &&& normalized_storage(f, input.storage, self.weight.storage, self.eps, DType::F32, t.storage)
            &&& t.op matches Some(op) && *op matches BackwardOp::RmsNorm(back) && back.eps == self.eps
                && autograd::reads_as(f, input.storage, *back.input) && autograd::reads_as(
                f,
                self.weight.storage,
                *back.weight,
            )
        }
    }

    /// The normalized rows. Where nothing is recorded, the precision of the input
    /// stays, unless it is held as bytes.
    pub fn forward<F: Fpu>(&self, input: &Tensor, mode: &GradMode, f: &F) -> (t: Tensor)
        requires
            self.wf(),
            input.wf(),
            input.spec_shape().len() > 0,
            input.spec_shape().last() > 0,
        ensures
            self.norm_result(f, *input, *mode, t),
    {
        let a = input.data_arc(f);
        let w = self.weight.data_arc(f);
        let b = Arc::new(normalize_rows(&a, &w.data, self.eps, f));
        assert(rows_normalized(f, *a, w.data@, self.eps, *b));
        if is_no_grad(mode) || !(input.requires_grad() || self.weight.requires_grad()) {
            let dtype: DType = if input.dtype().is_float() { input.dtype() } else { DType::F32 };
            return Tensor::from_single_no_grad(f, b, dtype);
        }
        let op = BackwardOp::RmsNorm(RmsNormBackward { input: a, weight: w, eps: self.eps });
        Tensor { storage: TensorStorage::F32(b), grad: None, op: Some(Arc::new(op)), requires_grad: true }
    }

    pub fn parameters(&self) -> (p: Vec<Tensor>)
        ensures
            p@ == seq![self.weight],
    {
        let p: Vec<Tensor> = vec![self.weight.clone()];
        assert(p@ =~= seq![self.weight]);
        p
    }
}

/// Ones, held in the given precision.
pub open spec fn ones_stored<F: Fpu>(f: &F, dim: usize, dtype: DType, s: TensorStorage) -> bool {
    exists|a: NdArray<u32>| #[trigger] crate::graph::all_ones(seq![dim], a) && autograd::stored_as(f, a, dtype, s)
}

fn ones(dim: usize) -> (a: NdArray<u32>)
    ensures
        crate::graph::all_ones(seq![dim], a),
{
    let shape: Vec<usize> = vec![dim];
    proof {
        assert(shape@ =~= seq![dim]);
        let one: usize = if dim == 0 { 1 } else { dim };
        assert(dims::nonzero_extents(shape@) =~= seq![one]);
        dims::lemma_product1(one);
    }
    NdArray::filled(shape, fpu::ONE)
}

/// A tensor that holds the values of another in single precision.
pub open spec fn in_single<F: Fpu>(f: &F, t: Tensor, wide: Tensor) -> bool {
    &&& wide.wf()
    &&& wide.storage matches TensorStorage::F32(a) && autograd::reads_as(f, t.storage, *a)
    &&& wide.requires_grad == t.requires_grad
}

/// `t` holds the values of a tensor in single precision, rounded to its own precision.
pub open spec fn rounded_from<F: Fpu>(f: &F, wide: Tensor, t: Tensor) -> bool {
    wide.storage matches TensorStorage::F32(b) && autograd::stored_as(f, *b, t.spec_dtype(), t.storage)
}

/// Where nothing is recorded and the processor answers alike, an input is normalized as the
/// same values in single precision are: each element of the result is the element that
/// those have, rounded once, to the precision of the input.
pub proof fn law_norm_rounds_once<F: Fpu>(
    n: RMSNorm,
    f: &F,
    input: Tensor,
    wide: Tensor,
    mode: GradMode,
    t: Tensor,
    single: Tensor,
)
    requires
        fpu::fixed_answers(f),
        input.wf(),
        input.spec_shape().len() > 0,
        input.spec_shape().last() > 0,
        input.spec_dtype().float(),
        in_single(f, input, wide),
        !n.records(input, mode),
        n.norm_result(f, input, mode, t),
        n.norm_result(f, wide, mode, single),
    ensures
        t.spec_dtype() == input.spec_dtype(),
        t.spec_shape() == single.spec_shape(),
        rounded_from(f, single, t),
{
    let (a, w, b) = choose|a: NdArray<u32>, w: NdArray<u32>, b: NdArray<u32>|
        autograd::reads_as(f, input.storage, a) && autograd::reads_as(f, n.weight.storage, w) && #[trigger] rows_normalized(
            f,
            a,
            w.data@,
            n.eps,
            b,
        ) && autograd::stored_as(f, b, activation::softmax_dtype(input.spec_dtype()), t.storage);
    let (c, v, d) = choose|a: NdArray<u32>, w: NdArray<u32>, b: NdArray<u32>|
        autograd::reads_as(f, wide.storage, a) && autograd::reads_as(f, n.weight.storage, w) && #[trigger] rows_normalized(
            f,
            a,
            w.data@,
            n.eps,
            b,
        ) && autograd::stored_as(f, b, activation::softmax_dtype(wide.spec_dtype()), single.storage);
    let own = wide.storage->F32_0;
    fixed::lemma_one_reading(f, input.storage, &a, &*own);
    fixed::lemma_one_reading(f, n.weight.storage, &w, &v);
    let k = a.shape@.last() as int;
    let m = a.data@.len() as int / k;
    activation::lemma_whole_rows(a.shape@, a.data@.len() as int);
    assert forall|i: int| 0 <= i < m implies #[trigger] matmul::flat_row(b.data@, i, k) == matmul::flat_row(d.data@, i, k) by {
        let x = matmul::flat_row(a.data@, i, k);
        assert(normalized(f, x, w.data@, n.eps, matmul::flat_row(b.data@, i, k)));
        assert(normalized(f, x, w.data@, n.eps, matmul::flat_row(d.data@, i, k)));
        fixed::lemma_one_normalized(
            f,
            x,
            w.data@,
            n.eps,
            matmul::flat_row(b.data@, i, k),
            matmul::flat_row(d.data@, i, k),
        );
    }
    fixed::lemma_same_rows(b.data@, d.data@, m, k);
}

} // verus!
