use crate::array::NdArray;
use crate::autograd;
use crate::autograd::{is_no_grad, BackwardOp, GradMode, Tensor, TensorStorage};
use crate::dims;
use crate::dims::same_extents;
use crate::fixed;
use crate::float_bits;
use crate::fpu;
use crate::fpu::Fpu;
use crate::layers::activation;
use crate::ops::matmul;
use crate::precision::{DType, PrecisionConfig};
use std::sync::Arc;
use vstd::prelude::*;

verus! {

pub const TWO: u32 = 0x4000_0000;

/// Rotates pairs of features by angles that grow with the position of a token. The
/// cosines and sines are computed once, for all positions.
pub struct RotaryEmbedding {
    pub dim: usize,
    pub max_seq_len: usize,
    pub cos_cache: Tensor,
    pub sin_cache: Tensor,
}

/// Why features cannot be rotated.
#[derive(Clone, Copy, Debug, PartialEq, Eq, Structural)]
pub enum RopeError {
    NotFloat,
    NotFourDimensional,
    DimMismatch,
    OutOfRange,
    SourceLength,
    TargetLength,
}

/// `1 / theta^(2j / dim)`.
pub open spec fn frequency<F: Fpu>(f: &F, theta: u32, j: usize, dim: usize, r: u32) -> bool {
    exists|n: u32, d: u32, e: u32, p: u32|
        frequency_exponent(f, j, dim, n, d, e) && #[trigger] fpu::powfs(f, theta, e, p) && #[trigger] fpu::divs(
            f,
            fpu::ONE,
            p,
            r,
        ) && #[trigger] fpu::counts(f, dim, d) && #[trigger] fpu::counts(f, j, n)
}

pub open spec fn frequency_exponent<F: Fpu>(f: &F, j: usize, dim: usize, n: u32, d: u32, e: u32) -> bool {
    exists|t: u32| fpu::muls(f, n, TWO, t) && #[trigger] fpu::divs(f, t, d, e)
}

/// The position times the frequency of feature `j`.
pub open spec fn angle<F: Fpu>(f: &F, theta: u32, i: usize, j: usize, dim: usize, v: u32) -> bool {
    exists|n: u32, q: u32| fpu::counts(f, i, n) && frequency(f, theta, j, dim, q) && #[trigger] fpu::muls(f, n, q, v)
}

fn angle_of<F: Fpu>(theta: u32, i: usize, j: usize, dim: usize, f: &F) -> (v: u32)
    ensures
        angle(f, theta, i, j, dim, v),
{
    let pos: u32 = f.from_count(i);
    let n: u32 = f.from_count(j);
    let t: u32 = f.mul(n, TWO);
    let d: u32 = f.from_count(dim);
    let e: u32 = f.div(t, d);
    let p: u32 = f.powf(theta, e);
    let q: u32 = f.div(fpu::ONE, p);
    assert(frequency(f, theta, j, dim, q)) by {
        assert(fpu::muls(f, n, TWO, t) && fpu::divs(f, t, d, e));
        assert(frequency_exponent(f, j, dim, n, d, e));
        assert(fpu::powfs(f, theta, e, p) && fpu::divs(f, fpu::ONE, p, q) && fpu::counts(f, dim, d) && fpu::counts(f, j, n));
    }
    let v: u32 = f.mul(pos, q);
    assert(fpu::counts(f, i, pos) && fpu::muls(f, pos, q, v));
    v
}

/// The cosine and the sine for a feature and its partner.
pub open spec fn angle_pair<F: Fpu>(f: &F, theta: u32, i: usize, j: usize, dim: usize, c: u32, s: u32) -> bool {
    exists|v: u32| #[trigger] angle(f, theta, i, j, dim, v) && fpu::coss(f, v, c) && fpu::sins(f, v, s)
}

/// The cosines and sines of one position: the first half, and again for the partners;
/// a last feature without a partner has zeros.
pub open spec fn position_row<F: Fpu>(f: &F, theta: u32, i: usize, dim: usize, cos: Seq<u32>, sin: Seq<u32>) -> bool {
    let half = dim as int / 2;
    &&& cos.len() == dim
    &&& sin.len() == dim
    &&& forall|j: int| 0 <= j < half ==> angle_pair(f, theta, i, j as usize, dim, #[trigger] cos[j], sin[j])
    &&& forall|j: int| 0 <= j < half ==> #[trigger] cos[j + half] == cos[j] && sin[j + half] == sin[j]
    &&& dim % 2 == 1 ==> cos[dim - 1] == fpu::ZERO && sin[dim - 1] == fpu::ZERO
}

fn position_values<F: Fpu>(theta: u32, i: usize, dim: usize, f: &F) -> (r: (Vec<u32>, Vec<u32>))
    ensures
        position_row(f, theta, i, dim, r.0@, r.1@),
{
    let half: usize = dim / 2;
    let mut cos: Vec<u32> = vec![fpu::ZERO; dim];
    let mut sin: Vec<u32> = vec![fpu::ZERO; dim];
    for j in 0..half
        invariant
            half == dim / 2,
            cos@.len() == dim,
            sin@.len() == dim,
            forall|q: int| 0 <= q < j ==> angle_pair(f, theta, i, q as usize, dim, #[trigger] cos@[q], sin@[q]),
            forall|q: int| 0 <= q < j ==> #[trigger] cos@[q + half] == cos@[q] && sin@[q + half] == sin@[q],
            dim % 2 == 1 ==> cos@[dim - 1] == fpu::ZERO && sin@[dim - 1] == fpu::ZERO,
    {
        let v: u32 = angle_of(theta, i, j, dim, f);
        let c: u32 = f.cos(v);
        let s: u32 = f.sin(v);
        assert(angle_pair(f, theta, i, j, dim, c, s)) by {
            assert(angle(f, theta, i, j, dim, v) && fpu::coss(f, v, c) && fpu::sins(f, v, s));
        }
        let ghost cos_before = cos@;
        let ghost sin_before = sin@;
        cos.set(j, c);
        cos.set(j + half, c);
        sin.set(j, s);
        sin.set(j + half, s);
        proof {
            assert forall|q: int| 0 <= q < j + 1 implies #[trigger] cos@[q + half] == cos@[q] && sin@[q + half] == sin@[q] by {
                if q < j {
                    assert(cos_before[q + half] == cos_before[q]);
                    assert(sin@[q + half] == sin_before[q + half]);
                }
            }
        }
    }
    proof {
        assert forall|j: int| 0 <= j < dim as int / 2 implies #[trigger] cos@[j + dim as int / 2] == cos@[j] && sin@[j + dim
            as int / 2] == sin@[j] by {
            assert(cos@[j + half] == cos@[j]);
        }
    }
    (cos, sin)
}

/// Row `i` of the two tables belongs to position `i`.
pub open spec fn position_tables<F: Fpu>(
    f: &F,
    theta: u32,
    max_seq_len: usize,
    dim: usize,
    cos: NdArray<u32>,
    sin: NdArray<u32>,
) -> bool {
    &&& cos.wf()
    &&& sin.wf()
    &&& cos.shape@ == seq![1usize, 1usize, max_seq_len, dim]
    &&& sin.shape@ == seq![1usize, 1usize, max_seq_len, dim]
    &&& forall|i: int|
        0 <= i < max_seq_len ==> position_row(
            f,
            theta,
            i as usize,
            dim,
            #[trigger] matmul::flat_row(cos.data@, i, dim as int),
            matmul::flat_row(sin.data@, i, dim as int),
        )
}

fn precompute_freqs_cis<F: Fpu>(dim: usize, max_seq_len: usize, theta: u32, f: &F) -> (r: (NdArray<u32>, NdArray<u32>))
    requires
        dims::fits(seq![1usize, 1usize, max_seq_len, dim]),
    ensures
        position_tables(f, theta, max_seq_len, dim, r.0, r.1),
{
    let mut cos: Vec<u32> = Vec::new();
    let mut sin: Vec<u32> = Vec::new();
    assert(0 * dim == 0) by (nonlinear_arith);
    for i in 0..max_seq_len
        invariant
            cos@.len() == i * dim,
            sin@.len() == i * dim,
            forall|p: int|
                0 <= p < i ==> position_row(
                    f,
                    theta,
                    p as usize,
                    dim,
                    #[trigger] matmul::flat_row(cos@, p, dim as int),
                    matmul::flat_row(sin@, p, dim as int),
                ),
    {
        let (mut c, mut s) = position_values(theta, i, dim, f);
        let ghost cos_before = cos@;
        let ghost sin_before = sin@;
        let ghost cos_row = c@;
        let ghost sin_row = s@;
        cos.append(&mut c);
        sin.append(&mut s);
        proof {
            assert((i + 1) * dim == i * dim + dim) by (nonlinear_arith);
            assert forall|p: int| 0 <= p < i + 1 implies position_row(
                f,
                theta,
                p as usize,
                dim,
                #[trigger] matmul::flat_row(cos@, p, dim as int),
                matmul::flat_row(sin@, p, dim as int),
            ) by {
                if p < i {
                    activation::lemma_rows_stay(cos_before, cos_row, i as int, p, dim as int);
                    activation::lemma_rows_stay(sin_before, sin_row, i as int, p, dim as int);
                } else {
                    assert(matmul::flat_row(cos@, p, dim as int) =~= cos_row);
                    assert(matmul::flat_row(sin@, p, dim as int) =~= sin_row);
                }
            }
        }
    }
    let shape: Vec<usize> = vec![1, 1, max_seq_len, dim];
    let shape2: Vec<usize> = vec![1, 1, max_seq_len, dim];
    proof {
        assert(shape@ =~= seq![1usize, 1usize, max_seq_len, dim]);
        assert(shape2@ =~= shape@);
        lemma_table_size(max_seq_len, dim);
    }
    (NdArray { shape, data: cos }, NdArray { shape: shape2, data: sin })
}

pub proof fn lemma_table_size(rows: usize, dim: usize)
    ensures
        dims::product(seq![1usize, 1usize, rows, dim]) == rows * dim,
{
    matmul::lemma_product4(seq![1usize, 1usize, rows, dim]);
    let n = rows as int;
    let d = dim as int;
    assert((1 * 1) * (n * d) == n * d) by (nonlinear_arith);
}

/// `a * c - b * s`.
pub open spec fn turned_back<F: Fpu>(f: &F, a: u32, b: u32, c: u32, s: u32, r: u32) -> bool {
    exists|p: u32, q: u32| fpu::muls(f, a, c, p) && fpu::muls(f, b, s, q) && #[trigger] fpu::subs(f, p, q, r)
}

/// `a * c + b * s`.
pub open spec fn turned_forth<F: Fpu>(f: &F, a: u32, b: u32, c: u32, s: u32, r: u32) -> bool {
    exists|p: u32, q: u32| fpu::muls(f, a, c, p) && fpu::muls(f, b, s, q) && #[trigger] fpu::adds(f, p, q, r)
}

/// Computes `a * c - b * s`.
pub fn turn_back<F: Fpu>(a: u32, b: u32, c: u32, s: u32, f: &F) -> (r: u32)
    ensures
        turned_back(f, a, b, c, s, r),
{
    let p: u32 = f.mul(a, c);
    let q: u32 = f.mul(b, s);
    let r: u32 = f.sub(p, q);
    assert(fpu::muls(f, a, c, p) && fpu::muls(f, b, s, q) && fpu::subs(f, p, q, r));
    r
}

/// Computes `a * c + b * s`.
pub fn turn_forth<F: Fpu>(a: u32, b: u32, c: u32, s: u32, f: &F) -> (r: u32)
    ensures
        turned_forth(f, a, b, c, s, r),
{
    let p: u32 = f.mul(a, c);
    let q: u32 = f.mul(b, s);
    let r: u32 = f.add(p, q);
    assert(fpu::muls(f, a, c, p) && fpu::muls(f, b, s, q) && fpu::adds(f, p, q, r));
    r
}

/// The features of one token, rotated: `x1 * c - x2 * s` and `x2 * c + x1 * s`. A last
/// feature without a partner becomes `rest`.
pub open spec fn rotated<F: Fpu>(f: &F, x: Seq<u32>, cos: Seq<u32>, sin: Seq<u32>, rest: u32, y: Seq<u32>) -> bool {
    let half = x.len() as int / 2;
    &&& y.len() == x.len()
    &&& forall|j: int| 0 <= j < half ==> turned_back(f, x[j], x[j + half], cos[j], sin[j], #[trigger] y[j])
    &&& forall|j: int| 0 <= j < half ==> turned_forth(f, x[j + half], x[j], cos[j], sin[j], #[trigger] y[j + half])
    &&& x.len() % 2 == 1 ==> y[x.len() - 1] == rest
}

/// The gradient of one token, rotated the other way.
pub open spec fn rotated_back<F: Fpu>(f: &F, g: Seq<u32>, cos: Seq<u32>, sin: Seq<u32>, y: Seq<u32>) -> bool {
    let half = g.len() as int / 2;
    &&& y.len() == g.len()
    &&& forall|j: int| 0 <= j < half ==> turned_forth(f, g[j], g[j + half], cos[j], sin[j], #[trigger] y[j])
    &&& forall|j: int| 0 <= j < half ==> turned_back(f, g[j + half], g[j], cos[j], sin[j], #[trigger] y[j + half])
    &&& g.len() % 2 == 1 ==> y[g.len() - 1] == fpu::ZERO
}

fn rotate_into<F: Fpu>(x: &[u32], cos: &[u32], sin: &[u32], y: &mut Vec<u32>, f: &F)
    requires
        x@.len() == cos@.len() == sin@.len() == old(y)@.len(),
    ensures
        x@.len() % 2 == 1 ==> rotated(f, x@, cos@, sin@, old(y)@[x@.len() - 1], final(y)@),
        x@.len() % 2 == 0 ==> rotated(f, x@, cos@, sin@, fpu::ZERO, final(y)@),
{
    let d: usize = x.len();
    let half: usize = d / 2;
    let ghost start = y@;
    for j in 0..half
        invariant
            d == x@.len() == cos@.len() == sin@.len() == y@.len() == start.len(),
            half == d / 2,
            forall|q: int| 0 <= q < j ==> turned_back(f, x@[q], x@[q + half], cos@[q], sin@[q], #[trigger] y@[q]),
            forall|q: int| 0 <= q < j ==> turned_forth(f, x@[q + half], x@[q], cos@[q], sin@[q], #[trigger] y@[q + half]),
            d % 2 == 1 ==> y@[d - 1] == start[d - 1],
    {
        let a: u32 = turn_back(x[j], x[j + half], cos[j], sin[j], f);
        let b: u32 = turn_forth(x[j + half], x[j], cos[j], sin[j], f);
        let ghost before = y@;
        y.set(j, a);
        y.set(j + half, b);
        proof {
            assert forall|q: int| 0 <= q < j + 1 implies turned_forth(
                f,
                x@[q + half],
                x@[q],
                cos@[q],
                sin@[q],
                #[trigger] y@[q + half],
            ) by {
                if q < j {
                    assert(y@[q + half] == before[q + half]);
                }
            }
        }
    }
}

fn rotate_back<F: Fpu>(g: &[u32], cos: &[u32], sin: &[u32], f: &F) -> (y: Vec<u32>)
    requires
        g@.len() == cos@.len() == sin@.len(),
    ensures
        rotated_back(f, g@, cos@, sin@, y@),
{
    let d: usize = g.len();
    let half: usize = d / 2;
    let mut y: Vec<u32> = vec![fpu::ZERO; d];
    for j in 0..half
        invariant
            d == g@.len() == cos@.len() == sin@.len() == y@.len(),
            half == d / 2,
            forall|q: int| 0 <= q < j ==> turned_forth(f, g@[q], g@[q + half], cos@[q], sin@[q], #[trigger] y@[q]),
            forall|q: int| 0 <= q < j ==> turned_back(f, g@[q + half], g@[q], cos@[q], sin@[q], #[trigger] y@[q + half]),
            d % 2 == 1 ==> y@[d - 1] == fpu::ZERO,
    {
        let a: u32 = turn_forth(g[j], g[j + half], cos[j], sin[j], f);
        let b: u32 = turn_back(g[j + half], g[j], cos[j], sin[j], f);
        let ghost before = y@;
        y.set(j, a);
        y.set(j + half, b);
        proof {
            assert forall|q: int| 0 <= q < j + 1 implies turned_back(
                f,
                g@[q + half],
                g@[q],
                cos@[q],
                sin@[q],
                #[trigger] y@[q + half],
            ) by {
                if q < j {
                    assert(y@[q + half] == before[q + half]);
                }
            }
        }
    }
    y
}

/// Number of tokens in `[B, H, S, D]`, counted for each head.
pub open spec fn token_rows(shape: Seq<usize>) -> int {
    (shape[0] * shape[1]) * shape[2]
}

/// Each token of `r` is that of `x`, rotated for its position behind `offset`.
pub open spec fn all_rotated<F: Fpu>(
    f: &F,
    x: NdArray<u32>,
    cos: Seq<u32>,
    sin: Seq<u32>,
    offset: int,
    r: NdArray<u32>,
) -> bool {
    let d = x.shape@[3] as int;
    let s = x.shape@[2] as int;
    &&& r.wf()
    &&& r.shape@ == x.shape@
    &&& forall|i: int|
        0 <= i < token_rows(x.shape@) ==> rotated(
            f,
            matmul::flat_row(x.data@, i, d),
            matmul::flat_row(cos, offset + i % s, d),
            matmul::flat_row(sin, offset + i % s, d),
            fpu::ZERO,
            #[trigger] matmul::flat_row(r.data@, i, d),
        )
}

/// Each token of `r` is the gradient `g`, rotated back.
pub open spec fn all_rotated_back<F: Fpu>(
    f: &F,
    g: NdArray<u32>,
    cos: Seq<u32>,
    sin: Seq<u32>,
    offset: int,
    r: NdArray<u32>,
) -> bool {
    let d = g.shape@[3] as int;
    let s = g.shape@[2] as int;
    &&& r.wf()
    &&& r.shape@ == g.shape@
    &&& forall|i: int|
        0 <= i < token_rows(g.shape@) ==> rotated_back(
            f,
            matmul::flat_row(g.data@, i, d),
            matmul::flat_row(cos, offset + i % s, d),
            matmul::flat_row(sin, offset + i % s, d),
            #[trigger] matmul::flat_row(r.data@, i, d),
        )
}

/// A row of a list of rows.
pub fn row_slice<'a>(data: &'a Vec<u32>, i: usize, rows: usize, d: usize) -> (r: &'a [u32])
    requires
        i < rows,
        rows * d <= data@.len(),
    ensures
        r@ == matmul::flat_row(data@, i as int, d as int),
        r@.len() == d,
{
    let len: usize = data.len();
    proof {
        assert(0 <= i * d && i * d + d <= rows * d) by (nonlinear_arith)
            requires
                0 <= i < rows,
                d >= 0,
        ;
    }
    vstd::slice::slice_subrange(data.as_slice(), i * d, i * d + d)
}

/// Rotates every token, forth or back.
fn rotate_all<F: Fpu>(x: &NdArray<u32>, cos: &Vec<u32>, sin: &Vec<u32>, offset: usize, rows: usize, back: bool, f: &F) -> (r:
    NdArray<u32>)
    requires
        x.wf(),
        x.shape@.len() == 4,
        offset + x.shape@[2] <= rows,
        cos@.len() == rows * x.shape@[3],
        sin@.len() == rows * x.shape@[3],
    ensures
        !back ==> all_rotated(f, *x, cos@, sin@, offset as int, r),
        back ==> all_rotated_back(f, *x, cos@, sin@, offset as int, r),
{
    let d: usize = x.shape[3];
    let s: usize = x.shape[2];
    proof {
        matmul::lemma_product4(x.shape@);
        matmul::lemma_fits4(x.shape@);
        assert(0 * d == 0) by (nonlinear_arith);
    }
    let tokens: usize = (x.shape[0] * x.shape[1]) * s;
    let mut data: Vec<u32> = Vec::with_capacity(x.data.len());
    for i in 0..tokens
        invariant
            d == x.shape@[3],
            s == x.shape@[2],
            tokens == token_rows(x.shape@),
            x.data@.len() == tokens * d,
            offset + s <= rows,
            cos@.len() == rows * d,
            sin@.len() == rows * d,
            data@.len() == i * d,
            !back ==> forall|p: int|
                0 <= p < i ==> rotated(
                    f,
                    matmul::flat_row(x.data@, p, d as int),
                    matmul::flat_row(cos@, offset + p % s as int, d as int),
                    matmul::flat_row(sin@, offset + p % s as int, d as int),
                    fpu::ZERO,
                    #[trigger] matmul::flat_row(data@, p, d as int),
                ),
            back ==> forall|p: int|
                0 <= p < i ==> rotated_back(
                    f,
                    matmul::flat_row(x.data@, p, d as int),
                    matmul::flat_row(cos@, offset + p % s as int, d as int),
                    matmul::flat_row(sin@, offset + p % s as int, d as int),
                    #[trigger] matmul::flat_row(data@, p, d as int),
                ),
    {
        proof {
            assert(s > 0) by (nonlinear_arith)
                requires
                    i < tokens,
                    tokens == (x.shape@[0] * x.shape@[1]) * s,
                    s >= 0,
            ;
        }
        let pos: usize = offset + i % s;
        let xr = row_slice(&x.data, i, tokens, d);
        let cr = row_slice(cos, pos, rows, d);
        let sr = row_slice(sin, pos, rows, d);
        let mut y: Vec<u32> = vec![fpu::ZERO; d];
        if back {
            y = rotate_back(xr, cr, sr, f);
        } else {
            rotate_into(xr, cr, sr, &mut y, f);
        }
        let ghost before = data@;
        let ghost row = y@;
        data.append(&mut y);
        proof {
            assert((i + 1) * d == i * d + d) by (nonlinear_arith);
            assert(matmul::flat_row(data@, i as int, d as int) =~= row);
            assert forall|p: int| 0 <= p < i implies #[trigger] matmul::flat_row(data@, p, d as int) == matmul::flat_row(
                before,
                p,
                d as int,
            ) by {
                activation::lemma_rows_stay(before, row, i as int, p, d as int);
            }
        }
    }
    NdArray { shape: x.shape.clone(), data }
}

/// What a recorded rotation needs to send a gradient back.
pub struct RopeBackward {
    pub cos: Arc<NdArray<u32>>,
    pub sin: Arc<NdArray<u32>>,
    pub offset: usize,
}

impl RopeBackward {
    pub open spec fn suits(&self, out: Seq<usize>, operands: Seq<Seq<usize>>) -> bool {
        &&& self.cos.wf()
        &&& self.sin.wf()
        &&& out.len() == 4
        &&& self.cos.shape@.len() == 4
        &&& self.cos.shape@ == seq![1usize, 1usize, self.cos.shape@[2], out[3]]
        &&& self.sin.shape@ == self.cos.shape@
        &&& self.offset + out[2] <= self.cos.shape@[2]
        &&& operands == seq![out]
    }

    pub open spec fn sends<F: Fpu>(&self, f: &F, g: NdArray<u32>, r: NdArray<u32>) -> bool {
        all_rotated_back(f, g, self.cos.data@, self.sin.data@, self.offset as int, r)
    }

    pub fn gradient<F: Fpu>(&self, g: &NdArray<u32>, f: &F) -> (r: NdArray<u32>)
        requires
            g.wf(),
            self.suits(g.shape@, seq![g.shape@]),
        ensures
            self.sends(f, *g, r),
    {
        proof {
            lemma_table_size(self.cos.shape@[2], g.shape@[3]);
        }
        rotate_all(g, &self.cos.data, &self.sin.data, self.offset, self.cos.shape[2], true, f)
    }
}

impl RotaryEmbedding {
    /// Both tables have a row of `dim` values for each position.
    pub open spec fn wf(&self) -> bool {
        &&& self.cos_cache.wf()
        &&& self.sin_cache.wf()
        &&& self.cos_cache.spec_shape() == seq![1usize, 1usize, self.max_seq_len, self.dim]
        &&& self.sin_cache.spec_shape() == seq![1usize, 1usize, self.max_seq_len, self.dim]
        &&& self.cos_cache.spec_dtype().float()
        &&& self.sin_cache.spec_dtype() == self.cos_cache.spec_dtype()
    }

    /// Whether the tables are sound.
    pub fn is_sound(&self) -> (r: bool)
        ensures
            r == self.wf(),
    {
        let want: Vec<usize> = vec![1, 1, self.max_seq_len, self.dim];
        assert(want@ =~= seq![1usize, 1usize, self.max_seq_len, self.dim]);
        let cos: Vec<usize> = self.cos_cache.shape_vec();
        let sin: Vec<usize> = self.sin_cache.shape_vec();
        self.cos_cache.is_sound() && self.sin_cache.is_sound() && same_extents(&cos, &want) && same_extents(&sin, &want)
            && self.cos_cache.dtype().is_float() && self.sin_cache.dtype() == self.cos_cache.dtype()
    }

    /// The tables hold the cosines and sines for `theta`, in a precision.
    pub open spec fn holds<F: Fpu>(&self, f: &F, theta: u32, dtype: DType) -> bool {
        exists|c: NdArray<u32>, s: NdArray<u32>|
            #[trigger] position_tables(f, theta, self.max_seq_len, self.dim, c, s) && autograd::stored_as(
                f,
                c,
                dtype,
                self.cos_cache.storage,
            ) && autograd::stored_as(f, s, dtype, self.sin_cache.storage)
    }

    /// Tables in the precision of runtime buffers.
    pub fn new<F: Fpu>(dim: usize, max_seq_len: usize, theta: u32, precision: &PrecisionConfig, f: &F) -> (r: Result<
        RotaryEmbedding,
        RopeError,
    >)
        requires
            dims::fits(seq![1usize, 1usize, max_seq_len, dim]),
        ensures
            r is Ok <==> precision.runtime_dtype.float(),
            r matches Err(e) ==> e == RopeError::NotFloat,
            r matches Ok(rope) ==> rope.wf() && rope.dim == dim && rope.max_seq_len == max_seq_len && rope.holds(
                f,
                theta,
                precision.runtime_dtype,
            ),
    {
        RotaryEmbedding::new_with_dtype(dim, max_seq_len, theta, precision.runtime_dtype, f)
    }

    /// Tables in the given precision, which is one of floating-point numbers.
    pub fn new_with_dtype<F: Fpu>(dim: usize, max_seq_len: usize, theta: u32, dtype: DType, f: &F) -> (r: Result<
        RotaryEmbedding,
        RopeError,
    >)
        requires
            dims::fits(seq![1usize, 1usize, max_seq_len, dim]),
        ensures
            r is Ok <==> dtype.float(),
            r matches Err(e) ==> e == RopeError::NotFloat,
            r matches Ok(rope) ==> rope.wf() && rope.dim == dim && rope.max_seq_len == max_seq_len && rope.holds(
                f,
                theta,
                dtype,
            ),
    {
        if !dtype.is_float() {
            return Err(RopeError::NotFloat);
        }
        let (cos, sin) = precompute_freqs_cis(dim, max_seq_len, theta, f);
        assert(position_tables(f, theta, max_seq_len, dim, cos, sin));
        let cos_cache = Tensor::from_single_no_grad(f, Arc::new(cos), dtype);
        let sin_cache = Tensor::from_single_no_grad(f, Arc::new(sin), dtype);
        Ok(RotaryEmbedding { dim, max_seq_len, cos_cache, sin_cache })
    }

    pub fn cache_dtype(&self) -> (d: DType)
        ensures
            d == self.cos_cache.spec_dtype(),
    {
        self.cos_cache.dtype()
    }

    /// What is wrong with rotating a tensor of these extents behind `offset`.
    pub open spec fn forward_error(&self, shape: Seq<usize>, offset: int) -> Option<RopeError> {
        if shape.len() != 4 {
            Some(RopeError::NotFourDimensional)
        } else if shape[3] != self.dim {
            Some(RopeError::DimMismatch)
        } else if offset + shape[2] > self.max_seq_len {
            Some(RopeError::OutOfRange)
        } else {
            None
        }
    }

    /// `s` holds the tokens of `x`, rotated, in a precision.
    pub open spec fn rotated_storage<F: Fpu>(
        &self,
        f: &F,
        x: TensorStorage,
        offset: int,
        dtype: DType,
        s: TensorStorage,
    ) -> bool {
        exists|a: NdArray<u32>, c: NdArray<u32>, n: NdArray<u32>, b: NdArray<u32>|
            autograd::reads_as(f, x, a) && autograd::reads_as(f, self.cos_cache.storage, c) && autograd::reads_as(
                f,
                self.sin_cache.storage,
                n,
            ) && #[trigger] all_rotated(f, a, c.data@, n.data@, offset, b) && #[trigger] autograd::stored_as(f, b, dtype, s)
                && #[trigger] same_tables(c, n)
    }

    /// The rotated tokens, recorded if they are to be differentiated.
    pub open spec fn rope_result<F: Fpu>(&self, f: &F, x: Tensor, offset: int, mode: GradMode, t: Tensor) -> bool {
        &&& t.wf()
        &&& t.spec_shape() == x.spec_shape()
        &&& t.grad is None
        &&& if mode.no_grad() || !x.requires_grad {
            t.is_leaf(t.storage, false) && self.rotated_storage(
                f,
                x.storage,
                offset,
                activation::softmax_dtype(x.spec_dtype()),
                t.storage,
            )
        } else {
            &&& t.requires_grad
            &&& self.rotated_storage(f, x.storage, offset, DType::F32, t.storage)
            &&& t.op matches Some(op) && *op matches BackwardOp::Rope(back) && back.offset == offset && back.suits(
                t.spec_shape(),
                seq![x.spec_shape()],
            ) && autograd::reads_as(f, self.cos_cache.storage, *back.cos) && autograd::reads_as(
                f,
                self.sin_cache.storage,
                *back.sin,
            )
        }
    }

    /// Rotates the tokens of `x[B, H, S, D]`, the first of which stands at `offset`.
    /// Where nothing is recorded, the precision stays, unless it is that of bytes.
    pub fn forward<F: Fpu>(&self, x: &Tensor, offset: usize, mode: &GradMode, f: &F) -> (r: Result<Tensor, RopeError>)
        requires
            self.wf(),
            x.wf(),
        ensures
            match self.forward_error(x.spec_shape(), offset as int) {
                Some(e) => r == Err::<Tensor, RopeError>(e),
                None => r matches Ok(t) && self.rope_result(f, *x, offset as int, *mode, t),
            },
    {
        let shape: Vec<usize> = x.shape_vec();
        if shape.len() != 4 {
            return Err(RopeError::NotFourDimensional);
        }
        if shape[3] != self.dim {
            return Err(RopeError::DimMismatch);
        }
        match offset.checked_add(shape[2]) {
            None => {
                return Err(RopeError::OutOfRange);
            },
            Some(end) => {
                if end > self.max_seq_len {
                    return Err(RopeError::OutOfRange);
                }
            },
        }
        let a = x.data_arc(f);
        let c = self.cos_cache.data_arc(f);
        let n = self.sin_cache.data_arc(f);
        proof {
            lemma_table_size(self.max_seq_len, self.dim);
        }
        let b = Arc::new(rotate_all(&a, &c.data, &n.data, offset, self.max_seq_len, false, f));
        assert(all_rotated(f, *a, c.data@, n.data@, offset as int, *b) && same_tables(*c, *n));
        if is_no_grad(mode) || !x.requires_grad() {
            let dtype: DType = if x.dtype().is_float() { x.dtype() } else { DType::F32 };
            return Ok(Tensor::from_single_no_grad(f, b, dtype));
        }
        assert(seq![x.spec_shape()] =~= seq![b.shape@]);
        let op = BackwardOp::Rope(RopeBackward { cos: c, sin: n, offset });
        let t = Tensor { storage: TensorStorage::F32(b), grad: None, op: Some(Arc::new(op)), requires_grad: true };
        assert(autograd::stored_as(f, *b, DType::F32, t.storage));
        Ok(t)
    }

    /// Rotates the features of a single token at a position.
    pub fn rope_1token_copy<F: Fpu>(&self, src: &[u32], dst: &mut Vec<u32>, pos: usize, f: &F) -> (r: Result<(), RopeError>)
        requires
            self.wf(),
        ensures
            match self.token_error(src@.len() as int, old(dst)@.len() as int, pos as int) {
                Some(e) => r == Err::<(), RopeError>(e) && final(dst)@ == old(dst)@,
                None => r is Ok && self.token_rotated(f, src@, old(dst)@, pos as int, final(dst)@),
            },
    {
        if src.len() != self.dim {
            return Err(RopeError::SourceLength);
        }
        if dst.len() != self.dim {
            return Err(RopeError::TargetLength);
        }
        if pos >= self.max_seq_len {
            return Err(RopeError::OutOfRange);
        }
        let c = self.cos_cache.data_arc(f);
        let n = self.sin_cache.data_arc(f);
        proof {
            lemma_table_size(self.max_seq_len, self.dim);
        }
        let cr = row_slice(&c.data, pos, self.max_seq_len, self.dim);
        let sr = row_slice(&n.data, pos, self.max_seq_len, self.dim);
        rotate_into(src, cr, sr, dst, f);
        assert(same_tables(*c, *n));
        Ok(())
    }

    pub open spec fn token_error(&self, src: int, dst: int, pos: int) -> Option<RopeError> {
        if src != self.dim {
            Some(RopeError::SourceLength)
        } else if dst != self.dim {
            Some(RopeError::TargetLength)
        } else if pos >= self.max_seq_len {
            Some(RopeError::OutOfRange)
        } else {
            None
        }
    }

    /// A last feature without a partner stays what it was in the target.
    pub open spec fn token_rotated<F: Fpu>(&self, f: &F, src: Seq<u32>, before: Seq<u32>, pos: int, after: Seq<u32>) -> bool {
        let d = self.dim as int;
        exists|c: NdArray<u32>, n: NdArray<u32>|
            autograd::reads_as(f, self.cos_cache.storage, c) && autograd::reads_as(f, self.sin_cache.storage, n)
                && #[trigger] same_tables(c, n) && rotated(
                f,
                src,
                matmul::flat_row(c.data@, pos, d),
                matmul::flat_row(n.data@, pos, d),
                if d % 2 == 1 {
                    before[d - 1]
                } else {
                    fpu::ZERO
                },
                after,
            )
    }

    /// The cosines and sines of a position.
    pub fn cos_sin_row_vec<F: Fpu>(&self, pos: usize, f: &F) -> (r: Result<(Vec<u32>, Vec<u32>), RopeError>)
        requires
            self.wf(),
        ensures
            r is Ok <==> pos < self.max_seq_len,
            r matches Err(e) ==> e == RopeError::OutOfRange,
            r matches Ok(v) ==> row_read(f, self.cos_cache.storage, pos as int, self.dim as int, v.0@) && row_read(
                f,
                self.sin_cache.storage,
                pos as int,
                self.dim as int,
                v.1@,
            ),
    {
        if pos >= self.max_seq_len {
            return Err(RopeError::OutOfRange);
        }
        let c = self.cos_cache.data_arc(f);
        let n = self.sin_cache.data_arc(f);
        proof {
            lemma_table_size(self.max_seq_len, self.dim);
        }
        let cr = row_slice(&c.data, pos, self.max_seq_len, self.dim);
        let sr = row_slice(&n.data, pos, self.max_seq_len, self.dim);
        let cos: Vec<u32> = copy_slice(cr);
        let sin: Vec<u32> = copy_slice(sr);
        assert(autograd::reads_as(f, self.cos_cache.storage, *c) && autograd::reads_as(f, self.sin_cache.storage, *n));
        Ok((cos, sin))
    }
}

/// Two tables of the same extents.
pub open spec fn same_tables(c: NdArray<u32>, n: NdArray<u32>) -> bool {
    c.shape@ == n.shape@
}

/// `row` is a row of what is stored, in single precision.
pub open spec fn row_read<F: Fpu>(f: &F, s: TensorStorage, pos: int, dim: int, row: Seq<u32>) -> bool {
    exists|a: NdArray<u32>| #[trigger] autograd::reads_as(f, s, a) && row == matmul::flat_row(a.data@, pos, dim)
}

/// A copy of a slice.
pub fn copy_slice(s: &[u32]) -> (v: Vec<u32>)
    ensures
        v@ == s@,
{
    let mut v: Vec<u32> = Vec::with_capacity(s.len());
    for i in 0..s.len()
        invariant
            v@ == s@.take(i as int),
    {
        v.push(s[i]);
        assert(v@ =~= s@.take(i + 1));
    }
    assert(v@ =~= s@);
    v
}

/// Two turns of the same pair by the same angle are the same.
proof fn lemma_one_rotation<F: Fpu>(
    f: &F,
    x: Seq<u32>,
    cos: Seq<u32>,
    sin: Seq<u32>,
    rest: u32,
    y: Seq<u32>,
    z: Seq<u32>,
)
    requires
        fpu::fixed_answers(f),
        rotated(f, x, cos, sin, rest, y),
        rotated(f, x, cos, sin, rest, z),
    ensures
        y == z,
{
    let half = x.len() as int / 2;
    assert forall|j: int| 0 <= j < x.len() implies #[trigger] y[j] == z[j] by {
        if j < half {
            assert(turned_back(f, x[j], x[j + half], cos[j], sin[j], y[j]));
            assert(turned_back(f, x[j], x[j + half], cos[j], sin[j], z[j]));
        } else if j < 2 * half {
            let k = j - half;
            assert(turned_forth(f, x[k + half], x[k], cos[k], sin[k], y[k + half]));
            assert(turned_forth(f, x[k + half], x[k], cos[k], sin[k], z[k + half]));
        }
    }
    assert(y =~= z);
}

/// A single token is rotated in one way.
pub proof fn lemma_one_token<F: Fpu>(
    rope: RotaryEmbedding,
    f: &F,
    src: Seq<u32>,
    before: Seq<u32>,
    pos: int,
    after: Seq<u32>,
    other: Seq<u32>,
)
    requires
        fpu::fixed_answers(f),
        src.len() == rope.dim,
        rope.token_rotated(f, src, before, pos, after),
        rope.token_rotated(f, src, before, pos, other),
    ensures
        after == other,
{
    let d = rope.dim as int;
    let rest = if d % 2 == 1 {
        before[d - 1]
    } else {
        fpu::ZERO
    };
    let (c, n) = choose|c: NdArray<u32>, n: NdArray<u32>|
        autograd::reads_as(f, rope.cos_cache.storage, c) && autograd::reads_as(f, rope.sin_cache.storage, n)
            && #[trigger] same_tables(c, n) && rotated(
            f,
            src,
            matmul::flat_row(c.data@, pos, d),
            matmul::flat_row(n.data@, pos, d),
            rest,
            after,
        );
    let (c2, n2) = choose|c: NdArray<u32>, n: NdArray<u32>|
        autograd::reads_as(f, rope.cos_cache.storage, c) && autograd::reads_as(f, rope.sin_cache.storage, n)
            && #[trigger] same_tables(c, n) && rotated(
            f,
            src,
            matmul::flat_row(c.data@, pos, d),
            matmul::flat_row(n.data@, pos, d),
            rest,
            other,
        );
    fixed::lemma_one_reading(f, rope.cos_cache.storage, &c, &c2);
    fixed::lemma_one_reading(f, rope.sin_cache.storage, &n, &n2);
    lemma_one_rotation(
        f,
        src,
        matmul::flat_row(c.data@, pos, d),
        matmul::flat_row(n.data@, pos, d),
        rest,
        after,
        other,
    );
}

/// What becomes of one token of a tensor in single precision.
pub proof fn lemma_token_of_pass<F: Fpu>(
    rope: RotaryEmbedding,
    f: &F,
    x: Tensor,
    offset: int,
    mode: GradMode,
    t: Tensor,
    row: int,
    cos: &NdArray<u32>,
    sin: &NdArray<u32>,
)
    requires
        fpu::fixed_answers(f),
        x.storage is F32,
        x.spec_shape().len() == 4,
        rope.rope_result(f, x, offset, mode, t),
        0 <= row < token_rows(x.spec_shape()),
        autograd::reads_as(f, rope.cos_cache.storage, *cos),
        autograd::reads_as(f, rope.sin_cache.storage, *sin),
    ensures
        t.storage is F32,
        rotated(
            f,
            matmul::flat_row(x.storage->F32_0.data@, row, x.spec_shape()[3] as int),
            matmul::flat_row(cos.data@, offset + row % x.spec_shape()[2] as int, x.spec_shape()[3] as int),
            matmul::flat_row(sin.data@, offset + row % x.spec_shape()[2] as int, x.spec_shape()[3] as int),
            fpu::ZERO,
            matmul::flat_row(t.storage->F32_0.data@, row, x.spec_shape()[3] as int),
        ),
{
    let (a, c, n, b) = choose|a: NdArray<u32>, c: NdArray<u32>, n: NdArray<u32>, b: NdArray<u32>|
        autograd::reads_as(f, x.storage, a) && autograd::reads_as(f, rope.cos_cache.storage, c) && autograd::reads_as(
            f,
            rope.sin_cache.storage,
            n,
        ) && #[trigger] all_rotated(f, a, c.data@, n.data@, offset, b) && #[trigger] autograd::stored_as(
            f,
            b,
            DType::F32,
            t.storage,
        ) && #[trigger] same_tables(c, n);
    fixed::lemma_one_reading(f, rope.cos_cache.storage, &c, cos);
    fixed::lemma_one_reading(f, rope.sin_cache.storage, &n, sin);
    let d = x.spec_shape()[3] as int;
    assert(rotated(
        f,
        matmul::flat_row(a.data@, row, d),
        matmul::flat_row(c.data@, offset + row % x.spec_shape()[2] as int, d),
        matmul::flat_row(n.data@, offset + row % x.spec_shape()[2] as int, d),
        fpu::ZERO,
        matmul::flat_row(b.data@, row, d),
    ));
}

/// Where the processor answers alike, tokens with the same features at the same position
/// are rotated alike, in whichever tensor they stand.
pub proof fn law_position_alone_rotates<F: Fpu>(
    rope: RotaryEmbedding,
    f: &F,
    x: Tensor,
    offset: int,
    mode: GradMode,
    t: Tensor,
    row: int,
    other: Tensor,
    other_offset: int,
    other_t: Tensor,
    other_row: int,
)
    requires
        fpu::fixed_answers(f),
        rope.wf(),
        x.storage is F32,
        other.storage is F32,
        x.spec_shape().len() == 4,
        other.spec_shape().len() == 4,
        x.spec_shape()[3] == rope.dim,
        other.spec_shape()[3] == rope.dim,
        rope.rope_result(f, x, offset, mode, t),
        rope.rope_result(f, other, other_offset, mode, other_t),
        0 <= row < token_rows(x.spec_shape()),
        0 <= other_row < token_rows(other.spec_shape()),
        offset + row % x.spec_shape()[2] as int == other_offset + other_row % other.spec_shape()[2] as int,
        matmul::flat_row(x.storage->F32_0.data@, row, rope.dim as int) == matmul::flat_row(
            other.storage->F32_0.data@,
            other_row,
            rope.dim as int,
        ),
    ensures
        t.storage is F32,
        other_t.storage is F32,
        matmul::flat_row(t.storage->F32_0.data@, row, rope.dim as int) == matmul::flat_row(
            other_t.storage->F32_0.data@,
            other_row,
            rope.dim as int,
        ),
{
    let d = rope.dim as int;
    let (a, c, n, b) = choose|a: NdArray<u32>, c: NdArray<u32>, n: NdArray<u32>, b: NdArray<u32>|
        autograd::reads_as(f, x.storage, a) && autograd::reads_as(f, rope.cos_cache.storage, c) && autograd::reads_as(
            f,
            rope.sin_cache.storage,
            n,
        ) && #[trigger] all_rotated(f, a, c.data@, n.data@, offset, b) && #[trigger] autograd::stored_as(
            f,
            b,
            DType::F32,
            t.storage,
        ) && #[trigger] same_tables(c, n);
    lemma_token_of_pass(rope, f, x, offset, mode, t, row, &c, &n);
    lemma_token_of_pass(rope, f, other, other_offset, mode, other_t, other_row, &c, &n);
    let pos = offset + row % x.spec_shape()[2] as int;
    lemma_one_rotation(
        f,
        matmul::flat_row(x.storage->F32_0.data@, row, d),
        matmul::flat_row(c.data@, pos, d),
        matmul::flat_row(n.data@, pos, d),
        fpu::ZERO,
        matmul::flat_row(t.storage->F32_0.data@, row, d),
        matmul::flat_row(other_t.storage->F32_0.data@, other_row, d),
    );
}

/// Where the processor answers alike, a single token is rotated alike in both ways: what
/// `rope_1token_copy` makes of the features of one token of a tensor in single precision is
/// what `forward` makes of them; a last feature without a partner has to meet a zero. Both
/// refuse the same positions.
pub proof fn law_single_token_rotates_alike<F: Fpu>(
    rope: RotaryEmbedding,
    f: &F,
    x: Tensor,
    offset: int,
    mode: GradMode,
    t: Tensor,
    row: int,
    before: Seq<u32>,
    after: Seq<u32>,
)
    requires
        fpu::fixed_answers(f),
        rope.wf(),
        x.wf(),
        x.storage is F32,
        0 <= offset,
        rope.forward_error(x.spec_shape(), offset) is None,
        rope.rope_result(f, x, offset, mode, t),
        0 <= row < token_rows(x.spec_shape()),
        before.len() == rope.dim,
        rope.dim % 2 == 1 ==> before[rope.dim - 1] == fpu::ZERO,
        rope.token_rotated(
            f,
            matmul::flat_row(x.storage->F32_0.data@, row, rope.dim as int),
            before,
            offset + row % x.spec_shape()[2] as int,
            after,
        ),
    ensures
        t.storage is F32,
        matmul::flat_row(t.storage->F32_0.data@, row, rope.dim as int) == after,
        forall|pos: int|
            0 <= pos ==> #[trigger] rope.token_error(rope.dim as int, rope.dim as int, pos) == rope.forward_error(
                seq![1usize, 1usize, 1usize, rope.dim],
                pos,
            ),
{
    let d = rope.dim as int;
    let pos = offset + row % x.spec_shape()[2] as int;
    let (a, c, n, b) = choose|a: NdArray<u32>, c: NdArray<u32>, n: NdArray<u32>, b: NdArray<u32>|
        autograd::reads_as(f, x.storage, a) && autograd::reads_as(f, rope.cos_cache.storage, c) && autograd::reads_as(
            f,
            rope.sin_cache.storage,
            n,
        ) && #[trigger] all_rotated(f, a, c.data@, n.data@, offset, b) && #[trigger] autograd::stored_as(
            f,
            b,
            DType::F32,
            t.storage,
        ) && #[trigger] same_tables(c, n);
    let src = matmul::flat_row(a.data@, row, d);
    let rest = if d % 2 == 1 {
        before[d - 1]
    } else {
        fpu::ZERO
    };
    let (c2, n2) = choose|c: NdArray<u32>, n: NdArray<u32>|
        autograd::reads_as(f, rope.cos_cache.storage, c) && autograd::reads_as(f, rope.sin_cache.storage, n)
            && #[trigger] same_tables(c, n) && rotated(
            f,
            src,
            matmul::flat_row(c.data@, pos, d),
            matmul::flat_row(n.data@, pos, d),
            rest,
            after,
        );
    fixed::lemma_one_reading(f, rope.cos_cache.storage, &c, &c2);
    fixed::lemma_one_reading(f, rope.sin_cache.storage, &n, &n2);
    assert(rotated(
        f,
        src,
        matmul::flat_row(c.data@, pos, d),
        matmul::flat_row(n.data@, pos, d),
        fpu::ZERO,
        matmul::flat_row(b.data@, row, d),
    ));
    lemma_one_rotation(
        f,
        src,
        matmul::flat_row(c.data@, pos, d),
        matmul::flat_row(n.data@, pos, d),
        fpu::ZERO,
        matmul::flat_row(b.data@, row, d),
        after,
    );
}

/// The same number: a zero may have another sign.
pub open spec fn same_number(a: u32, b: u32) -> bool {
    a == b || float_bits::is_zero(a) && float_bits::is_zero(b)
}

/// Zero and one behave as they do in IEEE 754, and the angle zero has the cosine one and the
/// sine zero.
pub open spec fn zero_turns_nothing<F: Fpu>(f: &F) -> bool {
    &&& forall|n: u32| #[trigger] fpu::counts(f, 0, n) ==> n == fpu::ZERO
    &&& forall|a: u32, r: u32|
        float_bits::is_finite(a) && #[trigger] fpu::muls(f, fpu::ZERO, a, r) ==> float_bits::is_zero(r)
    &&& forall|a: u32, z: u32, r: u32|
        float_bits::is_finite(a) && float_bits::is_zero(z) && #[trigger] fpu::muls(f, a, z, r) ==> float_bits::is_zero(r)
    &&& forall|a: u32, r: u32| float_bits::is_finite(a) && #[trigger] fpu::muls(f, a, fpu::ONE, r) ==> r == a
    &&& forall|z: u32, r: u32| float_bits::is_zero(z) && #[trigger] fpu::coss(f, z, r) ==> r == fpu::ONE
    &&& forall|z: u32, r: u32| float_bits::is_zero(z) && #[trigger] fpu::sins(f, z, r) ==> float_bits::is_zero(r)
    &&& forall|a: u32, z: u32, r: u32|
        float_bits::is_finite(a) && float_bits::is_zero(z) && #[trigger] fpu::adds(f, a, z, r) ==> same_number(a, r)
    &&& forall|a: u32, z: u32, r: u32|
        float_bits::is_finite(a) && float_bits::is_zero(z) && #[trigger] fpu::subs(f, a, z, r) ==> same_number(a, r)
}

/// All frequencies for `theta` are finite.
pub open spec fn frequencies_finite<F: Fpu>(f: &F, theta: u32, dim: usize) -> bool {
    forall|j: usize, q: u32| #[trigger] frequency(f, theta, j, dim, q) ==> float_bits::is_finite(q)
}

/// Where zero turns nothing, a token at the first position keeps its features: those of a
/// tensor in single precision, with tables in single precision, all of them finite.
pub proof fn law_first_position_stays<F: Fpu>(
    rope: RotaryEmbedding,
    f: &F,
    theta: u32,
    x: Tensor,
    offset: int,
    mode: GradMode,
    t: Tensor,
    row: int,
    c: int,
)
    requires
        fpu::fixed_answers(f),
        zero_turns_nothing(f),
        rope.wf(),
        rope.holds(f, theta, DType::F32),
        frequencies_finite(f, theta, rope.dim),
        rope.dim % 2 == 0,
        x.wf(),
        x.storage is F32,
        0 <= offset,
        rope.forward_error(x.spec_shape(), offset) is None,
        rope.rope_result(f, x, offset, mode, t),
        0 <= row < token_rows(x.spec_shape()),
        offset + row % x.spec_shape()[2] as int == 0,
        forall|j: int|
            0 <= j < rope.dim ==> float_bits::is_finite(
                #[trigger] matmul::flat_row(x.storage->F32_0.data@, row, rope.dim as int)[j],
            ),
        0 <= c < rope.dim,
    ensures
        t.storage is F32,
        same_number(
            matmul::flat_row(x.storage->F32_0.data@, row, rope.dim as int)[c],
            matmul::flat_row(t.storage->F32_0.data@, row, rope.dim as int)[c],
        ),
{
    let d = rope.dim as int;
    let half = d / 2;
    let (cos, sin) = choose|c: NdArray<u32>, s: NdArray<u32>|
        #[trigger] position_tables(f, theta, rope.max_seq_len, rope.dim, c, s) && autograd::stored_as(
            f,
            c,
            DType::F32,
            rope.cos_cache.storage,
        ) && autograd::stored_as(f, s, DType::F32, rope.sin_cache.storage);
    lemma_token_of_pass(rope, f, x, offset, mode, t, row, &cos, &sin);
    let cr = matmul::flat_row(cos.data@, 0, d);
    let sr = matmul::flat_row(sin.data@, 0, d);
    assert(row % x.spec_shape()[2] as int >= 0);
    assert(offset == 0 && row % x.spec_shape()[2] as int == 0);
    assert(x.spec_shape()[2] > 0) by {
        if x.spec_shape()[2] == 0 {
            assert(token_rows(x.spec_shape()) == 0) by (nonlinear_arith)
                requires
                    token_rows(x.spec_shape()) == (x.spec_shape()[0] * x.spec_shape()[1]) * 0,
            ;
        }
    }
    assert(rope.max_seq_len > 0);
    assert(position_row(f, theta, 0, rope.dim, cr, sr));
    assert forall|j: int| 0 <= j < half implies #[trigger] cr[j] == fpu::ONE && float_bits::is_zero(sr[j]) by {
        assert(angle_pair(f, theta, 0, j as usize, rope.dim, cr[j], sr[j]));
        let v = choose|v: u32| #[trigger]
            angle(f, theta, 0, j as usize, rope.dim, v) && fpu::coss(f, v, cr[j]) && fpu::sins(f, v, sr[j]);
        let (n, q) = choose|n: u32, q: u32|
            fpu::counts(f, 0, n) && frequency(f, theta, j as usize, rope.dim, q) && #[trigger] fpu::muls(f, n, q, v);
        assert(float_bits::is_zero(v));
    }
    let xs = matmul::flat_row(x.storage->F32_0.data@, row, d);
    let ys = matmul::flat_row(t.storage->F32_0.data@, row, d);
    let total = token_rows(x.spec_shape());
    matmul::lemma_product4(x.spec_shape());
    assert(0 <= row * d && row * d + d <= total * d) by (nonlinear_arith)
        requires
            0 <= row < total,
            0 <= d,
    ;
    assert(xs.len() == d);
    if c < half {
        assert(cr[c] == fpu::ONE);
        assert(turned_back(f, xs[c], xs[c + half], cr[c], sr[c], ys[c]));
        let (p, q) = choose|p: u32, q: u32|
            fpu::muls(f, xs[c], cr[c], p) && fpu::muls(f, xs[c + half], sr[c], q) && #[trigger] fpu::subs(f, p, q, ys[c]);
        assert(float_bits::is_finite(xs[c]) && float_bits::is_finite(xs[c + half]));
    } else {
        let j = c - half;
        assert(cr[j] == fpu::ONE);
        assert(turned_forth(f, xs[j + half], xs[j], cr[j], sr[j], ys[j + half]));
        let (p, q) = choose|p: u32, q: u32|
            fpu::muls(f, xs[j + half], cr[j], p) && fpu::muls(f, xs[j], sr[j], q) && #[trigger] fpu::adds(
                f,
                p,
                q,
                ys[j + half],
            );
        assert(float_bits::is_finite(xs[j]) && float_bits::is_finite(xs[j + half]));
    }
}

} // verus!
