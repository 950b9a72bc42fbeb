use crate::array::NdArray;
use crate::autograd;
use crate::autograd::{is_no_grad, BackwardOp, GradMode, Tensor, TensorStorage};
use crate::fpu;
use crate::fpu::Fpu;
use crate::layers::activation;
use crate::ops::matmul;
use crate::ops::rows;
use crate::ops::rows::exponentiate;
use crate::precision::DType;
use std::sync::Arc;
use vstd::prelude::*;

pub use crate::ops::projection::{
    fused_gate_up_silu_infer, fused_gate_up_silu_infer_into, fused_qkv_decode_infer, fused_qkv_decode_infer_into,
};

verus! {

/// What is added to the sum of a row before it divides: `1e-10`.
pub const SUM_FLOOR: u32 = 0x2edb_e6ff;

/// A softmax over attention scores takes `[B, H, Q, K]`.
#[derive(Clone, Copy, Debug, PartialEq, Eq, Structural)]
pub struct ScoresNotFourDimensional {}

/// How many keys a query sees: with a causal mask, and more than one query, those up
/// to its own position.
pub open spec fn visible_keys(q: int, q_len: int, k_len: int, causal: bool) -> int {
    if causal && q_len > 1 && q + 1 < k_len {
        q + 1
    } else {
        k_len
    }
}

/// `ys` is the softmax of the first elements, each times a factor; the others are
/// masked out. The sum of the exponentials is raised by a little before it divides.
pub open spec fn masked_softmax<F: Fpu>(f: &F, xs: Seq<u32>, scale: u32, visible: int, floor: u32, ys: Seq<u32>) -> bool {
    &&& ys.len() == xs.len()
    &&& exists|scaled: Seq<u32>, es: Seq<u32>, total: u32, raised: u32, inv: u32|
        #[trigger] rows::scaled_by(f, xs.take(visible), scale, scaled) && #[trigger] rows::exponentials(f, scaled, es, total)
            && #[trigger] fpu::adds(f, total, floor, raised) && #[trigger] fpu::divs(f, fpu::ONE, raised, inv)
            && weighted(f, es, inv, ys)
}

/// The exponentials times a factor, and zero times it where there is none.
pub open spec fn weighted<F: Fpu>(f: &F, es: Seq<u32>, inv: u32, ys: Seq<u32>) -> bool {
    forall|j: int|
        0 <= j < ys.len() ==> fpu::muls(
            f,
            if j < es.len() {
                es[j]
            } else {
                fpu::ZERO
            },
            inv,
            #[trigger] ys[j],
        )
}

/// The softmax of the first elements of a row, with the others masked out.
pub fn masked_softmax_row<F: Fpu>(xs: &[u32], scale: u32, visible: usize, floor: u32, f: &F) -> (ys: Vec<u32>)
    requires
        visible <= xs@.len(),
    ensures
        masked_softmax(f, xs@, scale, visible as int, floor, ys@),
{
    let mut scaled: Vec<u32> = Vec::with_capacity(visible);
    for j in 0..visible
        invariant
            visible <= xs@.len(),
            scaled@.len() == j,
            forall|i: int| 0 <= i < j ==> fpu::muls(f, xs@[i], scale, #[trigger] scaled@[i]),
    {
        scaled.push(f.mul(xs[j], scale));
    }
    assert(rows::scaled_by(f, xs@.take(visible as int), scale, scaled@));
    let (es, total) = exponentiate(scaled.as_slice(), f);
    let raised: u32 = f.add(total, floor);
    let inv: u32 = f.div(fpu::ONE, raised);
    assert(fpu::adds(f, total, floor, raised) && fpu::divs(f, fpu::ONE, raised, inv));
    let mut ys: Vec<u32> = Vec::with_capacity(xs.len());
    for j in 0..xs.len()
        invariant
            es@.len() == visible,
            visible <= xs@.len(),
            ys@.len() == j,
            forall|i: int|
                0 <= i < j ==> fpu::muls(
                    f,
                    if i < es@.len() {
                        es@[i]
                    } else {
                        fpu::ZERO
                    },
                    inv,
                    #[trigger] ys@[i],
                ),
    {
        let e: u32 = if j < visible { es[j] } else { fpu::ZERO };
        ys.push(f.mul(e, inv));
    }
    assert(weighted(f, es@, inv, ys@));
    ys
}

/// Number of rows in `[B, H, Q, K]`.
pub open spec fn score_rows(shape: Seq<usize>) -> int {
    (shape[0] * shape[1]) * shape[2]
}

/// Each row of `r` is the masked softmax of the row of `x`.
pub open spec fn scores_softmaxed<F: Fpu>(f: &F, x: NdArray<u32>, scale: u32, causal: bool, r: NdArray<u32>) -> bool {
    let q_len = x.shape@[2] as int;
    let k_len = x.shape@[3] as int;
    &&& r.wf()
    &&& r.shape@ == x.shape@
    &&& forall|i: int|
        0 <= i < score_rows(x.shape@) ==> masked_softmax(
            f,
            matmul::flat_row(x.data@, i, k_len),
            scale,
            visible_keys(i % q_len, q_len, k_len, causal),
            SUM_FLOOR,
            #[trigger] matmul::flat_row(r.data@, i, k_len),
        )
}

fn softmax_scores<F: Fpu>(x: &NdArray<u32>, scale: u32, causal: bool, f: &F) -> (r: NdArray<u32>)
    requires
        x.wf(),
        x.shape@.len() == 4,
    ensures
        scores_softmaxed(f, *x, scale, causal, r),
{
    let q_len: usize = x.shape[2];
    let k_len: usize = x.shape[3];
    proof {
        matmul::lemma_product4(x.shape@);
        matmul::lemma_fits4(x.shape@);
        assert(0 * k_len == 0) by (nonlinear_arith);
    }
    let n: usize = (x.shape[0] * x.shape[1]) * q_len;
    let len: usize = x.data.len();
    let mut data: Vec<u32> = Vec::with_capacity(len);
    for i in 0..n
        invariant
            q_len == x.shape@[2],
            k_len == x.shape@[3],
            n == score_rows(x.shape@),
            len == x.data@.len() == n * k_len,
            data@.len() == i * k_len,
            forall|p: int|
                0 <= p < i ==> masked_softmax(
                    f,
                    matmul::flat_row(x.data@, p, k_len as int),
                    scale,
                    visible_keys(p % q_len as int, q_len as int, k_len as int, causal),
                    SUM_FLOOR,
                    #[trigger] matmul::flat_row(data@, p, k_len as int),
                ),
    {
        proof {
            assert(q_len > 0) by (nonlinear_arith)
                requires
                    i < n,
                    n == (x.shape@[0] * x.shape@[1]) * q_len,
                    q_len >= 0,
            ;
            assert(0 <= i * k_len && i * k_len + k_len <= n * k_len && (i + 1) * k_len == i * k_len + k_len) by (nonlinear_arith)
                requires
                    0 <= i < n,
                    k_len >= 0,
            ;
        }
        let q: usize = i % q_len;
        let visible: usize = if causal && q_len > 1 && q + 1 < k_len { q + 1 } else { k_len };
        let row = vstd::slice::slice_subrange(x.data.as_slice(), i * k_len, i * k_len + k_len);
        let mut ys: Vec<u32> = masked_softmax_row(row, scale, visible, SUM_FLOOR, f);
        let ghost before = data@;
        let ghost own = ys@;
        data.append(&mut ys);
        proof {
            assert(matmul::flat_row(data@, i as int, k_len as int) =~= own);
            assert forall|p: int| 0 <= p < i implies #[trigger] matmul::flat_row(data@, p, k_len as int) == matmul::flat_row(
                before,
                p,
                k_len as int,
            ) by {
                activation::lemma_rows_stay(before, own, i as int, p, k_len as int);
            }
        }
    }
    NdArray { shape: x.shape.clone(), data }
}

/// `y * (g - d) * scale`.
pub open spec fn scaled_shift<F: Fpu>(f: &F, y: u32, g: u32, d: u32, scale: u32, r: u32) -> bool {
    exists|p: u32| activation::shifted_product(f, y, g, d, p) && #[trigger] fpu::muls(f, p, scale, r)
}

/// The products of corresponding elements.
pub open spec fn products<F: Fpu>(f: &F, y: Seq<u32>, g: Seq<u32>, p: Seq<u32>) -> bool {
    &&& p.len() == y.len()
    &&& forall|j: int| 0 <= j < y.len() ==> fpu::muls(f, y[j], g[j], #[trigger] p[j])
}

/// What a row of scores receives.
pub open spec fn scores_row_sends<F: Fpu>(f: &F, y: Seq<u32>, g: Seq<u32>, scale: u32, r: Seq<u32>) -> bool {
    &&& r.len() == y.len()
    &&& exists|p: Seq<u32>, d: u32| #[trigger]
        products(f, y, g, p) && #[trigger] fpu::sums(f, p, d) && all_shifted(f, y, g, d, scale, r)
}

pub open spec fn all_shifted<F: Fpu>(f: &F, y: Seq<u32>, g: Seq<u32>, d: u32, scale: u32, r: Seq<u32>) -> bool {
    forall|j: int| 0 <= j < y.len() ==> scaled_shift(f, y[j], g[j], d, scale, #[trigger] r[j])
}

fn scores_row_gradient<F: Fpu>(y: &[u32], g: &[u32], scale: u32, f: &F) -> (r: Vec<u32>)
    requires
        y@.len() == g@.len(),
    ensures
        scores_row_sends(f, y@, g@, scale, r@),
{
    let mut p: Vec<u32> = Vec::with_capacity(y.len());
    for j in 0..y.len()
        invariant
            y@.len() == g@.len(),
            p@.len() == j,
            forall|i: int| 0 <= i < j ==> fpu::muls(f, y@[i], g@[i], #[trigger] p@[i]),
    {
        p.push(f.mul(y[j], g[j]));
    }
    let d: u32 = f.sum(p.as_slice());
    assert(products(f, y@, g@, p@) && fpu::sums(f, p@, d));
    let mut r: Vec<u32> = Vec::with_capacity(y.len());
    for j in 0..y.len()
        invariant
            y@.len() == g@.len(),
            r@.len() == j,
            forall|i: int| 0 <= i < j ==> scaled_shift(f, y@[i], g@[i], d, scale, #[trigger] r@[i]),
    {
        let s: u32 = f.sub(g[j], d);
        let v: u32 = f.mul(y[j], s);
        let w: u32 = f.mul(v, scale);
        proof {
            let jj = j as int;
            assert(activation::shifted_product(f, y@[jj], g@[jj], d, v)) by {
                assert(fpu::subs(f, g@[jj], d, s) && fpu::muls(f, y@[jj], s, v));
            }
            assert(scaled_shift(f, y@[jj], g@[jj], d, scale, w)) by {
                assert(fpu::muls(f, v, scale, w));
            }
        }
        r.push(w);
    }
    assert(all_shifted(f, y@, g@, d, scale, r@));
    r
}

/// The rows of a recorded softmax over scores.
pub struct FusedSoftmaxBackward {
    pub output: Arc<NdArray<u32>>,
    pub scale: u32,
}

impl FusedSoftmaxBackward {
    pub open spec fn suits(&self, out: Seq<usize>, operands: Seq<Seq<usize>>) -> bool {
        &&& self.output.wf()
        &&& self.output.shape@ == out
        &&& out.len() == 4
        &&& operands == seq![out]
    }

    pub open spec fn sends<F: Fpu>(&self, f: &F, g: NdArray<u32>, r: NdArray<u32>) -> bool {
        let k = g.shape@[3] as int;
        &&& r.wf()
        &&& r.shape@ == g.shape@
        &&& forall|i: int|
            0 <= i < score_rows(g.shape@) ==> scores_row_sends(
                f,
                matmul::flat_row(self.output.data@, i, k),
                matmul::flat_row(g.data@, i, k),
                self.scale,
                #[trigger] matmul::flat_row(r.data@, i, k),
            )
    }

    pub fn gradient<F: Fpu>(&self, g: &NdArray<u32>, f: &F) -> (r: NdArray<u32>)
        requires
            g.wf(),
            self.suits(g.shape@, seq![g.shape@]),
        ensures
            self.sends(f, *g, r),
    {
        let k: usize = g.shape[3];
        proof {
            matmul::lemma_product4(g.shape@);
            matmul::lemma_fits4(g.shape@);
            assert(0 * k == 0) by (nonlinear_arith);
        }
        let n: usize = (g.shape[0] * g.shape[1]) * g.shape[2];
        let len: usize = g.data.len();
        let mut data: Vec<u32> = Vec::with_capacity(len);
        for i in 0..n
            invariant
                n == score_rows(g.shape@),
                len == g.data@.len() == self.output.data@.len() == n * k,
                data@.len() == i * k,
                forall|p: int|
                    0 <= p < i ==> scores_row_sends(
                        f,
                        matmul::flat_row(self.output.data@, p, k as int),
                        matmul::flat_row(g.data@, p, k as int),
                        self.scale,
                        #[trigger] matmul::flat_row(data@, p, k as int),
                    ),
        {
            proof {
                assert(0 <= i * k && i * k + k <= n * k && (i + 1) * k == i * k + k) by (nonlinear_arith)
                    requires
                        0 <= i < n,
                        k >= 0,
                ;
            }
            let y = vstd::slice::slice_subrange(self.output.data.as_slice(), i * k, i * k + k);
            let x = vstd::slice::slice_subrange(g.data.as_slice(), i * k, i * k + k);
            let mut part: Vec<u32> = scores_row_gradient(y, x, self.scale, f);
            let ghost before = data@;
            let ghost own = part@;
            data.append(&mut part);
            proof {
                assert(matmul::flat_row(data@, i as int, k as int) =~= own);
                assert forall|p: int| 0 <= p < i implies #[trigger] matmul::flat_row(data@, p, k as int) == matmul::flat_row(
                    before,
                    p,
                    k as int,
                ) by {
                    activation::lemma_rows_stay(before, own, i as int, p, k as int);
                }
            }
        }
        NdArray { shape: g.shape.clone(), data }
    }
}

/// `s` holds the masked softmax of scores in a precision.
pub open spec fn softmaxed<F: Fpu>(f: &F, x: TensorStorage, scale: u32, causal: bool, dtype: DType, s: TensorStorage) -> bool {
    exists|a: NdArray<u32>, b: NdArray<u32>|
        autograd::reads_as(f, x, a) && #[trigger] scores_softmaxed(f, a, scale, causal, b) && autograd::stored_as(f, b, dtype, s)
}

/// A softmax over scores, recorded if it is to be differentiated.
pub open spec fn fused_softmax_result<F: Fpu>(
    f: &F,
    input: Tensor,
    scale: u32,
    causal: bool,
    mode: GradMode,
    t: Tensor,
) -> bool {
    &&& t.wf()
    &&& t.spec_shape() == input.spec_shape()
    &&& t.grad is None
    &&& if mode.no_grad() || !input.requires_grad {
        t.is_leaf(t.storage, false) && softmaxed(
            f,
            input.storage,
            scale,
            causal,
            activation::softmax_dtype(input.spec_dtype()),
            t.storage,
        )
    } else {
        &&& t.requires_grad
        &&& softmaxed(f, input.storage, scale, causal, DType::F32, t.storage)
        &&& t.op matches Some(op) && *op matches BackwardOp::FusedSoftmax(back) && back.scale == scale && t.storage
            == TensorStorage::F32(back.output) && back.suits(t.spec_shape(), seq![input.spec_shape()])
    }
}

/// The softmax of the rows of `[B, H, Q, K]`, each times a factor, with the keys behind
/// a query masked out if so asked. Where nothing is recorded, the precision stays,
/// unless it is that of bytes.
pub fn fused_softmax<F: Fpu>(input: &Tensor, scale: u32, is_causal: bool, mode: &GradMode, f: &F) -> (r: Result<
    Tensor,
    ScoresNotFourDimensional,
>)
    requires
        input.wf(),
    ensures
        r is Ok <==> input.spec_shape().len() == 4,
        r matches Ok(t) ==> fused_softmax_result(f, *input, scale, is_causal, *mode, t),
{
    if input.ndim() != 4 {
        return Err(ScoresNotFourDimensional {  });
    }
    let x = input.data_arc(f);
    let y = Arc::new(softmax_scores(&x, scale, is_causal, f));
    assert(scores_softmaxed(f, *x, scale, is_causal, *y));
    if is_no_grad(mode) || !input.requires_grad() {
        let dtype: DType = if input.dtype().is_float() { input.dtype() } else { DType::F32 };
        return Ok(Tensor::from_single_no_grad(f, y, dtype));
    }
    let op = BackwardOp::FusedSoftmax(FusedSoftmaxBackward { output: y.clone(), scale });
    let t = Tensor { storage: TensorStorage::F32(y), grad: None, op: Some(Arc::new(op)), requires_grad: true };
    assert(autograd::stored_as(f, *y, DType::F32, t.storage));
    Ok(t)
}

} // verus!
