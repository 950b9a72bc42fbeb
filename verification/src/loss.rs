use crate::array::NdArray;
use crate::autograd;
use crate::autograd::{is_no_grad, BackwardOp, GradMode, Tensor, TensorStorage};
use crate::dims;
use crate::float_bits;
use crate::float_bits::is_above;
use crate::fpu;
use crate::fpu::{negate, Fpu};
use crate::layers::activation;
use crate::layers::attention::encoding::TWO;
use crate::ops::matmul;
use crate::ops::rows;
use std::sync::Arc;
use vstd::prelude::*;

verus! {

/// What is added to a probability before its logarithm is taken: `1e-9`.
pub const PROBABILITY_FLOOR: u32 = 0x3089_705f;

/// An array without axes, which holds one value.
pub open spec fn is_scalar(a: NdArray<u32>, v: u32) -> bool {
    &&& a.wf()
    &&& a.shape@ == Seq::<usize>::empty()
    &&& a.data@ == seq![v]
}

fn scalar(v: u32) -> (a: NdArray<u32>)
    ensures
        is_scalar(a, v),
{
    let shape: Vec<usize> = Vec::new();
    let data: Vec<u32> = vec![v];
    proof {
        assert(shape@ =~= Seq::<usize>::empty());
        assert(data@ =~= seq![v]);
        assert(dims::nonzero_extents(shape@) =~= Seq::<usize>::empty());
    }
    NdArray { shape, data }
}

/// The mean of the squared differences.
pub struct MSELoss {}

/// The squares of the differences.
pub open spec fn squared_differences<F: Fpu>(f: &F, a: Seq<u32>, b: Seq<u32>, sq: Seq<u32>) -> bool {
    &&& sq.len() == a.len()
    &&& forall|i: int| 0 <= i < a.len() ==> squared_difference(f, a[i], b[i], #[trigger] sq[i])
}

pub open spec fn squared_difference<F: Fpu>(f: &F, x: u32, y: u32, r: u32) -> bool {
    exists|d: u32| fpu::subs(f, x, y, d) && #[trigger] fpu::muls(f, d, d, r)
}

/// The sum of the squared differences over their number.
pub open spec fn mean_squared<F: Fpu>(f: &F, a: Seq<u32>, b: Seq<u32>, r: u32) -> bool {
    exists|sq: Seq<u32>, s: u32, n: u32| #[trigger]
        squared_differences(f, a, b, sq) && #[trigger] fpu::sums(f, sq, s) && fpu::counts(f, a.len() as usize, n)
            && #[trigger] fpu::divs(f, s, n, r)
}

fn mean_squared_of<F: Fpu>(a: &Vec<u32>, b: &Vec<u32>, f: &F) -> (r: u32)
    requires
        a@.len() == b@.len(),
    ensures
        mean_squared(f, a@, b@, r),
{
    let len: usize = a.len();
    let mut sq: Vec<u32> = Vec::with_capacity(len);
    for i in 0..len
        invariant
            len == a@.len() == b@.len(),
            sq@.len() == i,
            forall|j: int| 0 <= j < i ==> squared_difference(f, a@[j], b@[j], #[trigger] sq@[j]),
    {
        let d: u32 = f.sub(a[i], b[i]);
        let q: u32 = f.mul(d, d);
        assert(squared_difference(f, a@[i as int], b@[i as int], q)) by {
            assert(fpu::subs(f, a@[i as int], b@[i as int], d) && fpu::muls(f, d, d, q));
        }
        sq.push(q);
    }
    let s: u32 = f.sum(sq.as_slice());
    let n: u32 = f.from_count(len);
    let r: u32 = f.div(s, n);
    assert(squared_differences(f, a@, b@, sq@) && fpu::sums(f, sq@, s) && fpu::counts(f, a@.len() as usize, n) && fpu::divs(
        f,
        s,
        n,
        r,
    ));
    r
}

/// `2 / n * g`.
pub open spec fn mse_factor<F: Fpu>(f: &F, len: usize, g: u32, r: u32) -> bool {
    exists|n: u32, q: u32| fpu::counts(f, len, n) && #[trigger] fpu::divs(f, TWO, n, q) && fpu::muls(f, q, g, r)
}

/// `(x - y) * factor`.
pub open spec fn scaled_difference<F: Fpu>(f: &F, x: u32, y: u32, factor: u32, r: u32) -> bool {
    exists|d: u32| fpu::subs(f, x, y, d) && #[trigger] fpu::muls(f, d, factor, r)
}

pub open spec fn scaled_differences<F: Fpu>(f: &F, a: Seq<u32>, b: Seq<u32>, factor: u32, r: Seq<u32>) -> bool {
    &&& r.len() == a.len()
    &&& forall|i: int| 0 <= i < a.len() ==> scaled_difference(f, a[i], b[i], factor, #[trigger] r[i])
}

fn scale_differences<F: Fpu>(a: &Vec<u32>, b: &Vec<u32>, factor: u32, f: &F) -> (r: Vec<u32>)
    requires
        a@.len() == b@.len(),
    ensures
        scaled_differences(f, a@, b@, factor, r@),
{
    let len: usize = a.len();
    let mut r: Vec<u32> = Vec::with_capacity(len);
    for i in 0..len
        invariant
            len == a@.len() == b@.len(),
            r@.len() == i,
            forall|j: int| 0 <= j < i ==> scaled_difference(f, a@[j], b@[j], factor, #[trigger] r@[j]),
    {
        let d: u32 = f.sub(a[i], b[i]);
        let v: u32 = f.mul(d, factor);
        assert(scaled_difference(f, a@[i as int], b@[i as int], factor, v)) by {
            assert(fpu::subs(f, a@[i as int], b@[i as int], d) && fpu::muls(f, d, factor, v));
        }
        r.push(v);
    }
    r
}

/// The operands of a recorded mean squared error.
pub struct MseBackward {
    pub output: Arc<NdArray<u32>>,
    pub target: Arc<NdArray<u32>>,
}

impl MseBackward {
    pub open spec fn suits(&self, out: Seq<usize>, operands: Seq<Seq<usize>>) -> bool {
        &&& self.output.wf()
        &&& self.target.wf()
        &&& out == Seq::<usize>::empty()
        &&& self.target.shape@ == self.output.shape@
        &&& operands == seq![self.output.shape@, self.target.shape@]
    }

    /// The output receives the differences times `2 / n` and the gradient, and the target
    /// the opposite.
    pub open spec fn sends<F: Fpu>(&self, f: &F, g: NdArray<u32>, p: int, r: NdArray<u32>) -> bool {
        &&& r.wf()
        &&& r.shape@ == self.output.shape@
        &&& if p == 0 {
            self.direct(f, g.data@[0], r.data@)
        } else {
            exists|d: Seq<u32>| #[trigger] self.direct(f, g.data@[0], d) && opposite(d, r.data@)
        }
    }

    pub open spec fn direct<F: Fpu>(&self, f: &F, g: u32, d: Seq<u32>) -> bool {
        exists|factor: u32| #[trigger]
            mse_factor(f, self.output.data@.len() as usize, g, factor) && scaled_differences(
                f,
                self.output.data@,
                self.target.data@,
                factor,
                d,
            )
    }

    pub fn gradients<F: Fpu>(&self, g: &NdArray<u32>, f: &F) -> (r: (NdArray<u32>, NdArray<u32>))
        requires
            g.wf(),
            self.suits(g.shape@, seq![self.output.shape@, self.target.shape@]),
        ensures
            self.sends(f, *g, 0, r.0),
            self.sends(f, *g, 1, r.1),
    {
        let len: usize = self.output.data.len();
        let n: u32 = f.from_count(len);
        let q: u32 = f.div(TWO, n);
        let factor: u32 = f.mul(q, g.data[0]);
        assert(mse_factor(f, self.output.data@.len() as usize, g.data@[0], factor)) by {
            assert(fpu::counts(f, len, n) && fpu::divs(f, TWO, n, q) && fpu::muls(f, q, g.data@[0], factor));
        }
        let d: Vec<u32> = scale_differences(&self.output.data, &self.target.data, factor, f);
        let mut o: Vec<u32> = Vec::with_capacity(len);
        for i in 0..len
            invariant
                d@.len() == len,
                o@.len() == i,
                forall|j: int| 0 <= j < i ==> #[trigger] o@[j] == fpu::negated(d@[j]),
        {
            o.push(negate(d[i]));
        }
        assert(self.direct(f, g.data@[0], d@));
        assert(opposite(d@, o@));
        (
            NdArray { shape: self.output.shape.clone(), data: d },
            NdArray { shape: self.output.shape.clone(), data: o },
        )
    }
}

/// The values with the other sign.
pub open spec fn opposite(a: Seq<u32>, r: Seq<u32>) -> bool {
    &&& r.len() == a.len()
    &&& forall|i: int| 0 <= i < a.len() ==> #[trigger] r[i] == fpu::negated(a[i])
}

/// What is stored is the mean squared error of two tensors.
pub open spec fn mse_stored<F: Fpu>(f: &F, output: Tensor, target: Tensor, s: TensorStorage) -> bool {
    exists|a: NdArray<u32>, b: NdArray<u32>, v: u32, r: NdArray<u32>|
        autograd::reads_as(f, output.storage, a) && autograd::reads_as(f, target.storage, b) && #[trigger] mean_squared(
            f,
            a.data@,
            b.data@,
            v,
        ) && #[trigger] is_scalar(r, v) && s == TensorStorage::F32(Arc::new(r))
}

/// `t` is the mean of the squared differences of two tensors.
pub open spec fn mse_result<F: Fpu>(f: &F, output: Tensor, target: Tensor, mode: GradMode, t: Tensor) -> bool {
    &&& t.wf()
    &&& t.grad is None
    &&& t.spec_shape() == Seq::<usize>::empty()
    &&& mse_stored(f, output, target, t.storage)
    &&& if mode.no_grad() || !(output.requires_grad || target.requires_grad) {
        t.is_leaf(t.storage, false)
    } else {
        &&& t.requires_grad
        &&& t.op matches Some(op) && *op matches BackwardOp::Mse(back) && autograd::reads_as(
            f,
            output.storage,
            *back.output,
        ) && autograd::reads_as(f, target.storage, *back.target) && back.suits(
            t.spec_shape(),
            seq![output.spec_shape(), target.spec_shape()],
        )
    }
}

impl MSELoss {
    /// The mean of the squared differences of two tensors of the same extents, in single
    /// precision.
    pub fn apply<F: Fpu>(output: &Tensor, target: &Tensor, mode: &GradMode, f: &F) -> (t: Tensor)
        requires
            output.wf(),
            target.wf(),
            output.spec_shape() == target.spec_shape(),
        ensures
            mse_result(f, *output, *target, *mode, t),
    {
        let a = output.data_arc(f);
        let b = target.data_arc(f);
        let v: u32 = mean_squared_of(&a.data, &b.data, f);
        let r = scalar(v);
        assert(mean_squared(f, a.data@, b.data@, v) && is_scalar(r, v));
        if is_no_grad(mode) || !(output.requires_grad() || target.requires_grad()) {
            return Tensor::from_array_no_grad(r);
        }
        assert(seq![output.spec_shape(), target.spec_shape()] =~= seq![a.shape@, b.shape@]);
        Tensor::recorded(r, BackwardOp::Mse(MseBackward { output: a, target: b }))
    }
}

/// The cross entropy of rows of logits with rows of target probabilities.
pub struct CrossEntropyLoss {}

/// `acc - t * ln(p + floor)`.
pub open spec fn less_log<F: Fpu>(f: &F, acc: u32, t: u32, p: u32, r: u32) -> bool {
    exists|a: u32, l: u32, m: u32|
        fpu::adds(f, p, PROBABILITY_FLOOR, a) && #[trigger] fpu::lns(f, a, l) && #[trigger] fpu::muls(f, t, l, m) && fpu::subs(
            f,
            acc,
            m,
            r,
        )
}

/// The loss of a row: the targets above zero, each times the logarithm of its
/// probability, taken off from left to right.
pub open spec fn row_loss<F: Fpu>(f: &F, ps: Seq<u32>, ts: Seq<u32>, r: u32) -> bool
    decreases ps.len(),
{
    if ps.len() == 0 {
        r == fpu::ZERO
    } else {
        exists|acc: u32|
            row_loss(f, ps.drop_last(), ts.drop_last(), acc) && #[trigger] next_loss(f, acc, ts.last(), ps.last(), r)
    }
}

/// A target that is not above zero leaves the loss as it is.
pub open spec fn next_loss<F: Fpu>(f: &F, acc: u32, t: u32, p: u32, r: u32) -> bool {
    if float_bits::above(t, fpu::ZERO) {
        less_log(f, acc, t, p, r)
    } else {
        r == acc
    }
}

fn row_loss_of<F: Fpu>(ps: &Vec<u32>, ts: &[u32], f: &F) -> (r: u32)
    requires
        ps@.len() == ts@.len(),
    ensures
        row_loss(f, ps@, ts@, r),
{
    let mut acc: u32 = fpu::ZERO;
    for i in 0..ps.len()
        invariant
            ps@.len() == ts@.len(),
            row_loss(f, ps@.take(i as int), ts@.take(i as int), acc),
    {
        let ghost before = acc;
        if is_above(ts[i], fpu::ZERO) {
            let a: u32 = f.add(ps[i], PROBABILITY_FLOOR);
            let l: u32 = f.ln(a);
            let m: u32 = f.mul(ts[i], l);
            let next: u32 = f.sub(acc, m);
            assert(less_log(f, acc, ts@[i as int], ps@[i as int], next)) by {
                assert(fpu::adds(f, ps@[i as int], PROBABILITY_FLOOR, a) && fpu::lns(f, a, l) && fpu::muls(
                    f,
                    ts@[i as int],
                    l,
                    m,
                ) && fpu::subs(f, acc, m, next));
            }
            acc = next;
        }
        proof {
            assert(ps@.take(i + 1).drop_last() =~= ps@.take(i as int));
            assert(ts@.take(i + 1).drop_last() =~= ts@.take(i as int));
            assert(next_loss(f, before, ts@.take(i + 1).last(), ps@.take(i + 1).last(), acc));
        }
    }
    assert(ps@.take(ps@.len() as int) =~= ps@);
    assert(ts@.take(ps@.len() as int) =~= ts@);
    acc
}

/// Each row of probabilities is the softmax of the row of logits, and each loss belongs
/// to its row.
pub open spec fn entropy_rows<F: Fpu>(
    f: &F,
    n: int,
    d: int,
    logits: Seq<u32>,
    targets: Seq<u32>,
    probs: Seq<u32>,
    losses: Seq<u32>,
) -> bool {
    &&& probs.len() == n * d
    &&& losses.len() == n
    &&& forall|i: int|
        0 <= i < n ==> rows::is_softmax(f, matmul::flat_row(logits, i, d), #[trigger] matmul::flat_row(probs, i, d))
    &&& forall|i: int|
        0 <= i < n ==> row_loss(f, matmul::flat_row(probs, i, d), matmul::flat_row(targets, i, d), #[trigger] losses[i])
}

/// The sum of the losses of the rows over their number.
pub open spec fn mean_loss<F: Fpu>(f: &F, losses: Seq<u32>, n: usize, r: u32) -> bool {
    exists|s: u32, c: u32| fpu::sums(f, losses, s) && fpu::counts(f, n, c) && #[trigger] fpu::divs(f, s, c, r)
}

/// The rows of probabilities, and the losses.
fn entropies<F: Fpu>(n: usize, d: usize, logits: &Vec<u32>, targets: &Vec<u32>, f: &F) -> (r: (Vec<u32>, Vec<u32>))
    requires
        logits@.len() == n * d,
        targets@.len() == n * d,
    ensures
        entropy_rows(f, n as int, d as int, logits@, targets@, r.0@, r.1@),
{
    let len: usize = logits.len();
    let t_len: usize = targets.len();
    let mut probs: Vec<u32> = Vec::with_capacity(len);
    let mut losses: Vec<u32> = Vec::with_capacity(n);
    assert(0 * d == 0) by (nonlinear_arith);
    for i in 0..n
        invariant
            len == logits@.len() == n * d,
            t_len == targets@.len() == n * d,
            probs@.len() == i * d,
            losses@.len() == i,
            forall|p: int|
                0 <= p < i ==> rows::is_softmax(
                    f,
                    matmul::flat_row(logits@, p, d as int),
                    #[trigger] matmul::flat_row(probs@, p, d as int),
                ),
            forall|p: int|
                0 <= p < i ==> row_loss(
                    f,
                    matmul::flat_row(probs@, p, d as int),
                    matmul::flat_row(targets@, p, d as int),
                    #[trigger] losses@[p],
                ),
    {
        proof {
            assert(0 <= i * d && i * d + d <= n * d && (i + 1) * d == i * d + d) by (nonlinear_arith)
                requires
                    0 <= i < n,
                    d >= 0,
            ;
        }
        let l = vstd::slice::slice_subrange(logits.as_slice(), i * d, i * d + d);
        let t = vstd::slice::slice_subrange(targets.as_slice(), i * d, i * d + d);
        let mut row: Vec<u32> = rows::softmax_row(l, f);
        let loss: u32 = row_loss_of(&row, t, f);
        let ghost before = probs@;
        let ghost own = row@;
        let ghost losses_before = losses@;
        probs.append(&mut row);
        losses.push(loss);
        proof {
            assert(matmul::flat_row(probs@, i as int, d as int) =~= own);
            assert forall|p: int| 0 <= p < i implies #[trigger] matmul::flat_row(probs@, p, d as int) == matmul::flat_row(
                before,
                p,
                d as int,
            ) by {
                activation::lemma_rows_stay(before, own, i as int, p, d as int);
            }
            assert forall|p: int| 0 <= p < i + 1 implies row_loss(
                f,
                matmul::flat_row(probs@, p, d as int),
                matmul::flat_row(targets@, p, d as int),
                #[trigger] losses@[p],
            ) by {
                if p < i {
                    assert(losses@[p] == losses_before[p]);
                    assert(matmul::flat_row(probs@, p, d as int) == matmul::flat_row(before, p, d as int));
                }
            }
        }
    }
    (probs, losses)
}

/// The probabilities and targets of a recorded cross entropy.
pub struct CrossEntropyBackward {
    pub probs: Arc<NdArray<u32>>,
    pub targets: Arc<NdArray<u32>>,
}

impl CrossEntropyBackward {
    pub open spec fn suits(&self, out: Seq<usize>, operands: Seq<Seq<usize>>) -> bool {
        &&& self.probs.wf()
        &&& self.targets.wf()
        &&& out == Seq::<usize>::empty()
        &&& self.probs.shape@.len() == 2
        &&& self.targets.shape@ == self.probs.shape@
        &&& operands == seq![self.probs.shape@, self.targets.shape@]
    }

    /// The logits receive the probabilities less the targets, times the gradient over
    /// the number of rows; the targets receive nothing.
    pub open spec fn sends<F: Fpu>(&self, f: &F, g: NdArray<u32>, r: NdArray<u32>) -> bool {
        &&& r.wf()
        &&& r.shape@ == self.probs.shape@
        &&& exists|factor: u32| #[trigger]
            entropy_factor(f, self.probs.shape@[0], g.data@[0], factor) && scaled_differences(
                f,
                self.probs.data@,
                self.targets.data@,
                factor,
                r.data@,
            )
    }

    pub fn gradient<F: Fpu>(&self, g: &NdArray<u32>, f: &F) -> (r: NdArray<u32>)
        requires
            g.wf(),
            self.suits(g.shape@, seq![self.probs.shape@, self.targets.shape@]),
        ensures
            self.sends(f, *g, r),
    {
        let n: u32 = f.from_count(self.probs.shape[0]);
        let factor: u32 = f.div(g.data[0], n);
        assert(entropy_factor(f, self.probs.shape@[0], g.data@[0], factor)) by {
            assert(fpu::counts(f, self.probs.shape@[0], n) && fpu::divs(f, g.data@[0], n, factor));
        }
        let data: Vec<u32> = scale_differences(&self.probs.data, &self.targets.data, factor, f);
        NdArray { shape: self.probs.shape.clone(), data }
    }
}

/// `g / n`.
pub open spec fn entropy_factor<F: Fpu>(f: &F, n: usize, g: u32, r: u32) -> bool {
    exists|c: u32| fpu::counts(f, n, c) && #[trigger] fpu::divs(f, g, c, r)
}

/// Logits and targets are rows of the same length, as many of each.
pub open spec fn entropy_shapes(l: Seq<usize>, t: Seq<usize>) -> bool {
    &&& l.len() >= 2
    &&& dims::product(l) == l[0] * l[1]
    &&& dims::product(t) == l[0] * l[1]
}

/// What is stored is the cross entropy of two tensors; `probs` are the probabilities.
pub open spec fn entropy_stored<F: Fpu>(f: &F, logits: Tensor, targets: Tensor, probs: Seq<u32>, s: TensorStorage) -> bool {
    let n = logits.spec_shape()[0];
    let d = logits.spec_shape()[1] as int;
    exists|a: NdArray<u32>, b: NdArray<u32>, losses: Seq<u32>, v: u32, r: NdArray<u32>|
        autograd::reads_as(f, logits.storage, a) && autograd::reads_as(f, targets.storage, b) && #[trigger] entropy_rows(
            f,
            n as int,
            d,
            a.data@,
            b.data@,
            probs,
            losses,
        ) && #[trigger] mean_loss(f, losses, n, v) && #[trigger] is_scalar(r, v) && s == TensorStorage::F32(Arc::new(r))
}

/// What is stored is the cross entropy of two tensors.
pub open spec fn entropy_of<F: Fpu>(f: &F, logits: Tensor, targets: Tensor, s: TensorStorage) -> bool {
    exists|probs: Seq<u32>| entropy_stored(f, logits, targets, probs, s)
}

/// `t` is the mean cross entropy of logits with target probabilities. Its record can be
/// followed if both have two axes and the same extents.
pub open spec fn entropy_result<F: Fpu>(f: &F, logits: Tensor, targets: Tensor, mode: GradMode, t: Tensor) -> bool {
    &&& t.wf()
    &&& t.grad is None
    &&& t.spec_shape() == Seq::<usize>::empty()
    &&& if mode.no_grad() || !(logits.requires_grad || targets.requires_grad) {
        t.is_leaf(t.storage, false) && entropy_of(f, logits, targets, t.storage)
    } else {
        &&& t.requires_grad
        &&& t.op matches Some(op) && *op matches BackwardOp::CrossEntropy(back) && entropy_stored(
            f,
            logits,
            targets,
            back.probs.data@,
            t.storage,
        ) && back.probs.wf() && back.probs.shape@ == logits.spec_shape().take(2) && autograd::reads_as(
            f,
            targets.storage,
            *back.targets,
        ) && (logits.spec_shape().len() == 2 && targets.spec_shape() == logits.spec_shape() ==> back.suits(
            t.spec_shape(),
            seq![logits.spec_shape(), targets.spec_shape()],
        ))
    }
}

impl CrossEntropyLoss {
    /// The mean over all rows of the cross entropy of logits with target probabilities,
    /// in single precision.
    pub fn apply<F: Fpu>(input_logits: &Tensor, target_onehot: &Tensor, mode: &GradMode, f: &F) -> (t: Tensor)
        requires
            input_logits.wf(),
            target_onehot.wf(),
            entropy_shapes(input_logits.spec_shape(), target_onehot.spec_shape()),
        ensures
            entropy_result(f, *input_logits, *target_onehot, *mode, t),
    {
        let a = input_logits.data_arc(f);
        let b = target_onehot.data_arc(f);
        let n: usize = a.shape[0];
        let d: usize = a.shape[1];
        let (probs, losses) = entropies(n, d, &a.data, &b.data, f);
        let s: u32 = f.sum(losses.as_slice());
        let c: u32 = f.from_count(n);
        let v: u32 = f.div(s, c);
        assert(mean_loss(f, losses@, n, v)) by {
            assert(fpu::sums(f, losses@, s) && fpu::counts(f, n, c) && fpu::divs(f, s, c, v));
        }
        let r = scalar(v);
        let ghost storage = TensorStorage::F32(Arc::new(r));
        assert(entropy_stored(f, *input_logits, *target_onehot, probs@, storage)) by {
            assert(entropy_rows(f, n as int, d as int, a.data@, b.data@, probs@, losses@));
            assert(is_scalar(r, v));
        }
        if is_no_grad(mode) || !(input_logits.requires_grad() || target_onehot.requires_grad()) {
            return Tensor::from_array_no_grad(r);
        }
        let extents: Vec<usize> = vec![n, d];
        let kept = Arc::new(NdArray { shape: extents, data: probs });
        proof {
            let l = input_logits.spec_shape();
            assert(kept.shape@ =~= l.take(2));
            dims::lemma_prefix_fits(l, 2);
            dims::lemma_product2(kept.shape@);
            if l.len() == 2 && target_onehot.spec_shape() == l {
                assert(kept.shape@ =~= l);
                assert(seq![l, target_onehot.spec_shape()] =~= seq![kept.shape@, b.shape@]);
            }
        }
        Tensor::recorded(r, BackwardOp::CrossEntropy(CrossEntropyBackward { probs: kept, targets: b }))
    }
}

} // verus!
