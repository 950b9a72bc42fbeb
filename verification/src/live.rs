use crate::array::NdArray;
use crate::autograd;
use crate::autograd::{BackwardOp, Tensor};
use crate::fpu::Fpu;
use crate::graph;
use crate::layers::activation::ActivationBackward;
use crate::layers::norm::rms_norm::RmsNormBackward;
use crate::loss::{CrossEntropyBackward, MseBackward};
use crate::ops::arithmetic::MulBackward;
use crate::ops::convolution::Conv2dBackward;
use crate::ops::matmul::{BatchMatmulBackward, MatmulBackward};
use std::sync::Arc;
use vstd::prelude::*;

verus! {

/// The extents of tensors.
pub open spec fn operand_shapes(operands: Seq<Tensor>) -> Seq<Seq<usize>> {
    Seq::new(operands.len(), |p: int| operands[p].spec_shape())
}

/// The gradients that an operation sends to its operands, as they are now.
pub open spec fn live_sent<F: Fpu>(
    f: &F,
    op: BackwardOp,
    operands: Seq<Tensor>,
    g: NdArray<u32>,
    grads: Seq<Option<Arc<NdArray<u32>>>>,
) -> bool {
    exists|live: BackwardOp| #[trigger] op.lives_as(f, operands, live) && graph::sent_by(f, live, g, grads)
}

impl BackwardOp {
    /// `live` is the record with the elements that its operands have now. Where a derivative
    /// is taken of a result, of a choice or of extents alone, the record stays; so do the rows
    /// that were looked up.
    pub open spec fn lives_as<F: Fpu>(&self, f: &F, operands: Seq<Tensor>, live: BackwardOp) -> bool {
        match *self {
            BackwardOp::Mul(_) => live matches BackwardOp::Mul(c) && autograd::reads_as(f, operands[0].storage, *c.lhs)
                && autograd::reads_as(f, operands[1].storage, *c.rhs),
            BackwardOp::Matmul(_) => live matches BackwardOp::Matmul(c) && autograd::reads_as(f, operands[0].storage, *c.a)
                && autograd::reads_as(f, operands[1].storage, *c.b),
            BackwardOp::BatchMatmul(_) => live matches BackwardOp::BatchMatmul(c) && autograd::reads_as(
                f,
                operands[0].storage,
                *c.lhs,
            ) && autograd::reads_as(f, operands[1].storage, *c.rhs),
            BackwardOp::Activation(b) => live matches BackwardOp::Activation(c) && c.kind == b.kind && c.output == b.output
                && autograd::reads_as(f, operands[0].storage, *c.input),
            BackwardOp::Conv2d(b) => live matches BackwardOp::Conv2d(c) && c.has_bias == b.has_bias && c.stride == b.stride
                && c.padding == b.padding && autograd::reads_as(f, operands[0].storage, *c.input) && autograd::reads_as(
                f,
                operands[1].storage,
                *c.weight,
            ),
            BackwardOp::RmsNorm(b) => live matches BackwardOp::RmsNorm(c) && c.eps == b.eps && autograd::reads_as(
                f,
                operands[0].storage,
                *c.input,
            ) && autograd::reads_as(f, operands[1].storage, *c.weight),
            BackwardOp::Mse(_) => live matches BackwardOp::Mse(c) && autograd::reads_as(f, operands[0].storage, *c.output)
                && autograd::reads_as(f, operands[1].storage, *c.target),
            BackwardOp::CrossEntropy(b) => live matches BackwardOp::CrossEntropy(c) && c.probs == b.probs
                && autograd::reads_as(f, operands[1].storage, *c.targets),
            _ => live == *self,
        }
    }

    /// Operands that keep their extents keep the record sound.
    pub proof fn lemma_live_suits<F: Fpu>(&self, f: &F, out: Seq<usize>, operands: Seq<Tensor>, live: BackwardOp)
        requires
            self.suits(out, operand_shapes(operands)),
            self.lives_as(f, operands, live),
        ensures
            live.suits(out, operand_shapes(operands)),
    {
        let shapes = operand_shapes(operands);
        lemma_operand_count(*self, out, shapes);
        match (*self, live) {
            (BackwardOp::Mul(b), BackwardOp::Mul(c)) => {
                assert(shapes[0] == b.lhs.shape@ && shapes[1] == b.rhs.shape@);
                assert(c.lhs.shape@ == operands[0].spec_shape() && c.rhs.shape@ == operands[1].spec_shape());
                assert(operands[0].spec_shape() == shapes[0] && operands[1].spec_shape() == shapes[1]);
                assert(live.suits(out, shapes));
            },
            (BackwardOp::Matmul(b), BackwardOp::Matmul(c)) => {
                assert(shapes[0] == b.a.shape@ && shapes[1] == b.b.shape@);
                assert(c.a.shape@ == operands[0].spec_shape() && c.b.shape@ == operands[1].spec_shape());
                assert(operands[0].spec_shape() == shapes[0] && operands[1].spec_shape() == shapes[1]);
                assert(live.suits(out, shapes));
            },
            (BackwardOp::BatchMatmul(b), BackwardOp::BatchMatmul(c)) => {
                assert(shapes[0] == b.lhs.shape@ && shapes[1] == b.rhs.shape@);
                assert(c.lhs.shape@ == operands[0].spec_shape() && c.rhs.shape@ == operands[1].spec_shape());
                assert(operands[0].spec_shape() == shapes[0] && operands[1].spec_shape() == shapes[1]);
                assert(live.suits(out, shapes));
            },
            (BackwardOp::Activation(b), BackwardOp::Activation(c)) => {
                assert(shapes[0] == out);
                assert(c.input.shape@ == out);
                assert(live.suits(out, shapes));
            },
            (BackwardOp::Conv2d(b), BackwardOp::Conv2d(c)) => {
                assert(shapes[0] == b.input.shape@ && shapes[1] == b.weight.shape@);
                assert(c.input.shape@ == b.input.shape@ && c.weight.shape@ == b.weight.shape@);
                assert(c.bias_extents() == b.bias_extents());
                assert(live.suits(out, shapes));
            },
            (BackwardOp::RmsNorm(b), BackwardOp::RmsNorm(c)) => {
                assert(shapes[0] == out && shapes[1] == seq![out.last()]);
                assert(c.input.shape@ == out && c.weight.shape@ == seq![out.last()]);
                assert(live.suits(out, shapes));
            },
            (BackwardOp::Mse(b), BackwardOp::Mse(c)) => {
                assert(shapes[0] == b.output.shape@ && shapes[1] == b.target.shape@);
                assert(c.output.shape@ == b.output.shape@ && c.target.shape@ == b.target.shape@);
                assert(live.suits(out, shapes));
            },
            (BackwardOp::CrossEntropy(b), BackwardOp::CrossEntropy(c)) => {
                assert(shapes[1] == b.targets.shape@);
                assert(c.targets.shape@ == b.targets.shape@);
                assert(live.suits(out, shapes));
            },
            _ => {},
        }
    }

    /// The gradients that the operation sends to its operands, as they are now.
    pub fn live_gradients<F: Fpu>(&self, g: &NdArray<u32>, operands: &Vec<Tensor>, f: &F) -> (r: Vec<
        Option<Arc<NdArray<u32>>>,
    >)
        requires
            g.wf(),
            self.suits(g.shape@, operand_shapes(operands@)),
            forall|p: int| 0 <= p < operands@.len() ==> (#[trigger] operands@[p]).wf(),
        ensures
            live_sent(f, *self, operands@, *g, r@),
            autograd::extents_agree(r@, operand_shapes(operands@)),
            forall|p: int| 0 <= p < r@.len() && #[trigger] r@[p] is Some ==> r@[p]->0.wf(),
    {
        let ghost shapes = operand_shapes(operands@);
        proof {
            assert(shapes.len() == operands@.len());
            lemma_operand_count(*self, g.shape@, shapes);
        }
        let live = match self {
            BackwardOp::Mul(_) => BackwardOp::Mul(
                MulBackward { lhs: operands[0].data_arc(f), rhs: operands[1].data_arc(f) },
            ),
            BackwardOp::Matmul(_) => BackwardOp::Matmul(
                MatmulBackward { a: operands[0].data_arc(f), b: operands[1].data_arc(f) },
            ),
            BackwardOp::BatchMatmul(_) => BackwardOp::BatchMatmul(
                BatchMatmulBackward { lhs: operands[0].data_arc(f), rhs: operands[1].data_arc(f) },
            ),
            BackwardOp::Activation(b) => BackwardOp::Activation(
                ActivationBackward { kind: b.kind, input: operands[0].data_arc(f), output: b.output.clone() },
            ),
            BackwardOp::Conv2d(b) => BackwardOp::Conv2d(
                Conv2dBackward {
                    input: operands[0].data_arc(f),
                    weight: operands[1].data_arc(f),
                    has_bias: b.has_bias,
                    stride: b.stride,
                    padding: b.padding,
                },
            ),
            BackwardOp::RmsNorm(b) => BackwardOp::RmsNorm(
                RmsNormBackward { input: operands[0].data_arc(f), weight: operands[1].data_arc(f), eps: b.eps },
            ),
            BackwardOp::Mse(_) => BackwardOp::Mse(
                MseBackward { output: operands[0].data_arc(f), target: operands[1].data_arc(f) },
            ),
            BackwardOp::CrossEntropy(b) => BackwardOp::CrossEntropy(
                CrossEntropyBackward { probs: b.probs.clone(), targets: operands[1].data_arc(f) },
            ),
            _ => {
                let r = self.gradients(g, f);
                assert(self.lives_as(f, operands@, *self));
                assert(graph::sent_by(f, *self, *g, r@));
                return r;
            },
        };
        assert(self.lives_as(f, operands@, live));
        proof {
            self.lemma_live_suits(f, g.shape@, operands@, live);
        }
        let r = live.gradients(g, f);
        assert(graph::sent_by(f, live, *g, r@));
        r
    }
}

/// An operation that reads two operands has as many.
proof fn lemma_operand_count(op: BackwardOp, out: Seq<usize>, shapes: Seq<Seq<usize>>)
    requires
        op.suits(out, shapes),
    ensures
        op is Mul || op is Matmul || op is BatchMatmul || op is RmsNorm || op is Mse || op is CrossEntropy || op is Conv2d
            ==> shapes.len() >= 2,
        op is Activation ==> shapes.len() == 1,
{
}

} // verus!
