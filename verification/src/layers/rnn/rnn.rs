use crate::array::NdArray;
use crate::autograd::{GradMode, Tensor};
use crate::fpu::Fpu;
use crate::graph::Node;
use crate::layers::activation;
use crate::layers::activation::{Activation, Tanh};
use crate::layers::basic::Linear;
use crate::ops::arithmetic;
use crate::ops::arithmetic::{add_tensors, BinaryOp};
use crate::ops::matmul::MatmulError;
use crate::precision::PrecisionConfig;
use crate::trace;
use crate::trace::{add_binary, add_unary, splice};
use vstd::prelude::*;

verus! {

/// A recurrent layer: `tanh(W_ih x + W_hh h)`.
pub struct RNN {
    pub w_ih: Linear,
    pub w_hh: Linear,
    pub activation: Tanh,
}

/// The numbers of two inputs, of the input's weight and bias, and of the state's.
pub open spec fn cell_operands(x: Seq<usize>, h: Seq<usize>, wx: Linear, wh: Linear) -> Seq<Seq<usize>> {
    seq![x, h, wx.weight.spec_shape(), wx.bias->0.spec_shape(), wh.weight.spec_shape(), wh.bias->0.spec_shape()]
}

/// The two products and their sum, which are the first steps of a recurrent layer.
pub open spec fn sums_products<F: Fpu>(
    f: &F,
    wx: Linear,
    wh: Linear,
    x: Tensor,
    h: Tensor,
    mode: GradMode,
    n_ops: int,
    x_ids: Seq<usize>,
    h_ids: Seq<usize>,
    a: Seq<Node>,
    b: Seq<Node>,
    steps: Seq<Node>,
) -> bool {
    let m = a.len() + b.len();
    &&& wx.computes(f, x, mode, a)
    &&& wh.computes(f, h, mode, b)
    &&& steps.len() == m + 1
    &&& trace::spliced(Seq::empty(), n_ops, x_ids, a, steps.take(a.len() as int))
    &&& trace::spliced(steps.take(a.len() as int), n_ops, h_ids, b, steps.take(m as int))
    &&& arithmetic::combined(f, BinaryOp::Add, a.last().tensor, b.last().tensor, mode, steps[m as int].tensor)
    &&& trace::is_step(
        steps[m as int],
        steps[m as int].tensor,
        seq![(n_ops + a.len() - 1) as usize, (n_ops + m - 1) as usize],
    )
}

/// The product of the input, that of the state, and their sum.
pub(crate) fn sum_products<F: Fpu>(
    wx: &Linear,
    wh: &Linear,
    x: &Tensor,
    h: &Tensor,
    n_ops: usize,
    x_ids: &Vec<usize>,
    h_ids: &Vec<usize>,
    mode: &GradMode,
    f: &F,
    Ghost(ops): Ghost<Seq<Seq<usize>>>,
) -> (r: Result<Vec<Node>, MatmulError>)
    requires
        wx.wf(),
        wh.wf(),
        wx.bias is Some,
        wh.bias is Some,
        wx.accepts(*x),
        wh.accepts(*h),
        arithmetic::shapes_combine(wx.output_shape(x.spec_shape()), wh.output_shape(h.spec_shape())),
        n_ops == ops.len(),
        n_ops < 100,
        forall|k: int| 0 <= k < x_ids@.len() ==> #[trigger] x_ids@[k] < n_ops,
        forall|k: int| 0 <= k < h_ids@.len() ==> #[trigger] h_ids@[k] < n_ops,
        trace::step_shapes(ops, Seq::empty(), x_ids@) == wx.operands(x.spec_shape()),
        trace::step_shapes(ops, Seq::empty(), h_ids@) == wh.operands(h.spec_shape()),
    ensures
        r is Ok <==> x.spec_shape().last() == wx.in_features && h.spec_shape().last() == wh.in_features,
        r matches Err(e) ==> e == MatmulError::InnerMismatch,
        r matches Ok(steps) ==> {
            &&& exists|a: Seq<Node>, b: Seq<Node>| #[trigger]
                sums_products(f, *wx, *wh, *x, *h, *mode, n_ops as int, x_ids@, h_ids@, a, b, steps@)
            &&& trace::steps_wf(ops, steps@)
            &&& steps@.last().tensor.spec_shape() == crate::dims::broadcast_shape(
                wx.output_shape(x.spec_shape()),
                wh.output_shape(h.spec_shape()),
            )
            &&& steps@.last().tensor.grad is None
            &&& steps@.len() <= 5
            &&& (*mode).no_grad() || !steps@.last().tensor.requires_grad ==> steps@.last().tensor.op is None
        },
{
    let a = match wx.forward(x, mode, f) {
        Ok(a) => a,
        Err(e) => {
            return Err(e);
        },
    };
    let b = match wh.forward(h, mode, f) {
        Ok(b) => b,
        Err(e) => {
            return Err(e);
        },
    };
    let mut steps: Vec<Node> = Vec::new();
    splice(&mut steps, n_ops, x_ids, &a, Ghost(ops));
    let ghost first = steps@;
    proof {
        assert(first.len() == a@.len());
        assert forall|p: int| 0 <= p < h_ids@.len() implies trace::step_shapes(ops, first, h_ids@)[p] == trace::step_shapes(
            ops,
            Seq::empty(),
            h_ids@,
        )[p] by {
            assert(h_ids@[p] < n_ops);
        }
        assert(trace::step_shapes(ops, first, h_ids@) =~= trace::step_shapes(ops, Seq::empty(), h_ids@));
    }
    splice(&mut steps, n_ops, h_ids, &b, Ghost(ops));
    let ghost second = steps@;
    let na: usize = a.len();
    let nb: usize = b.len();
    let sum = add_tensors(&a[na - 1].tensor, &b[nb - 1].tensor, mode, f);
    let left: usize = n_ops + na - 1;
    let right: usize = n_ops + na + nb - 1;
    proof {
        assert(trace::placed_step(x_ids@, n_ops as int, a@[na - 1], first[na - 1]));
        assert(second[na - 1] == first[na - 1]);
        assert(trace::placed_step(h_ids@, n_ops + na, b@[nb - 1], second[na + nb - 1]));
        assert(trace::local_shapes(ops, second)[left as int] == a@.last().tensor.spec_shape());
        assert(trace::local_shapes(ops, second)[right as int] == b@.last().tensor.spec_shape());
    }
    add_binary(&mut steps, sum, left, right, Ghost(ops));
    proof {
        assert(steps@.take(na as int) =~= first);
        assert(steps@.take(na + nb) =~= second);
        assert(sums_products(f, *wx, *wh, *x, *h, *mode, n_ops as int, x_ids@, h_ids@, a@, b@, steps@));
    }
    Ok(steps)
}

impl RNN {
    /// Whether the layer is sound.
    pub fn is_sound(&self) -> (r: bool)
        ensures
            r == self.wf(),
    {
        self.w_ih.is_sound() && self.w_hh.is_sound() && self.w_ih.bias.is_some() && self.w_hh.bias.is_some()
            && self.w_hh.in_features == self.w_ih.out_features && self.w_hh.out_features == self.w_ih.out_features
    }

    /// The layer with other parameters.
    pub open spec fn with_parameters(&self, params: Seq<Tensor>) -> RNN {
        RNN {
            w_ih: self.w_ih.with_parameters(params),
            w_hh: self.w_hh.with_parameters(params.skip(self.w_ih.spec_parameters().len() as int)),
            ..*self
        }
    }

    /// Both layers have a bias, and give the same number of features.
    pub open spec fn wf(&self) -> bool {
        &&& self.w_ih.wf()
        &&& self.w_hh.wf()
        &&& self.w_ih.bias is Some
        &&& self.w_hh.bias is Some
        &&& self.w_hh.in_features == self.w_ih.out_features
        &&& self.w_hh.out_features == self.w_ih.out_features
    }

    /// A layer of initial values, in the precision of parameters.
    pub fn new<F: Fpu>(w_ih: NdArray<u32>, w_hh: NdArray<u32>, precision: &PrecisionConfig, f: &F) -> (r: RNN)
        requires
            w_ih.wf(),
            w_hh.wf(),
            w_ih.shape@.len() == 2,
            w_hh.shape@ == seq![w_ih.shape@[0], w_ih.shape@[0]],
        ensures
            r.wf(),
            r.w_ih.holds(f, w_ih, precision.parameter_dtype, true),
            r.w_hh.holds(f, w_hh, precision.parameter_dtype, true),
    {
        RNN {
            w_ih: Linear::new(w_ih, precision, f),
            w_hh: Linear::new(w_hh, precision, f),
            activation: Tanh::new(),
        }
    }

    /// The input and the state can be multiplied and combined as far as the machine goes.
    pub open spec fn accepts(&self, x: Tensor, h: Tensor) -> bool {
        &&& self.w_ih.accepts(x)
        &&& self.w_hh.accepts(h)
        &&& arithmetic::shapes_combine(self.w_ih.output_shape(x.spec_shape()), self.w_hh.output_shape(h.spec_shape()))
    }

    /// The two products, their sum, and the function of it.
    pub open spec fn computes<F: Fpu>(&self, f: &F, x: Tensor, h: Tensor, mode: GradMode, steps: Seq<Node>) -> bool {
        &&& steps.len() > 1
        &&& exists|a: Seq<Node>, b: Seq<Node>| #[trigger]
            self.sums(f, x, h, mode, a, b, steps.drop_last()) && activation::activated(
                f,
                Activation::Tanh,
                steps[steps.len() - 2].tensor,
                mode,
                steps.last().tensor,
            ) && trace::is_step(steps.last(), steps.last().tensor, seq![(4 + steps.len()) as usize])
    }

    /// The steps up to the sum of the two products.
    pub open spec fn sums<F: Fpu>(
        &self,
        f: &F,
        x: Tensor,
        h: Tensor,
        mode: GradMode,
        a: Seq<Node>,
        b: Seq<Node>,
        steps: Seq<Node>,
    ) -> bool {
        sums_products(
            f,
            self.w_ih,
            self.w_hh,
            x,
            h,
            mode,
            6,
            seq![0usize, 2usize, 3usize],
            seq![1usize, 4usize, 5usize],
            a,
            b,
            steps,
        )
    }

    /// The next state: `tanh(W_ih x + W_hh h)`.
    pub fn forward_step<F: Fpu>(&self, input: &Tensor, h_prev: &Tensor, mode: &GradMode, f: &F) -> (r: Result<
        Vec<Node>,
        MatmulError,
    >)
        requires
            self.wf(),
            self.accepts(*input, *h_prev),
        ensures
            r is Ok <==> input.spec_shape().last() == self.w_ih.in_features && h_prev.spec_shape().last()
                == self.w_hh.in_features,
            r matches Err(e) ==> e == MatmulError::InnerMismatch,
            r matches Ok(steps) ==> self.computes(f, *input, *h_prev, *mode, steps@) && trace::steps_wf(
                cell_operands(input.spec_shape(), h_prev.spec_shape(), self.w_ih, self.w_hh),
                steps@,
            ),
    {
        let ghost ops = cell_operands(input.spec_shape(), h_prev.spec_shape(), self.w_ih, self.w_hh);
        let x_ids: Vec<usize> = vec![0, 2, 3];
        let h_ids: Vec<usize> = vec![1, 4, 5];
        proof {
            assert(x_ids@ =~= seq![0usize, 2usize, 3usize]);
            assert(h_ids@ =~= seq![1usize, 4usize, 5usize]);
            assert(trace::step_shapes(ops, Seq::empty(), x_ids@) =~= self.w_ih.operands(input.spec_shape()));
            assert(trace::step_shapes(ops, Seq::empty(), h_ids@) =~= self.w_hh.operands(h_prev.spec_shape()));
        }
        let mut steps = match sum_products(&self.w_ih, &self.w_hh, input, h_prev, 6, &x_ids, &h_ids, mode, f, Ghost(ops)) {
            Ok(steps) => steps,
            Err(e) => {
                return Err(e);
            },
        };
        let ghost before = steps@;
        let n: usize = steps.len();
        assert(trace::step_wf(ops, before, n - 1));
        let combined = steps[n - 1].tensor.clone();
        let t = self.activation.forward(&combined, mode, f);
        add_unary(&mut steps, t, 5 + n, Ghost(ops));
        proof {
            assert(steps@.drop_last() =~= before);
            let (a, b) = choose|a: Seq<Node>, b: Seq<Node>| #[trigger]
                sums_products(f, self.w_ih, self.w_hh, *input, *h_prev, *mode, 6, x_ids@, h_ids@, a, b, before);
            assert(self.sums(f, *input, *h_prev, *mode, a, b, steps@.drop_last()));
            assert(self.computes(f, *input, *h_prev, *mode, steps@));
        }
        Ok(steps)
    }

    /// The parameters of both layers.
    pub fn parameters(&self) -> (p: Vec<Tensor>)
        ensures
            p@ == self.w_ih.spec_parameters() + self.w_hh.spec_parameters(),
    {
        let mut p: Vec<Tensor> = self.w_ih.parameters();
        let mut q: Vec<Tensor> = self.w_hh.parameters();
        p.append(&mut q);
        p
    }
}

} // verus!
