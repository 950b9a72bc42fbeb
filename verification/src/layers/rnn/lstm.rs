use crate::array::NdArray;
use crate::autograd;
use crate::autograd::{GradMode, Tensor, TensorStorage};
use crate::dims;
use crate::fpu;
use crate::fpu::Fpu;
use crate::graph::Node;
use crate::layers::activation;
use crate::layers::activation::{Activation, Sigmoid, Tanh};
use crate::layers::basic::linear;
use crate::layers::basic::Linear;
use crate::layers::rnn::rnn;
use crate::layers::rnn::rnn::sum_products;
use crate::ops::arithmetic;
use crate::ops::arithmetic::{add_tensors, mul_tensors, BinaryOp};
use crate::ops::matmul::MatmulError;
use crate::ops::shape;
use crate::ops::shape::slice_last_dim;
use crate::precision::{DType, PrecisionConfig};
use crate::trace;
use crate::trace::{add_binary, add_unary};
use vstd::prelude::*;

verus! {

/// A recurrent layer with a cell. The products hold four gates, each of the size of the
/// state: input, forget, cell and output.
pub struct LSTM {
    pub hidden_size: usize,
    pub w_x: Linear,
    pub w_h: Linear,
    pub sigmoid: Sigmoid,
    pub tanh: Tanh,
}

/// Zeros, with ones for the forget gate.
pub open spec fn forget_bias(h: int, a: NdArray<u32>) -> bool {
    &&& a.wf()
    &&& a.shape@.len() == 1
    &&& a.shape@[0] == 4 * h
    &&& forall|i: int|
        0 <= i < 4 * h ==> #[trigger] a.data@[i] == (if h <= i < 2 * h {
            fpu::ONE
        } else {
            fpu::ZERO
        })
}

/// What is stored are zeros, with ones for the forget gate.
pub open spec fn forget_bias_stored<F: Fpu>(f: &F, h: int, dtype: DType, s: TensorStorage) -> bool {
    exists|a: NdArray<u32>| #[trigger] forget_bias(h, a) && autograd::stored_as(f, a, dtype, s)
}

impl LSTM {
    /// Whether the layer is sound.
    pub fn is_sound(&self) -> (r: bool)
        ensures
            r == self.wf(),
    {
        let gates: bool = match self.hidden_size.checked_mul(4) {
            Some(n) => self.w_x.out_features == n && self.w_h.out_features == n,
            None => false,
        };
        gates && self.w_x.is_sound() && self.w_h.is_sound() && self.w_x.bias.is_some() && self.w_h.bias.is_some()
            && self.w_h.in_features == self.hidden_size
    }

    /// The layer with other parameters.
    pub open spec fn with_parameters(&self, params: Seq<Tensor>) -> LSTM {
        LSTM {
            w_x: self.w_x.with_parameters(params),
            w_h: self.w_h.with_parameters(params.skip(self.w_x.spec_parameters().len() as int)),
            ..*self
        }
    }

    /// Both layers have a bias, and give four gates.
    pub open spec fn wf(&self) -> bool {
        &&& self.w_x.wf()
        &&& self.w_h.wf()
        &&& self.w_x.bias is Some
        &&& self.w_h.bias is Some
        &&& self.w_x.out_features == 4 * self.hidden_size
        &&& self.w_h.out_features == 4 * self.hidden_size
        &&& self.w_h.in_features == self.hidden_size
    }

    /// A layer of initial values, whose forget gate is open at first.
    pub open spec fn holds<F: Fpu>(&self, f: &F, w_x: NdArray<u32>, w_h: NdArray<u32>, dtype: DType) -> bool {
        &&& self.wf()
        &&& self.w_h.holds(f, w_h, dtype, true)
        &&& self.w_x.weight.is_leaf(self.w_x.weight.storage, true)
        &&& autograd::stored_as(f, w_x, dtype, self.w_x.weight.storage)
        &&& self.w_x.bias matches Some(b) && b.is_leaf(b.storage, true) && forget_bias_stored(
            f,
            self.hidden_size as int,
            dtype,
            b.storage,
        )
        &&& self.w_x.in_features == w_x.shape@[1]
    }

    /// A layer in the precision of parameters.
    pub fn new<F: Fpu>(w_x: NdArray<u32>, w_h: NdArray<u32>, hidden_size: usize, precision: &PrecisionConfig, f: &F) -> (l: LSTM)
        requires
            w_x.wf(),
            w_h.wf(),
            w_x.shape@.len() == 2,
            w_x.shape@[0] == 4 * hidden_size,
            w_h.shape@ == seq![w_x.shape@[0], hidden_size],
        ensures
            l.holds(f, w_x, w_h, precision.parameter_dtype),
            l.hidden_size == hidden_size,
    {
        LSTM::new_with_dtype(w_x, w_h, hidden_size, precision.parameter_dtype, f)
    }

    /// A layer in the given precision.
    pub fn new_with_dtype<F: Fpu>(w_x: NdArray<u32>, w_h: NdArray<u32>, hidden_size: usize, dtype: DType, f: &F) -> (l: LSTM)
        requires
            w_x.wf(),
            w_h.wf(),
            w_x.shape@.len() == 2,
            w_x.shape@[0] == 4 * hidden_size,
            w_h.shape@ == seq![w_x.shape@[0], hidden_size],
        ensures
            l.holds(f, w_x, w_h, dtype),
            l.hidden_size == hidden_size,
    {
        let n: usize = w_x.shape[0];
        let mut wx = Linear::new_with_dtype(w_x, dtype, f);
        let wh = Linear::new_with_dtype(w_h, dtype, f);
        let mut data: Vec<u32> = Vec::with_capacity(n);
        for i in 0..n
            invariant
                n == 4 * hidden_size,
                data@.len() == i,
                forall|j: int|
                    0 <= j < i ==> #[trigger] data@[j] == (if hidden_size <= j < 2 * hidden_size {
                        fpu::ONE
                    } else {
                        fpu::ZERO
                    }),
        {
            if hidden_size <= i && i < 2 * hidden_size {
                data.push(fpu::ONE);
            } else {
                data.push(fpu::ZERO);
            }
        }
        let shape: Vec<usize> = vec![n];
        proof {
            assert(shape@ =~= seq![n]);
            linear::lemma_one_axis(n);
        }
        let bias = NdArray { shape, data };
        assert(forget_bias(hidden_size as int, bias));
        wx.bias = Some(Tensor::parameter_with_dtype(f, bias, dtype));
        LSTM { hidden_size, w_x: wx, w_h: wh, sigmoid: Sigmoid::new(), tanh: Tanh::new() }
    }

    /// Extents of the gates for these inputs.
    pub open spec fn gates_shape(&self, x: Seq<usize>, h: Seq<usize>) -> Seq<usize> {
        dims::broadcast_shape(self.w_x.output_shape(x), self.w_h.output_shape(h))
    }

    /// Extents of a single gate.
    pub open spec fn gate_shape(&self, x: Seq<usize>, h: Seq<usize>) -> Seq<usize> {
        let g = self.gates_shape(x, h);
        g.update(g.len() - 1, self.hidden_size)
    }

    /// The inputs can be multiplied and combined as far as the machine goes.
    pub open spec fn accepts(&self, x: Tensor, h: Tensor, c: Tensor) -> bool {
        let gate = self.gate_shape(x.spec_shape(), h.spec_shape());
        let kept = dims::broadcast_shape(gate, c.spec_shape());
        let cell = dims::broadcast_shape(kept, gate);
        &&& self.w_x.accepts(x)
        &&& self.w_h.accepts(h)
        &&& c.wf()
        &&& arithmetic::shapes_combine(self.w_x.output_shape(x.spec_shape()), self.w_h.output_shape(h.spec_shape()))
        &&& arithmetic::shapes_combine(gate, c.spec_shape())
        &&& arithmetic::shapes_combine(kept, gate)
        &&& arithmetic::shapes_combine(gate, cell)
    }

    /// The extents of what a step is made of: the input, the state, the cell, and the
    /// parameters.
    pub open spec fn operands(&self, x: Seq<usize>, h: Seq<usize>, c: Seq<usize>) -> Seq<Seq<usize>> {
        seq![
            x,
            h,
            c,
            self.w_x.weight.spec_shape(),
            self.w_x.bias->0.spec_shape(),
            self.w_h.weight.spec_shape(),
            self.w_h.bias->0.spec_shape(),
        ]
    }

    /// The steps up to the gates.
    pub open spec fn sums<F: Fpu>(
        &self,
        f: &F,
        x: Tensor,
        h: Tensor,
        mode: GradMode,
        a: Seq<Node>,
        b: Seq<Node>,
        steps: Seq<Node>,
    ) -> bool {
        rnn::sums_products(
            f,
            self.w_x,
            self.w_h,
            x,
            h,
            mode,
            7,
            seq![0usize, 3usize, 4usize],
            seq![1usize, 5usize, 6usize],
            a,
            b,
            steps,
        )
    }

    /// Step `g + 1 + j` is gate `j`, and step `g + 5 + j` the function of it.
    pub open spec fn gate_steps<F: Fpu>(&self, f: &F, mode: GradMode, g: int, j: int, kind: Activation, steps: Seq<Node>) -> bool {
        let size = self.hidden_size as int;
        &&& shape::slice_result(f, steps[g].tensor, j * size, (j + 1) * size, mode, steps[g + 1 + j].tensor)
        &&& trace::is_step(steps[g + 1 + j], steps[g + 1 + j].tensor, seq![(7 + g) as usize])
        &&& activation::activated(f, kind, steps[g + 1 + j].tensor, mode, steps[g + 5 + j].tensor)
        &&& trace::is_step(steps[g + 5 + j], steps[g + 5 + j].tensor, seq![(8 + g + j) as usize])
    }

    /// Step `i` combines the results with two numbers.
    pub open spec fn combines<F: Fpu>(
        f: &F,
        op: BinaryOp,
        l: Tensor,
        r: Tensor,
        mode: GradMode,
        steps: Seq<Node>,
        i: int,
        left: int,
        right: int,
    ) -> bool {
        &&& arithmetic::combined(f, op, l, r, mode, steps[i].tensor)
        &&& trace::is_step(steps[i], steps[i].tensor, seq![left as usize, right as usize])
    }

    /// Behind the gates, which are step `g`: the cell becomes `f * c + i * g`, and the
    /// state `o * tanh(cell)`.
    pub open spec fn updates<F: Fpu>(&self, f: &F, c: Tensor, mode: GradMode, g: int, steps: Seq<Node>) -> bool {
        &&& steps.len() == g + 14
        &&& self.gate_steps(f, mode, g, 0, Activation::Sigmoid, steps)
        &&& self.gate_steps(f, mode, g, 1, Activation::Sigmoid, steps)
        &&& self.gate_steps(f, mode, g, 2, Activation::Tanh, steps)
        &&& self.gate_steps(f, mode, g, 3, Activation::Sigmoid, steps)
        &&& LSTM::combines(f, BinaryOp::Mul, steps[g + 6].tensor, c, mode, steps, g + 9, 13 + g, 2)
        &&& LSTM::combines(f, BinaryOp::Mul, steps[g + 5].tensor, steps[g + 7].tensor, mode, steps, g + 10, 12 + g, 14 + g)
        &&& LSTM::combines(f, BinaryOp::Add, steps[g + 9].tensor, steps[g + 10].tensor, mode, steps, g + 11, 16 + g, 17 + g)
        &&& activation::activated(f, Activation::Tanh, steps[g + 11].tensor, mode, steps[g + 12].tensor)
        &&& trace::is_step(steps[g + 12], steps[g + 12].tensor, seq![(18 + g) as usize])
        &&& LSTM::combines(f, BinaryOp::Mul, steps[g + 8].tensor, steps[g + 12].tensor, mode, steps, g + 13, 15 + g, 19 + g)
    }

    /// All steps of a pass.
    pub open spec fn computes<F: Fpu>(&self, f: &F, x: Tensor, h: Tensor, c: Tensor, mode: GradMode, steps: Seq<Node>) -> bool {
        let g = steps.len() - 14;
        &&& g > 0
        &&& self.updates(f, c, mode, g, steps)
        &&& exists|a: Seq<Node>, b: Seq<Node>| #[trigger] self.sums(f, x, h, mode, a, b, steps.take(g + 1))
    }

    /// The next state and the next cell. The state is the last step, and the cell the
    /// third from the end.
    pub fn forward_step<F: Fpu>(&self, x: &Tensor, h_prev: &Tensor, c_prev: &Tensor, mode: &GradMode, f: &F) -> (r: Result<
        Vec<Node>,
        MatmulError,
    >)
        requires
            self.wf(),
            self.accepts(*x, *h_prev, *c_prev),
        ensures
            r is Ok <==> x.spec_shape().last() == self.w_x.in_features && h_prev.spec_shape().last() == self.w_h.in_features,
            r matches Err(e) ==> e == MatmulError::InnerMismatch,
            r matches Ok(steps) ==> self.computes(f, *x, *h_prev, *c_prev, *mode, steps@) && trace::steps_wf(
                self.operands(x.spec_shape(), h_prev.spec_shape(), c_prev.spec_shape()),
                steps@,
            ),
    {
        let ghost ops = self.operands(x.spec_shape(), h_prev.spec_shape(), c_prev.spec_shape());
        let x_ids: Vec<usize> = vec![0, 3, 4];
        let h_ids: Vec<usize> = vec![1, 5, 6];
        proof {
            assert(x_ids@ =~= seq![0usize, 3usize, 4usize]);
            assert(h_ids@ =~= seq![1usize, 5usize, 6usize]);
            assert(trace::step_shapes(ops, Seq::empty(), x_ids@) =~= self.w_x.operands(x.spec_shape()));
            assert(trace::step_shapes(ops, Seq::empty(), h_ids@) =~= self.w_h.operands(h_prev.spec_shape()));
        }
        let mut steps = match sum_products(&self.w_x, &self.w_h, x, h_prev, 7, &x_ids, &h_ids, mode, f, Ghost(ops)) {
            Ok(steps) => steps,
            Err(e) => {
                return Err(e);
            },
        };
        let ghost before = steps@;
        let g: usize = steps.len() - 1;
        proof {
            assert(trace::step_wf(ops, before, g as int));
            let (a, b) = choose|a: Seq<Node>, b: Seq<Node>| #[trigger]
                rnn::sums_products(f, self.w_x, self.w_h, *x, *h_prev, *mode, 7, x_ids@, h_ids@, a, b, before);
            assert(self.sums(f, *x, *h_prev, *mode, a, b, before));
        }
        self.update_cell(&mut steps, g, c_prev, mode, f, Ghost(x.spec_shape()), Ghost(h_prev.spec_shape()));
        proof {
            assert(steps@.take(g + 1) =~= before);
        }
        Ok(steps)
    }

    /// The steps behind the gates.
    #[verifier::rlimit(60)]
    #[verifier::spinoff_prover]
    fn update_cell<F: Fpu>(
        &self,
        steps: &mut Vec<Node>,
        g: usize,
        c_prev: &Tensor,
        mode: &GradMode,
        f: &F,
        Ghost(x): Ghost<Seq<usize>>,
        Ghost(h): Ghost<Seq<usize>>,
    )
        requires
            self.wf(),
            c_prev.wf(),
            x.len() > 0,
            h.len() > 0,
            old(steps)@.len() == g + 1,
            g < 100,
            old(steps)@[g as int].tensor.spec_shape() == self.gates_shape(x, h),
            old(steps)@[g as int].tensor.grad is None,
            mode.no_grad() || !old(steps)@[g as int].tensor.requires_grad ==> old(steps)@[g as int].tensor.op is None,
            trace::steps_wf(self.operands(x, h, c_prev.spec_shape()), old(steps)@),
            ({
                let gate = self.gate_shape(x, h);
                let kept = dims::broadcast_shape(gate, c_prev.spec_shape());
                let cell = dims::broadcast_shape(kept, gate);
                &&& arithmetic::shapes_combine(gate, c_prev.spec_shape())
                &&& arithmetic::shapes_combine(kept, gate)
                &&& arithmetic::shapes_combine(gate, cell)
            }),
        ensures
            self.updates(f, *c_prev, *mode, g as int, final(steps)@),
            forall|i: int| 0 <= i <= g ==> #[trigger] final(steps)@[i] == old(steps)@[i],
            trace::steps_wf(self.operands(x, h, c_prev.spec_shape()), final(steps)@),
    {
        let ghost ops = self.operands(x, h, c_prev.spec_shape());
        let ghost before = steps@;
        let ghost gate = self.gate_shape(x, h);
        let size: usize = self.hidden_size;
        proof {
            lemma_gates_last(self.w_x.output_shape(x), self.w_h.output_shape(h), 4 * size);
            assert(trace::step_wf(ops, before, g as int));
            assert(self.gates_shape(x, h).len() > 0);
        }
        let gates = steps[g].tensor.clone();
        let i_raw = take_gate(&gates, 0, size, mode, f);
        let f_raw = take_gate(&gates, 1, size, mode, f);
        let g_raw = take_gate(&gates, 2, size, mode, f);
        let o_raw = take_gate(&gates, 3, size, mode, f);
        let ig = self.sigmoid.forward(&i_raw, mode, f);
        let fg = self.sigmoid.forward(&f_raw, mode, f);
        let gg = self.tanh.forward(&g_raw, mode, f);
        let og = self.sigmoid.forward(&o_raw, mode, f);
        proof {
            assert(dims::collapses_to(gate, gate));
            arithmetic::lemma_collapsing_is_compatible(gate, gate);
        }
        let kept = mul_tensors(&fg, c_prev, mode, f);
        let added = mul_tensors(&ig, &gg, mode, f);
        let cell = add_tensors(&kept, &added, mode, f);
        let shaped = self.tanh.forward(&cell, mode, f);
        let state = mul_tensors(&og, &shaped, mode, f);
        let ghost (s0, s1, s2, s3) = (i_raw, f_raw, g_raw, o_raw);
        let ghost (a0, a1, a2, a3) = (ig, fg, gg, og);
        let ghost (t0, t1, t2, t3, t4) = (kept, added, cell, shaped, state);
        add_unary(steps, i_raw, 7 + g, Ghost(ops));
        assert(steps@[g as int] == before[g as int]);
        add_unary(steps, f_raw, 7 + g, Ghost(ops));
        assert(steps@[g as int] == before[g as int]);
        add_unary(steps, g_raw, 7 + g, Ghost(ops));
        assert(steps@[g as int] == before[g as int]);
        add_unary(steps, o_raw, 7 + g, Ghost(ops));
        let ghost w = steps@;
        assert(w[g + 1].tensor == s0 && w[g + 2].tensor == s1 && w[g + 3].tensor == s2 && w[g + 4].tensor == s3);
        add_unary(steps, ig, 8 + g, Ghost(ops));
        assert(steps@[g + 2] == w[g + 2]);
        add_unary(steps, fg, 9 + g, Ghost(ops));
        assert(steps@[g + 3] == w[g + 3]);
        add_unary(steps, gg, 10 + g, Ghost(ops));
        assert(steps@[g + 4] == w[g + 4]);
        add_unary(steps, og, 11 + g, Ghost(ops));
        let ghost v = steps@;
        assert(v[g + 5].tensor == a0 && v[g + 6].tensor == a1 && v[g + 7].tensor == a2 && v[g + 8].tensor == a3);
        add_binary(steps, kept, 13 + g, 2, Ghost(ops));
        assert(steps@[g + 5] == v[g + 5] && steps@[g + 7] == v[g + 7]);
        add_binary(steps, added, 12 + g, 14 + g, Ghost(ops));
        assert(steps@[g + 9].tensor == t0 && steps@[g + 10].tensor == t1);
        add_binary(steps, cell, 16 + g, 17 + g, Ghost(ops));
        add_unary(steps, shaped, 18 + g, Ghost(ops));
        assert(steps@[g + 8] == v[g + 8]);
        add_binary(steps, state, 15 + g, 19 + g, Ghost(ops));
        proof {
            let e = steps@;
            let b = g as int;
            assert(e[b] == before[b]);
            assert(e[b + 1] == w[b + 1] && e[b + 2] == w[b + 2] && e[b + 3] == w[b + 3] && e[b + 4] == w[b + 4]);
            assert(e[b + 5] == v[b + 5] && e[b + 6] == v[b + 6] && e[b + 7] == v[b + 7] && e[b + 8] == v[b + 8]);
            assert(e[b + 9].tensor == t0 && e[b + 10].tensor == t1 && e[b + 11].tensor == t2 && e[b + 12].tensor == t3 && e[b
                + 13].tensor == t4);
        }
    }

    /// The parameters of both layers.
    pub fn parameters(&self) -> (p: Vec<Tensor>)
        ensures
            p@ == self.w_x.spec_parameters() + self.w_h.spec_parameters(),
    {
        let mut p: Vec<Tensor> = self.w_x.parameters();
        let mut q: Vec<Tensor> = self.w_h.parameters();
        p.append(&mut q);
        p
    }
}

/// One of the four gates.
fn take_gate<F: Fpu>(gates: &Tensor, j: usize, size: usize, mode: &GradMode, f: &F) -> (t: Tensor)
    requires
        gates.wf(),
        gates.grad is None,
        gates.spec_shape().len() > 0,
        gates.spec_shape().last() == 4 * size,
        j < 4,
        mode.no_grad() || !gates.requires_grad ==> gates.op is None,
    ensures
        shape::slice_result(f, *gates, j * size, (j + 1) * size, *mode, t),
        t.grad is None,
        trace::made_of(t, seq![gates.spec_shape()]),
        t.spec_shape() == gates.spec_shape().update(gates.spec_shape().len() - 1, size),
{
    proof {
        assert(0 <= j * size && (j + 1) * size == j * size + size && (j + 1) * size <= 4 * size) by (nonlinear_arith)
            requires
                0 <= j < 4,
                size >= 0,
        ;
    }
    match slice_last_dim(gates, j * size, (j + 1) * size, mode, f) {
        Ok(t) => t,
        Err(_) => {
            assert(false);
            gates.clone()
        },
    }
}

/// Gates of the same number of features keep that number when stretched.
proof fn lemma_gates_last(a: Seq<usize>, b: Seq<usize>, n: int)
    requires
        a.len() > 0,
        b.len() > 0,
        a.last() == n,
        b.last() == n,
    ensures
        dims::broadcast_shape(a, b).len() > 0,
        dims::broadcast_shape(a, b).last() == n,
{
    let m = dims::max_ndim(a, b) as int;
    assert(dims::aligned(a, m, m - 1) == n);
    assert(dims::aligned(b, m, m - 1) == n);
}

} // verus!
