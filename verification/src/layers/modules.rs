use crate::autograd::{is_no_grad, GradMode, Tensor};
use crate::dims;
use crate::dims::checked_len;
use crate::float_bits;
use crate::float_bits::is_above;
use crate::fpu;
use crate::fpu::Fpu;
use crate::graph::Node;
use crate::layers::activation;
use crate::layers::activation::{Activation, Gelu, ReLU, SiLU, Sigmoid, Softmax, SoftmaxError, Tanh};
use crate::layers::attention::self_attention::SelfAttention;
use crate::layers::attention::training;
use crate::layers::basic::embedding;
use crate::layers::basic::linear;
use crate::layers::basic::{Dropout, Embedding, Linear};
use crate::layers::norm::RMSNorm;
use crate::layers::rnn::{LSTM, RNN};
use crate::module;
use crate::module::{Module, ModuleError};
use crate::ops::arithmetic;
use crate::ops::arithmetic::BinaryOp;
use crate::ops::matmul;
use crate::ops::matmul::MatmulError;
use crate::trace;
use crate::trace::{add_binary, add_unary};
use vstd::prelude::*;

verus! {

/// A single step that is made of the input.
pub open spec fn one_step(t: Tensor, steps: Seq<Node>) -> bool {
    steps.len() == 1 && trace::is_step(steps[0], t, seq![0usize])
}

/// A single step that is made of the input and of one parameter.
pub open spec fn one_step_with(t: Tensor, steps: Seq<Node>) -> bool {
    steps.len() == 1 && trace::is_step(steps[0], t, seq![0usize, 1usize])
}

/// An activation takes one step.
pub open spec fn activation_computes<F: Fpu>(
    f: &F,
    kind: Activation,
    input: Tensor,
    mode: GradMode,
    r: Result<Seq<Node>, ModuleError>,
) -> bool {
    r matches Ok(steps) && steps.len() == 1 && activation::activated(f, kind, input, mode, steps[0].tensor) && one_step(
        steps[0].tensor,
        steps,
    )
}

fn activation_steps<F: Fpu>(t: Tensor, input: &Tensor, kind: Activation, mode: &GradMode, f: &F) -> (steps: Vec<Node>)
    requires
        activation::activated(f, kind, *input, *mode, t),
    ensures
        activation_computes(f, kind, *input, *mode, Ok(steps@)),
        trace::steps_wf(module::module_operands(input.spec_shape(), Seq::empty()), steps@),
{
    let mut steps: Vec<Node> = Vec::new();
    let ghost ops = module::module_operands(input.spec_shape(), Seq::empty());
    add_unary(&mut steps, t, 0, Ghost(ops));
    steps
}

fn no_parameters() -> (p: Vec<Tensor>)
    ensures
        p@ == Seq::<Tensor>::empty(),
{
    Vec::new()
}

impl<F: Fpu> Module<F> for ReLU {
    open spec fn valid(&self) -> bool {
        true
    }

    open spec fn param_list(&self) -> Seq<Tensor> {
        Seq::empty()
    }

    open spec fn computes(&self, params: Seq<Tensor>, f: &F, input: Tensor, mode: GradMode, r: Result<Seq<Node>, ModuleError>) -> bool {
        activation_computes(f, Activation::Relu, input, mode, r)
    }

    fn forward(&self, input: &Tensor, mode: &GradMode, f: &F) -> (r: Result<Vec<Node>, ModuleError>) {
        let t = ReLU::forward(self, input, mode, f);
        Ok(activation_steps(t, input, Activation::Relu, mode, f))
    }

    fn is_valid(&self) -> (r: bool) {
        true
    }

    fn parameters(&self) -> (p: Vec<Tensor>) {
        no_parameters()
    }

    fn replace_parameters(&mut self, params: &Vec<Tensor>) {
        assert(params@ =~= Seq::empty());
    }
}

impl<F: Fpu> Module<F> for Sigmoid {
    open spec fn valid(&self) -> bool {
        true
    }

    open spec fn param_list(&self) -> Seq<Tensor> {
        Seq::empty()
    }

    open spec fn computes(&self, params: Seq<Tensor>, f: &F, input: Tensor, mode: GradMode, r: Result<Seq<Node>, ModuleError>) -> bool {
        activation_computes(f, Activation::Sigmoid, input, mode, r)
    }

    fn forward(&self, input: &Tensor, mode: &GradMode, f: &F) -> (r: Result<Vec<Node>, ModuleError>) {
        let t = Sigmoid::forward(self, input, mode, f);
        Ok(activation_steps(t, input, Activation::Sigmoid, mode, f))
    }

    fn is_valid(&self) -> (r: bool) {
        true
    }

    fn parameters(&self) -> (p: Vec<Tensor>) {
        no_parameters()
    }

    fn replace_parameters(&mut self, params: &Vec<Tensor>) {
        assert(params@ =~= Seq::empty());
    }
}

impl<F: Fpu> Module<F> for Tanh {
    open spec fn valid(&self) -> bool {
        true
    }

    open spec fn param_list(&self) -> Seq<Tensor> {
        Seq::empty()
    }

    open spec fn computes(&self, params: Seq<Tensor>, f: &F, input: Tensor, mode: GradMode, r: Result<Seq<Node>, ModuleError>) -> bool {
        activation_computes(f, Activation::Tanh, input, mode, r)
    }

    fn forward(&self, input: &Tensor, mode: &GradMode, f: &F) -> (r: Result<Vec<Node>, ModuleError>) {
        let t = Tanh::forward(self, input, mode, f);
        Ok(activation_steps(t, input, Activation::Tanh, mode, f))
    }

    fn is_valid(&self) -> (r: bool) {
        true
    }

    fn parameters(&self) -> (p: Vec<Tensor>) {
        no_parameters()
    }

    fn replace_parameters(&mut self, params: &Vec<Tensor>) {
        assert(params@ =~= Seq::empty());
    }
}

impl<F: Fpu> Module<F> for SiLU {
    open spec fn valid(&self) -> bool {
        true
    }

    open spec fn param_list(&self) -> Seq<Tensor> {
        Seq::empty()
    }

    open spec fn computes(&self, params: Seq<Tensor>, f: &F, input: Tensor, mode: GradMode, r: Result<Seq<Node>, ModuleError>) -> bool {
        activation_computes(f, Activation::Silu, input, mode, r)
    }

    fn forward(&self, input: &Tensor, mode: &GradMode, f: &F) -> (r: Result<Vec<Node>, ModuleError>) {
        let t = SiLU::forward(self, input, mode, f);
        Ok(activation_steps(t, input, Activation::Silu, mode, f))
    }

    fn is_valid(&self) -> (r: bool) {
        true
    }

    fn parameters(&self) -> (p: Vec<Tensor>) {
        no_parameters()
    }

    fn replace_parameters(&mut self, params: &Vec<Tensor>) {
        assert(params@ =~= Seq::empty());
    }
}

impl<F: Fpu> Module<F> for Gelu {
    open spec fn valid(&self) -> bool {
        true
    }

    open spec fn param_list(&self) -> Seq<Tensor> {
        Seq::empty()
    }

    open spec fn computes(&self, params: Seq<Tensor>, f: &F, input: Tensor, mode: GradMode, r: Result<Seq<Node>, ModuleError>) -> bool {
        activation_computes(f, Activation::Gelu, input, mode, r)
    }

    fn forward(&self, input: &Tensor, mode: &GradMode, f: &F) -> (r: Result<Vec<Node>, ModuleError>) {
        let t = Gelu::forward(self, input, mode, f);
        Ok(activation_steps(t, input, Activation::Gelu, mode, f))
    }

    fn is_valid(&self) -> (r: bool) {
        true
    }

    fn parameters(&self) -> (p: Vec<Tensor>) {
        no_parameters()
    }

    fn replace_parameters(&mut self, params: &Vec<Tensor>) {
        assert(params@ =~= Seq::empty());
    }
}

/// What keeps a softmax from an input.
pub open spec fn softmax_refusal(input: Seq<usize>, axis: int) -> Option<ModuleError> {
    match activation::softmax_error(input, axis) {
        Some(e) => Some(ModuleError::Softmax(e)),
        None => if input.last() == 0 {
            Some(ModuleError::EmptyAxis)
        } else {
            None
        },
    }
}

impl<F: Fpu> Module<F> for Softmax {
    open spec fn valid(&self) -> bool {
        true
    }

    open spec fn param_list(&self) -> Seq<Tensor> {
        Seq::empty()
    }

    open spec fn computes(&self, params: Seq<Tensor>, f: &F, input: Tensor, mode: GradMode, r: Result<Seq<Node>, ModuleError>) -> bool {
        match softmax_refusal(input.spec_shape(), self.axis as int) {
            Some(e) => r == Err::<Seq<Node>, ModuleError>(e),
            None => r matches Ok(steps) && steps.len() == 1 && activation::softmax_result(f, input, mode, steps[0].tensor)
                && one_step(steps[0].tensor, steps),
        }
    }

    fn forward(&self, input: &Tensor, mode: &GradMode, f: &F) -> (r: Result<Vec<Node>, ModuleError>) {
        let shape: Vec<usize> = input.shape_vec();
        if shape.len() == 0 {
            return Err(ModuleError::Softmax(SoftmaxError::NoDimension));
        }
        if self.axis != shape.len() - 1 {
            return Err(ModuleError::Softmax(SoftmaxError::NotLastAxis));
        }
        if shape[shape.len() - 1] == 0 {
            return Err(ModuleError::EmptyAxis);
        }
        match Softmax::forward(self, input, mode, f) {
            Ok(t) => {
                let mut steps: Vec<Node> = Vec::new();
                let ghost ops = module::module_operands(input.spec_shape(), Seq::empty());
                add_unary(&mut steps, t, 0, Ghost(ops));
                Ok(steps)
            },
            Err(e) => Err(ModuleError::Softmax(e)),
        }
    }

    fn is_valid(&self) -> (r: bool) {
        true
    }

    fn parameters(&self) -> (p: Vec<Tensor>) {
        no_parameters()
    }

    fn replace_parameters(&mut self, params: &Vec<Tensor>) {
        assert(params@ =~= Seq::empty());
    }
}

/// Draws for elements, of which a share `p` is dropped.
pub open spec fn drawn<F: Fpu>(f: &F, p: u32, n: int, keep: Seq<bool>) -> bool {
    &&& keep.len() == n
    &&& forall|i: int| 0 <= i < n ==> fpu::draws(f, p, #[trigger] keep[i])
}

/// A pass drops the elements that the draws do not keep.
pub open spec fn drops_at_random<F: Fpu>(f: &F, d: Dropout, input: Tensor, mode: GradMode, steps: Seq<Node>) -> bool {
    exists|keep: Seq<bool>|
        drawn(f, d.p, dims::product(input.spec_shape()) as int, keep) && #[trigger] d.computes(f, input, keep, mode, steps)
}

impl<F: Fpu> Module<F> for Dropout {
    open spec fn valid(&self) -> bool {
        true
    }

    open spec fn param_list(&self) -> Seq<Tensor> {
        Seq::empty()
    }

    open spec fn computes(&self, params: Seq<Tensor>, f: &F, input: Tensor, mode: GradMode, r: Result<Seq<Node>, ModuleError>) -> bool {
        if !self.drops() {
            r == Ok::<Seq<Node>, ModuleError>(Seq::empty())
        } else if float_bits::above(self.p, fpu::ONE) {
            r == Err::<Seq<Node>, ModuleError>(ModuleError::Share)
        } else {
            r matches Ok(steps) && drops_at_random(f, *self, input, mode, steps)
        }
    }

    fn forward(&self, input: &Tensor, mode: &GradMode, f: &F) -> (r: Result<Vec<Node>, ModuleError>) {
        let mut keep: Vec<bool> = Vec::new();
        if self.training && is_above(self.p, fpu::ZERO) {
            if is_above(self.p, fpu::ONE) {
                return Err(ModuleError::Share);
            }
            let n: usize = input.len();
            for i in 0..n
                invariant
                    keep@.len() == i,
                    forall|j: int| 0 <= j < i ==> fpu::draws(f, self.p, #[trigger] keep@[j]),
            {
                keep.push(f.keeps(self.p));
            }
        }
        let steps = Dropout::forward(self, input, &keep, mode, f);
        proof {
            assert(seq![input.spec_shape()] =~= module::module_operands(input.spec_shape(), Seq::empty()));
            if self.drops() {
                assert(drawn(f, self.p, dims::product(input.spec_shape()) as int, keep@));
                assert(self.computes(f, *input, keep@, *mode, steps@));
            } else {
                assert(steps@ =~= Seq::empty());
            }
        }
        Ok(steps)
    }

    fn is_valid(&self) -> (r: bool) {
        true
    }

    fn parameters(&self) -> (p: Vec<Tensor>) {
        no_parameters()
    }

    fn replace_parameters(&mut self, params: &Vec<Tensor>) {
        assert(params@ =~= Seq::empty());
    }

    /// Drops elements from now on; the recording of operations stays as it is.
    fn train_mode(&mut self, mode: &mut GradMode)
        ensures
            *final(self) == (Dropout { training: true, ..*old(self) }),
            *final(mode) == *old(mode),
    {
        Dropout::train_mode(self);
    }

    /// Lets everything through from now on; the recording of operations stays as it is.
    fn eval_mode(&mut self, mode: &mut GradMode)
        ensures
            *final(self) == (Dropout { training: false, ..*old(self) }),
            *final(mode) == *old(mode),
    {
        Dropout::eval_mode(self);
    }
}

/// What keeps a product with a weight from an input.
pub open spec fn linear_refusal(l: Linear, input: Seq<usize>) -> Option<ModuleError> {
    if input.len() == 0 {
        Some(ModuleError::NoAxis)
    } else if input.last() == 0 {
        Some(ModuleError::EmptyAxis)
    } else if !dims::fits(l.output_shape(input)) {
        Some(ModuleError::TooLarge)
    } else if input.last() != l.in_features {
        Some(ModuleError::Inner(MatmulError::InnerMismatch))
    } else {
        None
    }
}

impl<F: Fpu> Module<F> for Linear {
    open spec fn valid(&self) -> bool {
        self.wf()
    }

    open spec fn param_list(&self) -> Seq<Tensor> {
        self.spec_parameters()
    }

    open spec fn computes(&self, params: Seq<Tensor>, f: &F, input: Tensor, mode: GradMode, r: Result<Seq<Node>, ModuleError>) -> bool {
        let l = self.with_parameters(params);
        match linear_refusal(l, input.spec_shape()) {
            Some(e) => r == Err::<Seq<Node>, ModuleError>(e),
            None => r matches Ok(steps) && Linear::computes(&l, f, input, mode, steps),
        }
    }

    fn forward(&self, input: &Tensor, mode: &GradMode, f: &F) -> (r: Result<Vec<Node>, ModuleError>) {
        let shape: Vec<usize> = input.shape_vec();
        if shape.len() == 0 {
            return Err(ModuleError::NoAxis);
        }
        let last: usize = shape.len() - 1;
        if shape[last] == 0 {
            return Err(ModuleError::EmptyAxis);
        }
        let mut out: Vec<usize> = shape;
        out.set(last, self.out_features);
        assert(out@ =~= self.output_shape(input.spec_shape()));
        if checked_len(&out).is_none() {
            return Err(ModuleError::TooLarge);
        }
        match Linear::forward(self, input, mode, f) {
            Ok(steps) => {
                assert(self.operands(input.spec_shape()) =~= module::module_operands(
                    input.spec_shape(),
                    self.spec_parameters(),
                ));
                Ok(steps)
            },
            Err(e) => Err(ModuleError::Inner(e)),
        }
    }

    fn is_valid(&self) -> (r: bool) {
        self.is_sound()
    }

    fn parameters(&self) -> (p: Vec<Tensor>) {
        Linear::parameters(self)
    }

    fn replace_parameters(&mut self, params: &Vec<Tensor>)
        ensures
            *final(self) == old(self).with_parameters(params@),
    {
        self.put(params, 0);
        assert(self.spec_parameters() =~= params@);
    }
}

/// The result of a lookup, as a single step.
pub open spec fn embedding_computes<F: Fpu>(
    f: &F,
    e: Embedding,
    input: Tensor,
    mode: GradMode,
    r: Result<Seq<Node>, ModuleError>,
) -> bool {
    if !dims::fits(embedding::lookup_shape(input.spec_shape(), e.embed_dim)) {
        r == Err::<Seq<Node>, ModuleError>(ModuleError::TooLarge)
    } else {
        match r {
            Ok(steps) => steps.len() == 1 && e.looked_up(f, input, mode, Ok(steps[0].tensor)) && one_step_with(
                steps[0].tensor,
                steps,
            ),
            Err(ModuleError::Index(i)) => e.looked_up(f, input, mode, Err(i)),
            Err(_) => false,
        }
    }
}

impl<F: Fpu> Module<F> for Embedding {
    open spec fn valid(&self) -> bool {
        self.wf()
    }

    open spec fn param_list(&self) -> Seq<Tensor> {
        seq![self.weight]
    }

    open spec fn computes(&self, params: Seq<Tensor>, f: &F, input: Tensor, mode: GradMode, r: Result<Seq<Node>, ModuleError>) -> bool {
        embedding_computes(f, self.with_parameters(params), input, mode, r)
    }

    fn forward(&self, input: &Tensor, mode: &GradMode, f: &F) -> (r: Result<Vec<Node>, ModuleError>) {
        let mut out: Vec<usize> = input.shape_vec();
        out.push(self.embed_dim);
        assert(out@ =~= embedding::lookup_shape(input.spec_shape(), self.embed_dim));
        if checked_len(&out).is_none() {
            return Err(ModuleError::TooLarge);
        }
        match Embedding::forward(self, input, mode, f) {
            Ok(t) => {
                let mut steps: Vec<Node> = Vec::new();
                let ghost ops = module::module_operands(input.spec_shape(), seq![self.weight]);
                proof {
                    let ids = choose|ids: Seq<usize>| #[trigger] self.found(f, *input, *mode, ids, t);
                    assert(self.found(f, *input, *mode, ids, t));
                    assert(trace::local_shapes(ops, steps@)[1] == self.weight.spec_shape());
                }
                add_binary(&mut steps, t, 0, 1, Ghost(ops));
                Ok(steps)
            },
            Err(e) => Err(ModuleError::Index(e)),
        }
    }

    fn is_valid(&self) -> (r: bool) {
        self.is_sound()
    }

    fn parameters(&self) -> (p: Vec<Tensor>) {
        let p: Vec<Tensor> = vec![self.weight.clone()];
        assert(p@ =~= seq![self.weight]);
        p
    }

    fn replace_parameters(&mut self, params: &Vec<Tensor>)
        ensures
            *final(self) == old(self).with_parameters(params@),
    {
        self.weight = params[0].clone();
        assert(seq![self.weight] =~= params@);
    }
}

/// What keeps a normalization from an input. A record needs a weight for each feature.
pub open spec fn norm_refusal(n: RMSNorm, input: Tensor, mode: GradMode) -> Option<ModuleError> {
    let shape = input.spec_shape();
    if shape.len() == 0 {
        Some(ModuleError::NoAxis)
    } else if shape.last() == 0 {
        Some(ModuleError::EmptyAxis)
    } else if n.records(input, mode) && n.weight.spec_shape()[0] != shape.last() {
        Some(ModuleError::WidthMismatch)
    } else {
        None
    }
}

impl<F: Fpu> Module<F> for RMSNorm {
    open spec fn valid(&self) -> bool {
        self.wf()
    }

    open spec fn param_list(&self) -> Seq<Tensor> {
        seq![self.weight]
    }

    open spec fn computes(&self, params: Seq<Tensor>, f: &F, input: Tensor, mode: GradMode, r: Result<Seq<Node>, ModuleError>) -> bool {
        let n = self.with_parameters(params);
        match norm_refusal(n, input, mode) {
            Some(e) => r == Err::<Seq<Node>, ModuleError>(e),
            None => r matches Ok(steps) && steps.len() == 1 && n.norm_result(f, input, mode, steps[0].tensor)
                && one_step_with(steps[0].tensor, steps),
        }
    }

    fn forward(&self, input: &Tensor, mode: &GradMode, f: &F) -> (r: Result<Vec<Node>, ModuleError>) {
        let shape: Vec<usize> = input.shape_vec();
        if shape.len() == 0 {
            return Err(ModuleError::NoAxis);
        }
        let k: usize = shape[shape.len() - 1];
        if k == 0 {
            return Err(ModuleError::EmptyAxis);
        }
        let w: Vec<usize> = self.weight.shape_vec();
        if !is_no_grad(mode) && (input.requires_grad() || self.weight.requires_grad()) && w[0] != k {
            return Err(ModuleError::WidthMismatch);
        }
        let t = RMSNorm::forward(self, input, mode, f);
        let mut steps: Vec<Node> = Vec::new();
        let ghost ops = module::module_operands(input.spec_shape(), seq![self.weight]);
        proof {
            assert(trace::local_shapes(ops, steps@)[0] == input.spec_shape());
            assert(trace::local_shapes(ops, steps@)[1] == self.weight.spec_shape());
            if self.records(*input, *mode) {
                assert(self.weight.spec_shape() =~= seq![k]);
                assert(seq![input.spec_shape(), self.weight.spec_shape()] =~= seq![input.spec_shape(), seq![k]]);
            }
        }
        add_binary(&mut steps, t, 0, 1, Ghost(ops));
        Ok(steps)
    }

    fn is_valid(&self) -> (r: bool) {
        self.is_sound()
    }

    fn parameters(&self) -> (p: Vec<Tensor>) {
        let p: Vec<Tensor> = vec![self.weight.clone()];
        assert(p@ =~= seq![self.weight]);
        p
    }

    fn replace_parameters(&mut self, params: &Vec<Tensor>)
        ensures
            *final(self) == old(self).with_parameters(params@),
    {
        self.weight = params[0].clone();
        assert(seq![self.weight] =~= params@);
    }
}

/// What keeps attention without a cache from an input.
pub open spec fn attention_refusal(a: SelfAttention, input: Seq<usize>, mode: GradMode) -> Option<ModuleError> {
    if !a.manageable(input) {
        Some(ModuleError::TooLarge)
    } else {
        match a.forward_error(input, None, mode) {
            Some(e) => Some(ModuleError::Attention(e)),
            None => None,
        }
    }
}

/// Attention without a cache.
pub open spec fn attention_computes<F: Fpu>(f: &F, a: SelfAttention, input: Tensor, mode: GradMode, steps: Seq<Node>) -> bool {
    exists|after: Option<crate::layers::attention::cache::KVCacheInner>| #[trigger]
        a.computes(f, input, None, mode, steps, after)
}

impl<F: Fpu> Module<F> for SelfAttention {
    open spec fn valid(&self) -> bool {
        self.wf()
    }

    open spec fn param_list(&self) -> Seq<Tensor> {
        seq![self.w_q.weight, self.w_k.weight, self.w_v.weight, self.w_o.weight]
    }

    open spec fn computes(&self, params: Seq<Tensor>, f: &F, input: Tensor, mode: GradMode, r: Result<Seq<Node>, ModuleError>) -> bool {
        let a = self.with_parameters(params);
        match attention_refusal(a, input.spec_shape(), mode) {
            Some(e) => r == Err::<Seq<Node>, ModuleError>(e),
            None => r matches Ok(steps) && attention_computes(f, a, input, mode, steps),
        }
    }

    fn forward(&self, input: &Tensor, mode: &GradMode, f: &F) -> (r: Result<Vec<Node>, ModuleError>) {
        let shape: Vec<usize> = input.shape_vec();
        if shape.len() == 3 {
            let limit: usize = i32::MAX as usize;
            let cache: Vec<usize> = vec![shape[0], self.n_kv_head, self.max_seq, self.head_dim];
            let scores: Vec<usize> = vec![shape[0], self.n_head, shape[1], shape[1]];
            proof {
                assert(cache@ =~= self.cache_shape(shape@[0]));
                assert(scores@ =~= seq![shape@[0], self.n_head, shape@[1], shape@[1]]);
            }
            if shape[0] > limit || shape[1] > limit || self.w_q.in_features > limit || checked_len(&cache).is_none()
                || checked_len(&scores).is_none() {
                return Err(ModuleError::TooLarge);
            }
        }
        match SelfAttention::forward(self, input, None, mode, f) {
            Ok((steps, after)) => {
                proof {
                    assert(self.computes(f, *input, None, *mode, steps@, after));
                    assert(attention_computes(f, *self, *input, *mode, steps@));
                    assert(training::attention_operands(*self, input.spec_shape()) =~= module::module_operands(
                        input.spec_shape(),
                        seq![self.w_q.weight, self.w_k.weight, self.w_v.weight, self.w_o.weight],
                    ));
                }
                Ok(steps)
            },
            Err(e) => Err(ModuleError::Attention(e)),
        }
    }

    fn is_valid(&self) -> (r: bool) {
        self.is_sound()
    }

    fn parameters(&self) -> (p: Vec<Tensor>) {
        let mut p: Vec<Tensor> = Vec::new();
        p.push(self.w_q.weight.clone());
        p.push(self.w_k.weight.clone());
        p.push(self.w_v.weight.clone());
        p.push(self.w_o.weight.clone());
        assert(p@ =~= seq![self.w_q.weight, self.w_k.weight, self.w_v.weight, self.w_o.weight]);
        p
    }

    fn replace_parameters(&mut self, params: &Vec<Tensor>)
        ensures
            *final(self) == old(self).with_parameters(params@),
    {
        self.w_q.weight = params[0].clone();
        self.w_k.weight = params[1].clone();
        self.w_v.weight = params[2].clone();
        self.w_o.weight = params[3].clone();
        assert(seq![self.w_q.weight, self.w_k.weight, self.w_v.weight, self.w_o.weight] =~= params@);
    }
}

impl<F: Fpu> Module<F> for RNN {
    open spec fn valid(&self) -> bool {
        self.wf()
    }

    open spec fn param_list(&self) -> Seq<Tensor> {
        self.w_ih.spec_parameters() + self.w_hh.spec_parameters()
    }

    /// A pass needs a state, and goes through another function.
    open spec fn computes(&self, params: Seq<Tensor>, f: &F, input: Tensor, mode: GradMode, r: Result<Seq<Node>, ModuleError>) -> bool {
        r == Err::<Seq<Node>, ModuleError>(ModuleError::UseForwardStep)
    }

    fn forward(&self, input: &Tensor, mode: &GradMode, f: &F) -> (r: Result<Vec<Node>, ModuleError>) {
        Err(ModuleError::UseForwardStep)
    }

    fn is_valid(&self) -> (r: bool) {
        self.is_sound()
    }

    fn parameters(&self) -> (p: Vec<Tensor>) {
        RNN::parameters(self)
    }

    fn replace_parameters(&mut self, params: &Vec<Tensor>)
        ensures
            *final(self) == old(self).with_parameters(params@),
    {
        let start: usize = self.w_ih.parameters().len();
        self.w_ih.put(params, 0);
        self.w_hh.put(params, start);
        assert(self.w_ih.spec_parameters() + self.w_hh.spec_parameters() =~= params@);
    }
}

impl<F: Fpu> Module<F> for LSTM {
    open spec fn valid(&self) -> bool {
        self.wf()
    }

    open spec fn param_list(&self) -> Seq<Tensor> {
        self.w_x.spec_parameters() + self.w_h.spec_parameters()
    }

    /// A pass needs a state and a cell, and goes through another function.
    open spec fn computes(&self, params: Seq<Tensor>, f: &F, input: Tensor, mode: GradMode, r: Result<Seq<Node>, ModuleError>) -> bool {
        r == Err::<Seq<Node>, ModuleError>(ModuleError::UseForwardStep)
    }

    fn forward(&self, input: &Tensor, mode: &GradMode, f: &F) -> (r: Result<Vec<Node>, ModuleError>) {
        Err(ModuleError::UseForwardStep)
    }

    fn is_valid(&self) -> (r: bool) {
        self.is_sound()
    }

    fn parameters(&self) -> (p: Vec<Tensor>) {
        LSTM::parameters(self)
    }

    fn replace_parameters(&mut self, params: &Vec<Tensor>)
        ensures
            *final(self) == old(self).with_parameters(params@),
    {
        let start: usize = self.w_x.parameters().len();
        self.w_x.put(params, 0);
        self.w_h.put(params, start);
        assert(self.w_x.spec_parameters() + self.w_h.spec_parameters() =~= params@);
    }
}

/// A layer that was given a weight and a bias multiplies by that weight and adds that bias.
pub proof fn law_linear_computes_with_what_it_was_given<F: Fpu>(
    l: Linear,
    params: Seq<Tensor>,
    f: &F,
    input: Tensor,
    mode: GradMode,
    steps: Seq<Node>,
)
    requires
        params.len() == l.spec_parameters().len(),
        <Linear as Module<F>>::computes(&l, params, f, input, mode, Ok(steps)),
    ensures
        match l.bias {
            None => steps.len() == 1 && matmul::matmul_result(f, input, params[0], mode, steps[0].tensor),
            Some(_) => if mode.no_grad() {
                steps.len() == 1 && linear::is_affine(f, input, params[0], params[1], steps[0].tensor)
            } else {
                &&& steps.len() == 2
                &&& matmul::matmul_result(f, input, params[0], mode, steps[0].tensor)
                &&& arithmetic::combined(f, BinaryOp::Add, steps[0].tensor, params[1], mode, steps[1].tensor)
            },
        },
{
}

/// A layer computes with the parameters that it holds: once others have taken their place,
/// it is the layer that was built with those.
pub proof fn law_layers_are_their_parameters<F: Fpu>(
    l: Linear,
    e: Embedding,
    n: RMSNorm,
    a: SelfAttention,
    weight: Tensor,
    params: Seq<Tensor>,
)
    requires
        params.len() == l.spec_parameters().len(),
    ensures
        l.with_parameters(params).spec_parameters() == params,
        l.with_parameters(l.spec_parameters()) == l,
        e.with_parameters(seq![weight]).weight == weight,
        e.with_parameters(seq![e.weight]) == e,
        n.with_parameters(seq![weight]).weight == weight,
        n.with_parameters(seq![n.weight]) == n,
        a.with_parameters(seq![a.w_q.weight, a.w_k.weight, a.w_v.weight, a.w_o.weight]) == a,
{
    assert(l.with_parameters(params).spec_parameters() =~= params);
}

} // verus!
