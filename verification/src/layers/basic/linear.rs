use crate::array::NdArray;
use crate::autograd;
use crate::autograd::{is_no_grad, GradMode, Tensor, TensorStorage};
use crate::dims;
use crate::dims::same_extents;
use crate::fpu;
use crate::fpu::Fpu;
use crate::graph::Node;
use crate::ops::arithmetic;
use crate::ops::arithmetic::{add_tensors, BinaryOp};
use crate::ops::matmul;
use crate::ops::matmul::{matmul as multiply, MatmulError};
use crate::ops::matvec;
use crate::ops::matvec::matvec_rowmajor_parallel;
use crate::precision::{DType, PrecisionConfig};
use crate::trace;
use crate::trace::add_step;
use std::sync::Arc;
use vstd::prelude::*;

verus! {

/// Multiplies the last axis by a matrix, which is held as `[out, in]`, and adds a bias.
pub struct Linear {
    pub weight: Tensor,
    pub bias: Option<Tensor>,
    pub in_features: usize,
    pub out_features: usize,
}

/// Why a single token cannot be multiplied.
#[derive(Clone, Copy, Debug, PartialEq, Eq, Structural)]
pub enum DecodeError {
    NotInference,
    HasBias,
    InputWidth,
    OutputWidth,
}

/// Each row of `r` is that of `y` plus the bias.
pub open spec fn biased<F: Fpu>(f: &F, y: NdArray<u32>, bias: Seq<u32>, r: NdArray<u32>) -> bool {
    &&& r.wf()
    &&& r.shape@ == y.shape@
    &&& forall|i: int|
        0 <= i < r.data@.len() ==> fpu::adds(f, y.data@[i], bias[i % (bias.len() as int)], #[trigger] r.data@[i])
}

/// The product with the weight, plus the bias, as a constant.
pub open spec fn is_affine<F: Fpu>(f: &F, x: Tensor, w: Tensor, b: Tensor, t: Tensor) -> bool {
    exists|xs: NdArray<u32>, ws: NdArray<u32>, bs: NdArray<u32>, y: NdArray<u32>, r: NdArray<u32>|
        autograd::reads_as(f, x.storage, xs) && autograd::reads_as(f, w.storage, ws) && #[trigger] autograd::reads_as(
            f,
            b.storage,
            bs,
        ) && #[trigger] matmul::multiplied(f, xs, ws, y) && #[trigger] biased(f, y, bs.data@, r) && t.is_leaf(
            TensorStorage::F32(Arc::new(r)),
            false,
        )
}

impl Linear {
    /// The weight and the bias have the extents that are recorded beside them.
    pub open spec fn wf(&self) -> bool {
        &&& self.weight.wf()
        &&& self.weight.spec_shape() == seq![self.out_features, self.in_features]
        &&& self.bias matches Some(b) ==> b.wf() && b.spec_shape() == seq![self.out_features]
    }

    /// Whether the layer is sound.
    pub fn is_sound(&self) -> (r: bool)
        ensures
            r == self.wf(),
    {
        let want: Vec<usize> = vec![self.out_features, self.in_features];
        assert(want@ =~= seq![self.out_features, self.in_features]);
        let own: Vec<usize> = self.weight.shape_vec();
        if !self.weight.is_sound() || !same_extents(&own, &want) {
            return false;
        }
        match &self.bias {
            None => true,
            Some(b) => {
                let row: Vec<usize> = vec![self.out_features];
                assert(row@ =~= seq![self.out_features]);
                let held: Vec<usize> = b.shape_vec();
                b.is_sound() && same_extents(&held, &row)
            },
        }
    }

    /// A layer that holds these initial values in a precision, with a bias of zeros or
    /// without one.
    pub open spec fn holds<F: Fpu>(&self, f: &F, values: NdArray<u32>, dtype: DType, with_bias: bool) -> bool {
        &&& self.wf()
        &&& self.out_features == values.shape@[0]
        &&& self.in_features == values.shape@[1]
        &&& self.weight.is_leaf(self.weight.storage, true)
        &&& autograd::stored_as(f, values, dtype, self.weight.storage)
        &&& self.bias is Some <==> with_bias
        &&& self.bias matches Some(b) ==> b.is_leaf(b.storage, true) && zeros_stored(f, self.out_features, dtype, b.storage)
    }

    /// A layer with a bias, in the precision of parameters.
    pub fn new<F: Fpu>(values: NdArray<u32>, precision: &PrecisionConfig, f: &F) -> (l: Linear)
        requires
            values.wf(),
            values.shape@.len() == 2,
        ensures
            l.holds(f, values, precision.parameter_dtype, true),
    {
        Linear::new_with_dtype(values, precision.parameter_dtype, f)
    }

    /// A layer without a bias, in the precision of parameters.
    pub fn new_no_bias<F: Fpu>(values: NdArray<u32>, precision: &PrecisionConfig, f: &F) -> (l: Linear)
        requires
            values.wf(),
            values.shape@.len() == 2,
        ensures
            l.holds(f, values, precision.parameter_dtype, false),
    {
        Linear::new_no_bias_with_dtype(values, precision.parameter_dtype, f)
    }

    /// A layer with a bias, in the given precision.
    pub fn new_with_dtype<F: Fpu>(values: NdArray<u32>, dtype: DType, f: &F) -> (l: Linear)
        requires
            values.wf(),
            values.shape@.len() == 2,
        ensures
            l.holds(f, values, dtype, true),
    {
        let out_features: usize = values.shape[0];
        let mut l = Linear::new_no_bias_with_dtype(values, dtype, f);
        let shape: Vec<usize> = vec![out_features];
        proof {
            assert(shape@ =~= seq![out_features]);
            lemma_one_axis(out_features);
        }
        let zeros: NdArray<u32> = NdArray { shape, data: vec![fpu::ZERO; out_features] };
        assert(all_zeros(out_features, zeros));
        l.bias = Some(Tensor::parameter_with_dtype(f, zeros, dtype));
        l
    }

    /// A layer without a bias, in the given precision.
    pub fn new_no_bias_with_dtype<F: Fpu>(values: NdArray<u32>, dtype: DType, f: &F) -> (l: Linear)
        requires
            values.wf(),
            values.shape@.len() == 2,
        ensures
            l.holds(f, values, dtype, false),
    {
        let out_features: usize = values.shape[0];
        let in_features: usize = values.shape[1];
        assert(values.shape@ =~= seq![out_features, in_features]);
        let weight = Tensor::parameter_with_dtype(f, values, dtype);
        Linear { weight, bias: None, in_features, out_features }
    }

    /// What is wrong with a single token of this length, for an output of that length.
    pub open spec fn decode_error(&self, mode: GradMode, input: int, output: int) -> Option<DecodeError> {
        if !mode.no_grad() {
            Some(DecodeError::NotInference)
        } else if self.bias is Some {
            Some(DecodeError::HasBias)
        } else if input != self.in_features {
            Some(DecodeError::InputWidth)
        } else if output != self.out_features {
            Some(DecodeError::OutputWidth)
        } else {
            None
        }
    }

    /// `out` is the weight times a single token.
    pub open spec fn decoded<F: Fpu>(&self, f: &F, input: Seq<u32>, out: Seq<u32>) -> bool {
        exists|w: NdArray<u32>| #[trigger]
            autograd::reads_as(f, self.weight.storage, w) && all_rows(f, input, w.data@, self.in_features as int, out)
                && out.len() == self.out_features
    }

    /// Multiplies a single token, without a record.
    pub fn forward_decode_slice_no_bias_into<F: Fpu>(&self, input: &[u32], out: &mut Vec<u32>, mode: &GradMode, f: &F) -> (r:
        Result<(), DecodeError>)
        requires
            self.wf(),
        ensures
            match self.decode_error(*mode, input@.len() as int, old(out)@.len() as int) {
                Some(e) => r == Err::<(), DecodeError>(e) && final(out)@ == old(out)@,
                None => r is Ok && self.decoded(f, input@, final(out)@),
            },
    {
        if !is_no_grad(mode) {
            return Err(DecodeError::NotInference);
        }
        if self.bias.is_some() {
            return Err(DecodeError::HasBias);
        }
        if input.len() != self.in_features {
            return Err(DecodeError::InputWidth);
        }
        if out.len() != self.out_features {
            return Err(DecodeError::OutputWidth);
        }
        let w = self.weight.data_arc(f);
        proof {
            dims::lemma_product2(w.shape@);
        }
        let done = matvec_rowmajor_parallel(input, w.data.as_slice(), self.out_features, self.in_features, out, f);
        assert(done is Ok);
        assert(autograd::reads_as(f, self.weight.storage, *w) && all_rows(f, input@, w.data@, self.in_features as int, out@));
        Ok(())
    }

    /// Multiplies a single token; the result has the extents `[1, 1, out]`.
    pub fn forward_decode_slice_no_bias<F: Fpu>(&self, input: &[u32], mode: &GradMode, f: &F) -> (r: Result<Tensor, DecodeError>)
        requires
            self.wf(),
        ensures
            match self.decode_error(*mode, input@.len() as int, self.out_features as int) {
                Some(e) => r == Err::<Tensor, DecodeError>(e),
                None => r matches Ok(t) && t.wf() && t.is_leaf(t.storage, false) && (t.storage matches TensorStorage::F32(a)
                    && a.shape@ == seq![1usize, 1usize, self.out_features] && self.decoded(f, input@, a.data@)),
            },
    {
        if !is_no_grad(mode) {
            return Err(DecodeError::NotInference);
        }
        if self.bias.is_some() {
            return Err(DecodeError::HasBias);
        }
        if input.len() != self.in_features {
            return Err(DecodeError::InputWidth);
        }
        let mut out: Vec<u32> = vec![fpu::ZERO; self.out_features];
        let done = self.forward_decode_slice_no_bias_into(input, &mut out, mode, f);
        assert(done is Ok);
        let shape: Vec<usize> = vec![1, 1, self.out_features];
        proof {
            assert(shape@ =~= seq![1usize, 1usize, self.out_features]);
            lemma_single_row(self.out_features);
        }
        Ok(Tensor::from_array_no_grad(NdArray { shape, data: out }))
    }

    /// The extents of what a product with this layer is made of: the input, the weight
    /// and the bias.
    pub open spec fn operands(&self, input: Seq<usize>) -> Seq<Seq<usize>> {
        match self.bias {
            None => seq![input, self.weight.spec_shape()],
            Some(b) => seq![input, self.weight.spec_shape(), b.spec_shape()],
        }
    }

    /// Extents of the result.
    pub open spec fn output_shape(&self, input: Seq<usize>) -> Seq<usize> {
        input.update(input.len() - 1, self.out_features)
    }

    /// The steps of a product: the product, and the sum with the bias. Without a record
    /// the bias is added in place.
    pub open spec fn computes<F: Fpu>(&self, f: &F, input: Tensor, mode: GradMode, steps: Seq<Node>) -> bool {
        match self.bias {
            None => steps.len() == 1 && is_product(f, input, self.weight, mode, steps[0]),
            Some(b) => if mode.no_grad() {
                &&& steps.len() == 1
                &&& is_affine(f, input, self.weight, b, steps[0].tensor)
                &&& trace::is_step(steps[0], steps[0].tensor, Seq::empty())
            } else {
                &&& steps.len() == 2
                &&& is_product(f, input, self.weight, mode, steps[0])
                &&& arithmetic::combined(f, BinaryOp::Add, steps[0].tensor, b, mode, steps[1].tensor)
                &&& trace::is_step(steps[1], steps[1].tensor, seq![3usize, 2usize])
            },
        }
    }

    /// The input can be multiplied as far as the machine goes: its last axis is not
    /// empty, and the result fits into memory.
    pub open spec fn accepts(&self, input: Tensor) -> bool {
        &&& input.wf()
        &&& input.spec_shape().len() > 0
        &&& input.spec_shape().last() > 0
        &&& dims::fits(self.output_shape(input.spec_shape()))
    }

    /// Multiplies the last axis by the weight, and adds the bias.
    pub fn forward<F: Fpu>(&self, input: &Tensor, mode: &GradMode, f: &F) -> (r: Result<Vec<Node>, MatmulError>)
        requires
            self.wf(),
            self.accepts(*input),
        ensures
            r is Ok <==> input.spec_shape().last() == self.in_features,
            r matches Err(e) ==> e == MatmulError::InnerMismatch,
            r matches Ok(steps) ==> {
                &&& self.computes(f, *input, *mode, steps@)
                &&& trace::steps_wf(self.operands(input.spec_shape()), steps@)
                &&& steps@.last().tensor.spec_shape() == self.output_shape(input.spec_shape())
                &&& steps@.last().tensor.grad is None
            },
    {
        let y = match multiply(input, &self.weight, mode, f) {
            Ok(y) => y,
            Err(e) => {
                return Err(e);
            },
        };
        let ghost operands = self.operands(input.spec_shape());
        let mut steps: Vec<Node> = Vec::new();
        assert(y.spec_shape() == self.output_shape(input.spec_shape()));
        match &self.bias {
            None => {
                let parents: Vec<usize> = vec![0, 1];
                proof {
                    assert(parents@ =~= seq![0usize, 1usize]);
                    assert(trace::step_shapes(operands, steps@, parents@) =~= seq![
                        input.spec_shape(),
                        self.weight.spec_shape(),
                    ]);
                }
                add_step(&mut steps, y, parents, Ghost(operands));
            },
            Some(b) => {
                if is_no_grad(mode) {
                    let bs = b.data_arc(f);
                    let out = add_bias(&y.data_arc(f), &bs, f);
                    let t = Tensor::from_array_no_grad(out);
                    proof {
                        let (xs, ws, z) = choose|xs: NdArray<u32>, ws: NdArray<u32>, z: NdArray<u32>|
                            autograd::reads_as(f, input.storage, xs) && autograd::reads_as(f, self.weight.storage, ws)
                                && #[trigger] matmul::multiplied(f, xs, ws, z) && y.storage == TensorStorage::F32(Arc::new(z));
                        assert(biased(f, z, bs.data@, out));
                        assert(is_affine(f, *input, self.weight, *b, t));
                    }
                    add_step(&mut steps, t, Vec::new(), Ghost(operands));
                    assert(steps@[0].parents@ =~= Seq::empty());
                } else {
                    proof {
                        let wide = y.spec_shape();
                        assert(wide.last() == self.out_features);
                        assert(dims::collapses_to(wide, b.spec_shape()));
                        arithmetic::lemma_collapsing_is_compatible(wide, b.spec_shape());
                    }
                    let parents: Vec<usize> = vec![0, 1];
                    let sum = add_tensors(&y, b, mode, f);
                    let sum_parents: Vec<usize> = vec![3, 2];
                    proof {
                        assert(parents@ =~= seq![0usize, 1usize]);
                        assert(sum_parents@ =~= seq![3usize, 2usize]);
                        assert(trace::step_shapes(operands, steps@, parents@) =~= seq![
                            input.spec_shape(),
                            self.weight.spec_shape(),
                        ]);
                    }
                    let ghost y_shape = y.spec_shape();
                    add_step(&mut steps, y, parents, Ghost(operands));
                    proof {
                        assert(trace::step_shapes(operands, steps@, sum_parents@) =~= seq![y_shape, b.spec_shape()]);
                        assert(dims::collapses_to(y_shape, y_shape));
                    }
                    add_step(&mut steps, sum, sum_parents, Ghost(operands));
                }
            },
        }
        Ok(steps)
    }

    /// The weight, and the bias if there is one.
    pub fn parameters(&self) -> (p: Vec<Tensor>)
        ensures
            p@ == self.spec_parameters(),
    {
        let mut p: Vec<Tensor> = vec![self.weight.clone()];
        if let Some(b) = &self.bias {
            p.push(b.clone());
        }
        assert(p@ =~= self.spec_parameters());
        p
    }

    /// The layer with other parameters.
    pub open spec fn with_parameters(&self, params: Seq<Tensor>) -> Linear {
        Linear {
            weight: params[0],
            bias: match self.bias {
                None => None,
                Some(_) => Some(params[1]),
            },
            ..*self
        }
    }

    /// Takes parameters out of a list, from a place on.
    pub fn put(&mut self, params: &Vec<Tensor>, start: usize)
        requires
            start + old(self).spec_parameters().len() <= params@.len(),
        ensures
            *final(self) == old(self).with_parameters(params@.skip(start as int)),
            final(self).spec_parameters() == params@.subrange(start as int, start + old(self).spec_parameters().len()),
    {
        let len: usize = params.len();
        assert(start < len);
        self.weight = params[start].clone();
        if self.bias.is_some() {
            self.bias = Some(params[start + 1].clone());
        }
        assert(self.spec_parameters() =~= params@.subrange(start as int, start + old(self).spec_parameters().len()));
    }

    pub open spec fn spec_parameters(&self) -> Seq<Tensor> {
        match self.bias {
            None => seq![self.weight],
            Some(b) => seq![self.weight, b],
        }
    }
}

/// The step that multiplies by a weight: operand zero is the input, and one the weight.
pub open spec fn is_product<F: Fpu>(f: &F, input: Tensor, weight: Tensor, mode: GradMode, n: Node) -> bool {
    &&& matmul::matmul_result(f, input, weight, mode, n.tensor)
    &&& trace::is_step(n, n.tensor, seq![0usize, 1usize])
}

/// The products of a vector with each row of a matrix.
pub open spec fn all_rows<F: Fpu>(f: &F, x: Seq<u32>, w: Seq<u32>, k: int, out: Seq<u32>) -> bool {
    forall|i: int|
        0 <= i < out.len() ==> matvec::row_sum(f, out.len() as int, x, matvec::row_of(w, i, k), #[trigger] out[i])
}

/// An array of zeros with one axis.
pub open spec fn all_zeros(n: usize, a: NdArray<u32>) -> bool {
    &&& a.wf()
    &&& a.shape@ == seq![n]
    &&& forall|i: int| 0 <= i < n ==> #[trigger] a.data@[i] == fpu::ZERO
}

/// Zeros, held in a precision.
pub open spec fn zeros_stored<F: Fpu>(f: &F, n: usize, dtype: DType, s: TensorStorage) -> bool {
    exists|z: NdArray<u32>| #[trigger] all_zeros(n, z) && autograd::stored_as(f, z, dtype, s)
}

/// The sum of each row with the bias.
fn add_bias<F: Fpu>(y: &NdArray<u32>, bias: &NdArray<u32>, f: &F) -> (r: NdArray<u32>)
    requires
        y.wf(),
        bias.wf(),
        y.shape@.len() > 0,
        bias.shape@ == seq![y.shape@.last()],
    ensures
        biased(f, *y, bias.data@, r),
{
    let len: usize = y.data.len();
    let n: usize = bias.data.len();
    proof {
        lemma_one_axis(y.shape@.last());
        let p = dims::product(y.shape@.drop_last()) as int;
        assert(n == 0 ==> p * n == 0) by (nonlinear_arith);
        assert(dims::product(y.shape@) == p * n);
    }
    let mut data: Vec<u32> = Vec::with_capacity(len);
    for i in 0..len
        invariant
            len == y.data@.len(),
            n == bias.data@.len(),
            n == 0 ==> len == 0,
            data@.len() == i,
            forall|j: int| 0 <= j < i ==> fpu::adds(f, y.data@[j], bias.data@[j % n as int], #[trigger] data@[j]),
    {
        data.push(f.add(y.data[i], bias.data[i % n]));
    }
    NdArray { shape: y.shape.clone(), data }
}

/// A single axis always fits.
pub proof fn lemma_one_axis(n: usize)
    ensures
        dims::product(seq![n]) == n,
        dims::fits(seq![n]),
{
    let m = if n == 0 {
        1usize
    } else {
        n
    };
    assert(dims::nonzero_extents(seq![n]) =~= seq![m]);
    dims::lemma_product1(n);
    dims::lemma_product1(m);
}

/// One row in three axes.
pub proof fn lemma_single_row(n: usize)
    ensures
        dims::product(seq![1usize, 1usize, n]) == n,
        dims::fits(seq![1usize, 1usize, n]),
{
    let s = seq![1usize, 1usize, n];
    let m = if n == 0 {
        1usize
    } else {
        n
    };
    let t = seq![1usize, 1usize, m];
    assert(dims::nonzero_extents(s) =~= t);
    dims::lemma_product2(s.drop_last());
    dims::lemma_product2(t.drop_last());
    let p = dims::product(s.drop_last()) as int;
    let a = s.drop_last()[0] as int;
    let b = s.drop_last()[1] as int;
    assert(a * b == 1) by (nonlinear_arith)
        requires
            a == 1,
            b == 1,
    ;
    assert(t.drop_last() =~= s.drop_last());
    assert(p * n == n && p * m == m) by (nonlinear_arith)
        requires
            p == 1,
    ;
}

} // verus!
