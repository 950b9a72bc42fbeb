use crate::array::NdArray;
use crate::autograd;
use crate::autograd::{is_no_grad, BackwardOp, GradMode, Tensor, TensorStorage};
use crate::dims;
use crate::float_bits;
use crate::float_bits::is_above;
use crate::fpu;
use crate::fpu::{logistic, Fpu};
use crate::ops::matmul;
use crate::ops::rows;
use crate::ops::rows::softmax_row;
use crate::precision::DType;
use std::sync::Arc;
use vstd::prelude::*;

verus! {

/// The functions that are applied to each element on its own.
#[derive(Clone, Copy, Debug, PartialEq, Eq, Structural)]
pub enum Activation {
    Relu,
    Sigmoid,
    Tanh,
    Silu,
    Gelu,
}

pub const HALF: u32 = 0x3f00_0000;

pub const THREE: u32 = 0x4040_0000;

/// The square root of two over pi.
pub const GELU_C: u32 = 0x3f4c_422a;

pub const GELU_K: u32 = 0x3d37_2713;

/// The value, where it is positive, and zero otherwise.
pub open spec fn relu(x: u32) -> u32 {
    if float_bits::above(x, fpu::ZERO) {
        x
    } else {
        fpu::ZERO
    }
}

pub open spec fn is_silu<F: Fpu>(f: &F, x: u32, y: u32) -> bool {
    exists|s: u32| fpu::is_logistic(f, x, s) && #[trigger] fpu::muls(f, x, s, y)
}

pub open spec fn is_cube<F: Fpu>(f: &F, x: u32, y: u32) -> bool {
    exists|s: u32| fpu::muls(f, x, x, s) && #[trigger] fpu::muls(f, s, x, y)
}

/// `C * (x + K * x^3)`.
pub open spec fn gelu_inner<F: Fpu>(f: &F, x: u32, y: u32) -> bool {
    exists|c: u32, k: u32, a: u32|
        is_cube(f, x, c) && #[trigger] fpu::muls(f, GELU_K, c, k) && fpu::adds(f, x, k, a) && #[trigger] fpu::muls(
            f,
            GELU_C,
            a,
            y,
        )
}

pub open spec fn gelu_tanh<F: Fpu>(f: &F, x: u32, y: u32) -> bool {
    exists|i: u32| gelu_inner(f, x, i) && #[trigger] fpu::tanhs(f, i, y)
}

/// `(x / 2) * (1 + tanh(C * (x + K * x^3)))`.
pub open spec fn is_gelu<F: Fpu>(f: &F, x: u32, y: u32) -> bool {
    exists|t: u32, h: u32, o: u32|
        gelu_tanh(f, x, t) && #[trigger] fpu::adds(f, fpu::ONE, t, o) && fpu::muls(f, HALF, x, h) && #[trigger] fpu::muls(
            f,
            h,
            o,
            y,
        )
}

/// `y` is the value of the function at `x`.
pub open spec fn activates<F: Fpu>(f: &F, kind: Activation, x: u32, y: u32) -> bool {
    match kind {
        Activation::Relu => y == relu(x),
        Activation::Sigmoid => fpu::is_logistic(f, x, y),
        Activation::Tanh => fpu::tanhs(f, x, y),
        Activation::Silu => is_silu(f, x, y),
        Activation::Gelu => is_gelu(f, x, y),
    }
}

fn gelu_tanh_of<F: Fpu>(x: u32, f: &F) -> (t: u32)
    ensures
        gelu_tanh(f, x, t),
{
    let s: u32 = f.mul(x, x);
    let c: u32 = f.mul(s, x);
    assert(is_cube(f, x, c)) by {
        assert(fpu::muls(f, x, x, s) && fpu::muls(f, s, x, c));
    }
    let k: u32 = f.mul(GELU_K, c);
    let a: u32 = f.add(x, k);
    let i: u32 = f.mul(GELU_C, a);
    assert(gelu_inner(f, x, i)) by {
        assert(fpu::muls(f, GELU_K, c, k) && fpu::adds(f, x, k, a) && fpu::muls(f, GELU_C, a, i));
    }
    let t: u32 = f.tanh(i);
    assert(fpu::tanhs(f, i, t));
    t
}

fn activate_value<F: Fpu>(kind: Activation, x: u32, f: &F) -> (y: u32)
    ensures
        activates(f, kind, x, y),
{
    match kind {
        Activation::Relu => if is_above(x, fpu::ZERO) {
            x
        } else {
            fpu::ZERO
        },
        Activation::Sigmoid => logistic(f, x),
        Activation::Tanh => f.tanh(x),
        Activation::Silu => {
            let s: u32 = logistic(f, x);
            let y: u32 = f.mul(x, s);
            assert(fpu::is_logistic(f, x, s) && fpu::muls(f, x, s, y));
            y
        },
        Activation::Gelu => {
            let t: u32 = gelu_tanh_of(x, f);
            let h: u32 = f.mul(HALF, x);
            let o: u32 = f.add(fpu::ONE, t);
            let y: u32 = f.mul(h, o);
            assert(fpu::adds(f, fpu::ONE, t, o) && fpu::muls(f, HALF, x, h) && fpu::muls(f, h, o, y));
            y
        },
    }
}

/// `r` holds the values of the function at the elements of `a`.
pub open spec fn all_activated<F: Fpu>(f: &F, kind: Activation, a: NdArray<u32>, r: NdArray<u32>) -> bool {
    &&& r.wf()
    &&& r.shape@ == a.shape@
    &&& forall|i: int| 0 <= i < a.data@.len() ==> activates(f, kind, a.data@[i], #[trigger] r.data@[i])
}

fn activate_all<F: Fpu>(kind: Activation, a: &NdArray<u32>, f: &F) -> (r: NdArray<u32>)
    requires
        a.wf(),
    ensures
        all_activated(f, kind, *a, r),
{
    let mut data: Vec<u32> = Vec::with_capacity(a.data.len());
    for i in 0..a.data.len()
        invariant
            data@.len() == i,
            forall|j: int| 0 <= j < i ==> activates(f, kind, a.data@[j], #[trigger] data@[j]),
    {
        data.push(activate_value(kind, a.data[i], f));
    }
    NdArray { shape: a.shape.clone(), data }
}

/// `s + (x * s) * (1 - s)`, where `s` is the logistic function of `x`.
pub open spec fn silu_slope<F: Fpu>(f: &F, x: u32, d: u32) -> bool {
    exists|s: u32, p: u32, o: u32, q: u32|
        fpu::is_logistic(f, x, s) && #[trigger] fpu::muls(f, x, s, p) && #[trigger] fpu::subs(f, fpu::ONE, s, o) && fpu::muls(
            f,
            p,
            o,
            q,
        ) && #[trigger] fpu::adds(f, s, q, d)
}

/// `(1 + t) / 2`.
pub open spec fn gelu_slope_left<F: Fpu>(f: &F, t: u32, r: u32) -> bool {
    exists|o: u32| fpu::adds(f, fpu::ONE, t, o) && #[trigger] fpu::muls(f, HALF, o, r)
}

/// `((x / 2) * (1 - t * t)) * C`.
pub open spec fn gelu_slope_mid<F: Fpu>(f: &F, x: u32, t: u32, r: u32) -> bool {
    exists|h: u32, q: u32, s: u32, m: u32|
        fpu::muls(f, HALF, x, h) && #[trigger] fpu::muls(f, t, t, q) && #[trigger] fpu::subs(f, fpu::ONE, q, s) && #[trigger]
            fpu::muls(f, h, s, m) && fpu::muls(f, m, GELU_C, r)
}

/// `1 + ((3 * K) * x) * x`.
pub open spec fn gelu_slope_right<F: Fpu>(f: &F, x: u32, r: u32) -> bool {
    exists|k: u32, a: u32, b: u32|
        fpu::muls(f, THREE, GELU_K, k) && #[trigger] fpu::muls(f, k, x, a) && #[trigger] fpu::muls(f, a, x, b) && fpu::adds(
            f,
            fpu::ONE,
            b,
            r,
        )
}

pub open spec fn gelu_slope<F: Fpu>(f: &F, x: u32, d: u32) -> bool {
    exists|t: u32, l: u32, m: u32, r: u32, p: u32|
        #[trigger] gelu_tanh(f, x, t) && #[trigger] gelu_slope_left(f, t, l) && gelu_slope_mid(f, x, t, m)
            && #[trigger] gelu_slope_right(f, x, r) && #[trigger] fpu::muls(f, m, r, p) && fpu::adds(f, l, p, d)
}

/// `r` is the gradient `g` times the slope of the function that took `x` to `y`.
pub open spec fn activation_sends<F: Fpu>(f: &F, kind: Activation, g: u32, x: u32, y: u32, r: u32) -> bool {
    match kind {
        Activation::Relu => r == (if !float_bits::is_nan(x) && float_bits::order_key(x) <= 0 {
            fpu::ZERO
        } else {
            g
        }),
        Activation::Sigmoid => exists|a: u32, b: u32|
            fpu::muls(f, g, y, a) && fpu::subs(f, fpu::ONE, y, b) && #[trigger] fpu::muls(f, a, b, r),
        Activation::Tanh => exists|a: u32, b: u32|
            fpu::muls(f, y, y, a) && #[trigger] fpu::subs(f, fpu::ONE, a, b) && fpu::muls(f, g, b, r),
        Activation::Silu => exists|d: u32| silu_slope(f, x, d) && #[trigger] fpu::muls(f, d, g, r),
        Activation::Gelu => exists|d: u32| gelu_slope(f, x, d) && #[trigger] fpu::muls(f, d, g, r),
    }
}

fn send_through<F: Fpu>(kind: Activation, g: u32, x: u32, y: u32, f: &F) -> (r: u32)
    ensures
        activation_sends(f, kind, g, x, y, r),
{
    match kind {
        Activation::Relu => if x % 0x8000_0000 <= 0x7f80_0000 && !is_above(x, fpu::ZERO) {
            fpu::ZERO
        } else {
            g
        },
        Activation::Sigmoid => {
            let a: u32 = f.mul(g, y);
            let b: u32 = f.sub(fpu::ONE, y);
            let r: u32 = f.mul(a, b);
            assert(fpu::muls(f, g, y, a) && fpu::subs(f, fpu::ONE, y, b) && fpu::muls(f, a, b, r));
            r
        },
        Activation::Tanh => {
            let a: u32 = f.mul(y, y);
            let b: u32 = f.sub(fpu::ONE, a);
            let r: u32 = f.mul(g, b);
            assert(fpu::muls(f, y, y, a) && fpu::subs(f, fpu::ONE, a, b) && fpu::muls(f, g, b, r));
            r
        },
        Activation::Silu => {
            let s: u32 = logistic(f, x);
            let p: u32 = f.mul(x, s);
            let o: u32 = f.sub(fpu::ONE, s);
            let q: u32 = f.mul(p, o);
            let d: u32 = f.add(s, q);
            assert(silu_slope(f, x, d)) by {
                assert(fpu::muls(f, x, s, p) && fpu::subs(f, fpu::ONE, s, o) && fpu::muls(f, p, o, q) && fpu::adds(
                    f,
                    s,
                    q,
                    d,
                ));
            }
            let r: u32 = f.mul(d, g);
            assert(fpu::muls(f, d, g, r));
            r
        },
        Activation::Gelu => {
            let t: u32 = gelu_tanh_of(x, f);
            let o: u32 = f.add(fpu::ONE, t);
            let l: u32 = f.mul(HALF, o);
            assert(gelu_slope_left(f, t, l)) by {
                assert(fpu::adds(f, fpu::ONE, t, o) && fpu::muls(f, HALF, o, l));
            }
            let h: u32 = f.mul(HALF, x);
            let q: u32 = f.mul(t, t);
            let s: u32 = f.sub(fpu::ONE, q);
            let hs: u32 = f.mul(h, s);
            let m: u32 = f.mul(hs, GELU_C);
            assert(gelu_slope_mid(f, x, t, m)) by {
                assert(fpu::muls(f, HALF, x, h) && fpu::muls(f, t, t, q) && fpu::subs(f, fpu::ONE, q, s) && fpu::muls(
                    f,
                    h,
                    s,
                    hs,
                ) && fpu::muls(f, hs, GELU_C, m));
            }
            let k: u32 = f.mul(THREE, GELU_K);
            let a: u32 = f.mul(k, x);
            let b: u32 = f.mul(a, x);
            let rr: u32 = f.add(fpu::ONE, b);
            assert(gelu_slope_right(f, x, rr)) by {
                assert(fpu::muls(f, THREE, GELU_K, k) && fpu::muls(f, k, x, a) && fpu::muls(f, a, x, b) && fpu::adds(
                    f,
                    fpu::ONE,
                    b,
                    rr,
                ));
            }
            let p: u32 = f.mul(m, rr);
            let d: u32 = f.add(l, p);
            assert(gelu_slope(f, x, d)) by {
                assert(fpu::muls(f, m, rr, p) && fpu::adds(f, l, p, d));
            }
            let r: u32 = f.mul(d, g);
            assert(fpu::muls(f, d, g, r));
            r
        },
    }
}

/// What an activation needs to send a gradient back.
pub struct ActivationBackward {
    pub kind: Activation,
    pub input: Arc<NdArray<u32>>,
    pub output: Arc<NdArray<u32>>,
}

impl ActivationBackward {
    pub open spec fn suits(&self, out: Seq<usize>, operands: Seq<Seq<usize>>) -> bool {
        &&& self.input.wf()
        &&& self.output.wf()
        &&& self.input.shape@ == out
        &&& self.output.shape@ == out
        &&& operands == seq![out]
    }

    pub open spec fn sends<F: Fpu>(&self, f: &F, g: NdArray<u32>, r: NdArray<u32>) -> bool {
        &&& r.wf()
        &&& r.shape@ == g.shape@
        &&& forall|i: int|
            0 <= i < r.data@.len() ==> activation_sends(
                f,
                self.kind,
                g.data@[i],
                self.input.data@[i],
                self.output.data@[i],
                #[trigger] r.data@[i],
            )
    }

    pub fn gradient<F: Fpu>(&self, g: &NdArray<u32>, f: &F) -> (r: NdArray<u32>)
        requires
            g.wf(),
            self.suits(g.shape@, seq![g.shape@]),
        ensures
            self.sends(f, *g, r),
    {
        let mut data: Vec<u32> = Vec::with_capacity(g.data.len());
        for i in 0..g.data.len()
            invariant
                g.wf(),
                self.suits(g.shape@, seq![g.shape@]),
                data@.len() == i,
                forall|j: int|
                    0 <= j < i ==> activation_sends(
                        f,
                        self.kind,
                        g.data@[j],
                        self.input.data@[j],
                        self.output.data@[j],
                        #[trigger] data@[j],
                    ),
        {
            data.push(send_through(self.kind, g.data[i], self.input.data[i], self.output.data[i], f));
        }
        NdArray { shape: g.shape.clone(), data }
    }
}

/// `s` holds the values of the function at the elements of `input`, computed in
/// single precision and held in the precision `dtype`.
pub open spec fn activated_storage<F: Fpu>(
    f: &F,
    kind: Activation,
    input: TensorStorage,
    dtype: DType,
    s: TensorStorage,
) -> bool {
    exists|a: NdArray<u32>, b: NdArray<u32>|
        autograd::reads_as(f, input, a) && #[trigger] all_activated(f, kind, a, b) && autograd::stored_as(f, b, dtype, s)
}

/// What an activation does: it keeps the precision where nothing is recorded, and
/// is a recorded single-precision result otherwise.
pub open spec fn activated<F: Fpu>(f: &F, kind: Activation, input: Tensor, mode: GradMode, t: Tensor) -> bool {
    &&& t.wf()
    &&& t.spec_shape() == input.spec_shape()
    &&& if mode.no_grad() || !input.requires_grad {
        t.is_leaf(t.storage, false) && activated_storage(f, kind, input.storage, input.spec_dtype(), t.storage)
    } else {
        &&& t.requires_grad && t.grad is None
        &&& activated_storage(f, kind, input.storage, DType::F32, t.storage)
        &&& t.op matches Some(op) && *op matches BackwardOp::Activation(back) && back.kind == kind && back.suits(
            t.spec_shape(),
            seq![input.spec_shape()],
        ) && autograd::reads_as(f, input.storage, *back.input) && t.storage == TensorStorage::F32(back.output)
    }
}

fn activate<F: Fpu>(kind: Activation, input: &Tensor, mode: &GradMode, f: &F) -> (t: Tensor)
    requires
        input.wf(),
    ensures
        activated(f, kind, *input, *mode, t),
{
    let a = input.data_arc(f);
    let b = Arc::new(activate_all(kind, &a, f));
    assert(all_activated(f, kind, *a, *b));
    if is_no_grad(mode) || !input.requires_grad() {
        return Tensor::from_single_no_grad(f, b, input.dtype());
    }
    assert(seq![input.spec_shape()] =~= seq![b.shape@]);
    let op = BackwardOp::Activation(ActivationBackward { kind, input: a, output: b.clone() });
    Tensor { storage: TensorStorage::F32(b), grad: None, op: Some(Arc::new(op)), requires_grad: true }
}

/// The positive part.
pub struct ReLU {}

impl ReLU {
    pub fn new() -> (l: ReLU)
        ensures
            l == (ReLU {  }),
    {
        ReLU {  }
    }

    pub fn forward<F: Fpu>(&self, input: &Tensor, mode: &GradMode, f: &F) -> (t: Tensor)
        requires
            input.wf(),
        ensures
            activated(f, Activation::Relu, *input, *mode, t),
    {
        activate(Activation::Relu, input, mode, f)
    }
}

/// The logistic function.
pub struct Sigmoid {}

impl Sigmoid {
    pub fn new() -> (l: Sigmoid)
        ensures
            l == (Sigmoid {  }),
    {
        Sigmoid {  }
    }

    pub fn forward<F: Fpu>(&self, input: &Tensor, mode: &GradMode, f: &F) -> (t: Tensor)
        requires
            input.wf(),
        ensures
            activated(f, Activation::Sigmoid, *input, *mode, t),
    {
        activate(Activation::Sigmoid, input, mode, f)
    }
}

/// The hyperbolic tangent.
pub struct Tanh {}

impl Tanh {
    pub fn new() -> (l: Tanh)
        ensures
            l == (Tanh {  }),
    {
        Tanh {  }
    }

    pub fn forward<F: Fpu>(&self, input: &Tensor, mode: &GradMode, f: &F) -> (t: Tensor)
        requires
            input.wf(),
        ensures
            activated(f, Activation::Tanh, *input, *mode, t),
    {
        activate(Activation::Tanh, input, mode, f)
    }
}

/// The value times its logistic function.
pub struct SiLU {}

impl SiLU {
    pub fn new() -> (l: SiLU)
        ensures
            l == (SiLU {  }),
    {
        SiLU {  }
    }

    pub fn forward<F: Fpu>(&self, input: &Tensor, mode: &GradMode, f: &F) -> (t: Tensor)
        requires
            input.wf(),
        ensures
            activated(f, Activation::Silu, *input, *mode, t),
    {
        activate(Activation::Silu, input, mode, f)
    }
}

/// The Gaussian error linear unit, in its approximation by a hyperbolic tangent.
pub struct Gelu {}

impl Gelu {
    pub fn new() -> (l: Gelu)
        ensures
            l == (Gelu {  }),
    {
        Gelu {  }
    }

    pub fn forward<F: Fpu>(&self, input: &Tensor, mode: &GradMode, f: &F) -> (t: Tensor)
        requires
            input.wf(),
        ensures
            activated(f, Activation::Gelu, *input, *mode, t),
    {
        activate(Activation::Gelu, input, mode, f)
    }
}

/// Why a tensor has no softmax along the requested axis.
#[derive(Clone, Copy, Debug, PartialEq, Eq, Structural)]
pub enum SoftmaxError {
    NoDimension,
    NotLastAxis,
}

pub open spec fn softmax_error(shape: Seq<usize>, axis: int) -> Option<SoftmaxError> {
    if shape.len() == 0 {
        Some(SoftmaxError::NoDimension)
    } else if axis != shape.len() - 1 {
        Some(SoftmaxError::NotLastAxis)
    } else {
        None
    }
}

/// Each row of `r` along the last axis is the softmax of the row of `a`.
pub open spec fn rows_softmaxed<F: Fpu>(f: &F, a: NdArray<u32>, r: NdArray<u32>) -> bool {
    let k = a.shape@.last() as int;
    &&& r.wf()
    &&& r.shape@ == a.shape@
    &&& forall|i: int|
        0 <= i < a.data@.len() as int / k ==> rows::is_softmax(
            f,
            matmul::flat_row(a.data@, i, k),
            #[trigger] matmul::flat_row(r.data@, i, k),
        )
}

/// The last extent divides the number of elements.
pub proof fn lemma_whole_rows(shape: Seq<usize>, len: int)
    requires
        shape.len() > 0,
        shape.last() > 0,
        len == dims::product(shape),
    ensures
        (len / (shape.last() as int)) * shape.last() == len,
        0 <= len / (shape.last() as int),
{
    let p = dims::product(shape.drop_last()) as int;
    let k = shape.last() as int;
    assert((p * k) / k == p) by (nonlinear_arith)
        requires
            k > 0,
    ;
}

/// Rows that are already there stay as they are when another is appended.
pub proof fn lemma_rows_stay(before: Seq<u32>, row: Seq<u32>, i: int, j: int, k: int)
    requires
        0 <= j < i,
        k >= 0,
        before.len() == i * k,
        row.len() == k,
    ensures
        matmul::flat_row(before + row, j, k) == matmul::flat_row(before, j, k),
        matmul::flat_row(before + row, i, k) == row,
{
    assert(0 <= j * k && j * k + k <= i * k) by (nonlinear_arith)
        requires
            0 <= j < i,
            k >= 0,
    ;
    assert(matmul::flat_row(before + row, j, k) =~= matmul::flat_row(before, j, k));
    assert(matmul::flat_row(before + row, i, k) =~= row);
}

fn softmax_rows<F: Fpu>(a: &NdArray<u32>, f: &F) -> (r: NdArray<u32>)
    requires
        a.wf(),
        a.shape@.len() > 0,
        a.shape@.last() > 0,
    ensures
        rows_softmaxed(f, *a, r),
{
    let k: usize = a.shape[a.shape.len() - 1];
    let len: usize = a.data.len();
    let outer: usize = len / k;
    let mut data: Vec<u32> = Vec::with_capacity(len);
    proof {
        lemma_whole_rows(a.shape@, len as int);
        assert(0 * k == 0) by (nonlinear_arith);
    }
    for i in 0..outer
        invariant
            k > 0,
            len == a.data@.len() == outer * k,
            data@.len() == i * k,
            forall|j: int|
                0 <= j < i ==> rows::is_softmax(
                    f,
                    matmul::flat_row(a.data@, j, k as int),
                    #[trigger] matmul::flat_row(data@, j, k as int),
                ),
    {
        proof {
            assert(0 <= i * k && i * k + k <= outer * k && (i + 1) * k == i * k + k) by (nonlinear_arith)
                requires
                    0 <= i < outer,
                    k > 0,
            ;
        }
        let x = vstd::slice::slice_subrange(a.data.as_slice(), i * k, i * k + k);
        let mut y: Vec<u32> = softmax_row(x, f);
        let ghost before = data@;
        let ghost row = y@;
        data.append(&mut y);
        proof {
            assert forall|j: int| 0 <= j < i + 1 implies rows::is_softmax(
                f,
                matmul::flat_row(a.data@, j, k as int),
                #[trigger] matmul::flat_row(data@, j, k as int),
            ) by {
                if j < i {
                    lemma_rows_stay(before, row, i as int, j, k as int);
                } else {
                    assert(matmul::flat_row(data@, j, k as int) =~= row);
                }
            }
        }
    }
    NdArray { shape: a.shape.clone(), data }
}

/// `r` is what a row receives: each output times its gradient less the product of
/// the two rows.
pub open spec fn softmax_row_sends<F: Fpu>(f: &F, y: Seq<u32>, g: Seq<u32>, r: Seq<u32>) -> bool {
    &&& r.len() == y.len()
    &&& exists|d: u32| #[trigger]
        fpu::dots(f, y, g, d) && forall|i: int| 0 <= i < y.len() ==> shifted_product(f, y[i], g[i], d, #[trigger] r[i])
}

/// `y * (g - d)`.
pub open spec fn shifted_product<F: Fpu>(f: &F, y: u32, g: u32, d: u32, r: u32) -> bool {
    exists|s: u32| fpu::subs(f, g, d, s) && #[trigger] fpu::muls(f, y, s, r)
}

/// Sends the gradient of a row through a softmax.
pub fn softmax_row_gradient<F: Fpu>(y: &[u32], g: &[u32], f: &F) -> (r: Vec<u32>)
    requires
        y@.len() == g@.len(),
    ensures
        softmax_row_sends(f, y@, g@, r@),
{
    let d: u32 = f.dot(y, g);
    assert(fpu::dots(f, y@, g@, d));
    let mut r: Vec<u32> = Vec::with_capacity(y.len());
    for i in 0..y.len()
        invariant
            y@.len() == g@.len(),
            r@.len() == i,
            forall|j: int| 0 <= j < i ==> shifted_product(f, y@[j], g@[j], d, #[trigger] r@[j]),
    {
        let s: u32 = f.sub(g[i], d);
        let v: u32 = f.mul(y[i], s);
        assert(shifted_product(f, y@[i as int], g@[i as int], d, v)) by {
            assert(fpu::subs(f, g@[i as int], d, s) && fpu::muls(f, y@[i as int], s, v));
        }
        r.push(v);
    }
    r
}

/// The rows of a recorded softmax.
pub struct SoftmaxBackward {
    pub output: Arc<NdArray<u32>>,
}

impl SoftmaxBackward {
    pub open spec fn suits(&self, out: Seq<usize>, operands: Seq<Seq<usize>>) -> bool {
        &&& self.output.wf()
        &&& self.output.shape@ == out
        &&& out.len() > 0
        &&& out.last() > 0
        &&& operands == seq![out]
    }

    pub open spec fn sends<F: Fpu>(&self, f: &F, g: NdArray<u32>, r: NdArray<u32>) -> bool {
        let k = g.shape@.last() as int;
        &&& r.wf()
        &&& r.shape@ == g.shape@
        &&& forall|i: int|
            0 <= i < g.data@.len() as int / k ==> softmax_row_sends(
                f,
                matmul::flat_row(self.output.data@, i, k),
                matmul::flat_row(g.data@, i, k),
                #[trigger] matmul::flat_row(r.data@, i, k),
            )
    }

    pub fn gradient<F: Fpu>(&self, g: &NdArray<u32>, f: &F) -> (r: NdArray<u32>)
        requires
            g.wf(),
            self.suits(g.shape@, seq![g.shape@]),
        ensures
            self.sends(f, *g, r),
    {
        let k: usize = g.shape[g.shape.len() - 1];
        let len: usize = g.data.len();
        let outer: usize = len / k;
        let y_len: usize = self.output.data.len();
        let mut data: Vec<u32> = Vec::with_capacity(len);
        proof {
            lemma_whole_rows(g.shape@, len as int);
            assert(0 * k == 0) by (nonlinear_arith);
        }
        for i in 0..outer
            invariant
                k > 0,
                len == g.data@.len() == self.output.data@.len() == outer * k,
                data@.len() == i * k,
                forall|j: int|
                    0 <= j < i ==> softmax_row_sends(
                        f,
                        matmul::flat_row(self.output.data@, j, k as int),
                        matmul::flat_row(g.data@, j, k as int),
                        #[trigger] matmul::flat_row(data@, j, k as int),
                    ),
        {
            proof {
                assert(0 <= i * k && i * k + k <= outer * k && (i + 1) * k == i * k + k) by (nonlinear_arith)
                    requires
                        0 <= i < outer,
                        k > 0,
                ;
            }
            let y = vstd::slice::slice_subrange(self.output.data.as_slice(), i * k, i * k + k);
            let x = vstd::slice::slice_subrange(g.data.as_slice(), i * k, i * k + k);
            let mut part: Vec<u32> = softmax_row_gradient(y, x, f);
            let ghost before = data@;
            let ghost row = part@;
            data.append(&mut part);
            proof {
                assert forall|j: int| 0 <= j < i + 1 implies softmax_row_sends(
                    f,
                    matmul::flat_row(self.output.data@, j, k as int),
                    matmul::flat_row(g.data@, j, k as int),
                    #[trigger] matmul::flat_row(data@, j, k as int),
                ) by {
                    if j < i {
                        lemma_rows_stay(before, row, i as int, j, k as int);
                    } else {
                        assert(matmul::flat_row(data@, j, k as int) =~= row);
                    }
                }
            }
        }
        NdArray { shape: g.shape.clone(), data }
    }
}

/// The precision of a softmax that is not recorded: that of the input, unless it is
/// held as bytes.
pub open spec fn softmax_dtype(input: DType) -> DType {
    if input.float() {
        input
    } else {
        DType::F32
    }
}

pub open spec fn softmaxed_storage<F: Fpu>(f: &F, input: TensorStorage, dtype: DType, s: TensorStorage) -> bool {
    exists|a: NdArray<u32>, b: NdArray<u32>|
        autograd::reads_as(f, input, a) && #[trigger] rows_softmaxed(f, a, b) && autograd::stored_as(f, b, dtype, s)
}

/// The exponentials of the elements along an axis, divided by their sum.
pub struct Softmax {
    pub axis: usize,
}

/// The softmax of the rows, recorded if it is to be differentiated.
pub open spec fn softmax_result<F: Fpu>(f: &F, input: Tensor, mode: GradMode, t: Tensor) -> bool {
    &&& t.wf()
    &&& t.spec_shape() == input.spec_shape()
    &&& if mode.no_grad() || !input.requires_grad {
        t.is_leaf(t.storage, false) && softmaxed_storage(f, input.storage, softmax_dtype(input.spec_dtype()), t.storage)
    } else {
        &&& t.requires_grad && t.grad is None
        &&& softmaxed_storage(f, input.storage, DType::F32, t.storage)
        &&& t.op matches Some(op) && *op matches BackwardOp::Softmax(back) && back.suits(
            t.spec_shape(),
            seq![input.spec_shape()],
        ) && t.storage == TensorStorage::F32(back.output)
    }
}

impl Softmax {
    pub fn new(axis: usize) -> (l: Softmax)
        ensures
            l.axis == axis,
    {
        Softmax { axis }
    }

    pub fn forward<F: Fpu>(&self, input: &Tensor, mode: &GradMode, f: &F) -> (r: Result<Tensor, SoftmaxError>)
        requires
            input.wf(),
            softmax_error(input.spec_shape(), self.axis as int) is None ==> input.spec_shape().last() > 0,
        ensures
            match softmax_error(input.spec_shape(), self.axis as int) {
                Some(e) => r == Err::<Tensor, SoftmaxError>(e),
                None => r matches Ok(t) && softmax_result(f, *input, *mode, t),
            },
    {
        let shape: Vec<usize> = input.shape_vec();
        if shape.len() == 0 {
            return Err(SoftmaxError::NoDimension);
        }
        if self.axis != shape.len() - 1 {
            return Err(SoftmaxError::NotLastAxis);
        }
        let a = input.data_arc(f);
        let b = Arc::new(softmax_rows(&a, f));
        assert(rows_softmaxed(f, *a, *b));
        if is_no_grad(mode) || !input.requires_grad() {
            let dtype: DType = if input.dtype().is_float() { input.dtype() } else { DType::F32 };
            return Ok(Tensor::from_single_no_grad(f, b, dtype));
        }
        assert(seq![input.spec_shape()] =~= seq![b.shape@]);
        let op = BackwardOp::Softmax(SoftmaxBackward { output: b.clone() });
        Ok(Tensor { storage: TensorStorage::F32(b), grad: None, op: Some(Arc::new(op)), requires_grad: true })
    }
}

} // verus!
