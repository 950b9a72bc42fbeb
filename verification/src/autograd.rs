use crate::array::NdArray;
use crate::dims;
use crate::dims::same_extents;
use crate::float_bits;
use crate::float_bits::{bf16_from_single, bf16_to_single, f16_from_single, f16_to_single};
use crate::fpu;
use crate::fpu::Fpu;
use crate::ops::convolution::Conv2dBackward;
use crate::ops::arithmetic::{AddBackward, MulBackward, SubBackward, SumBackward};
use crate::ops::matmul::{BatchMatmulBackward, MatmulBackward};
use crate::ops::shape::{CatBackward, PermuteBackward, ReshapeBackward, SliceBackward};
use crate::layers::activation::ActivationBackward;
use crate::layers::activation::SoftmaxBackward;
use crate::ops::convolution::MaxPool2dBackward;
use crate::layers::basic::embedding::EmbeddingBackward;
use crate::layers::norm::rms_norm::RmsNormBackward;
use crate::layers::attention::encoding::RopeBackward;
use crate::ops::fused::FusedSoftmaxBackward;
use crate::layers::attention::repeat::RepeatKvBackward;
use crate::loss::MseBackward;
use crate::loss::CrossEntropyBackward;
use crate::precision::DType;
use std::sync::Arc;
use vstd::prelude::*;

verus! {

/// Whether operations record how to differentiate them: a count of the open
/// no-grad scopes, and a switch for inference.
#[derive(Clone, Copy, Debug, PartialEq, Eq, Structural)]
pub struct GradMode {
    pub depth: usize,
    pub inference: bool,
}

impl GradMode {
    /// Recording is off inside a no-grad scope and in inference mode.
    pub open spec fn no_grad(&self) -> bool {
        self.depth > 0 || self.inference
    }

    /// No scope is open, and inference mode is off.
    pub fn new() -> (m: GradMode)
        ensures
            m.depth == 0,
            !m.inference,
    {
        GradMode { depth: 0, inference: false }
    }
}

/// One open no-grad scope.
pub struct NoGradGuard {
    opened: (),
}

impl NoGradGuard {
    /// Opens a scope. The count wraps around, as an atomic counter does.
    pub fn enter(mode: &mut GradMode) -> (g: NoGradGuard)
        ensures
            final(mode).depth == (if old(mode).depth == usize::MAX {
                0
            } else {
                old(mode).depth + 1
            }),
            final(mode).inference == old(mode).inference,
    {
        mode.depth = mode.depth.wrapping_add(1);
        NoGradGuard { opened: () }
    }

    /// Closes the scope.
    pub fn leave(self, mode: &mut GradMode)
        ensures
            final(mode).depth == (if old(mode).depth == 0 {
                usize::MAX as int
            } else {
                old(mode).depth - 1
            }),
            final(mode).inference == old(mode).inference,
    {
        mode.depth = mode.depth.wrapping_sub(1);
    }
}

/// Switches inference mode on or off.
pub fn set_inference_mode(mode: &mut GradMode, on: bool)
    ensures
        final(mode).inference == on,
        final(mode).depth == old(mode).depth,
{
    mode.inference = on;
}

pub fn is_inference_mode(mode: &GradMode) -> (r: bool)
    ensures
        r == mode.inference,
{
    mode.inference
}

/// Whether operations leave no record.
pub fn is_no_grad(mode: &GradMode) -> (r: bool)
    ensures
        r == mode.no_grad(),
{
    mode.depth > 0 || is_inference_mode(mode)
}

/// The state inside one more scope.
pub open spec fn inside_scope(mode: GradMode, inner: GradMode) -> bool {
    &&& inner.inference == mode.inference
    &&& inner.depth == (if mode.depth == usize::MAX {
        0
    } else {
        mode.depth + 1
    })
}

/// Runs `f` once, inside a no-grad scope, and gives back its value. The scope is that of a
/// state of its own, so that the one outside stays as it is however `f` ends.
pub fn no_grad<R>(mode: &GradMode, f: impl FnOnce(&GradMode) -> R) -> (r: R)
    requires
        forall|m: &GradMode| inside_scope(*mode, *m) ==> #[trigger] call_requires(f, (m,)),
    ensures
        exists|m: &GradMode|
            inside_scope(*mode, *m) && (mode.depth < usize::MAX ==> m.no_grad()) && #[trigger] call_ensures(f, (m,), r),
{
    let mut inner: GradMode = *mode;
    let _ = NoGradGuard::enter(&mut inner);
    assert(inside_scope(*mode, inner));
    f(&inner)
}

/// The elements of a tensor, in the precision in which they are held. Bytes carry
/// the step that one unit stands for.
pub enum TensorStorage {
    F32(Arc<NdArray<u32>>),
    F16(Arc<NdArray<u16>>),
    BF16(Arc<NdArray<u16>>),
    I8(Arc<NdArray<i8>>, u32),
}

impl Clone for TensorStorage {
    fn clone(&self) -> (r: TensorStorage)
        ensures
            r == *self,
    {
        match self {
            TensorStorage::F32(a) => TensorStorage::F32(a.clone()),
            TensorStorage::F16(a) => TensorStorage::F16(a.clone()),
            TensorStorage::BF16(a) => TensorStorage::BF16(a.clone()),
            TensorStorage::I8(a, step) => TensorStorage::I8(a.clone(), *step),
        }
    }
}

impl TensorStorage {
    pub open spec fn wf(&self) -> bool {
        match self {
            TensorStorage::F32(a) => a.wf(),
            TensorStorage::F16(a) => a.wf(),
            TensorStorage::BF16(a) => a.wf(),
            TensorStorage::I8(a, _) => a.wf(),
        }
    }

    pub open spec fn spec_shape(&self) -> Seq<usize> {
        match self {
            TensorStorage::F32(a) => a.shape@,
            TensorStorage::F16(a) => a.shape@,
            TensorStorage::BF16(a) => a.shape@,
            TensorStorage::I8(a, _) => a.shape@,
        }
    }

    pub open spec fn spec_dtype(&self) -> DType {
        match self {
            TensorStorage::F32(_) => DType::F32,
            TensorStorage::F16(_) => DType::F16,
            TensorStorage::BF16(_) => DType::BF16,
            TensorStorage::I8(_, _) => DType::I8,
        }
    }

    pub fn dtype(&self) -> (d: DType)
        ensures
            d == self.spec_dtype(),
    {
        match self {
            TensorStorage::F32(_) => DType::F32,
            TensorStorage::F16(_) => DType::F16,
            TensorStorage::BF16(_) => DType::BF16,
            TensorStorage::I8(_, _) => DType::I8,
        }
    }

    pub fn shape(&self) -> (s: Vec<usize>)
        ensures
            s@ == self.spec_shape(),
    {
        match self {
            TensorStorage::F32(a) => a.shape.clone(),
            TensorStorage::F16(a) => a.shape.clone(),
            TensorStorage::BF16(a) => a.shape.clone(),
            TensorStorage::I8(a, _) => a.shape.clone(),
        }
    }
}

/// `a` holds, in single precision, the values that `s` holds. The sixteen-bit
/// formats widen exactly; a byte stands for its value times the step.
pub open spec fn reads_as<F: Fpu>(f: &F, s: TensorStorage, a: NdArray<u32>) -> bool {
    &&& a.wf()
    &&& a.shape@ == s.spec_shape()
    &&& match s {
        TensorStorage::F32(x) => a.data@ == x.data@,
        TensorStorage::F16(x) => forall|i: int|
            0 <= i < a.data@.len() ==> #[trigger] a.data@[i] == float_bits::f16_widened(x.data@[i]),
        TensorStorage::BF16(x) => forall|i: int|
            0 <= i < a.data@.len() ==> #[trigger] a.data@[i] == float_bits::bf16_widened(x.data@[i]),
        TensorStorage::I8(x, step) => forall|i: int|
            0 <= i < a.data@.len() ==> byte_reads_as(f, x.data@[i], step, #[trigger] a.data@[i]),
    }
}

/// The value of a byte times the step.
pub open spec fn byte_reads_as<F: Fpu>(f: &F, q: i8, step: u32, r: u32) -> bool {
    exists|v: u32| fpu::bytes_as(f, q, v) && #[trigger] fpu::muls(f, v, step, r)
}

/// `s` holds the values of `a` in the precision `dtype`: the sixteen-bit formats take
/// the nearest value, and a byte the quotient by the step of the whole array.
pub open spec fn stored_as<F: Fpu>(f: &F, a: NdArray<u32>, dtype: DType, s: TensorStorage) -> bool {
    &&& s.wf()
    &&& s.spec_shape() == a.shape@
    &&& s.spec_dtype() == dtype
    &&& match s {
        TensorStorage::F32(x) => x.data@ == a.data@,
        TensorStorage::F16(x) => forall|i: int|
            0 <= i < a.data@.len() ==> #[trigger] x.data@[i] == float_bits::f16_narrowed(a.data@[i]),
        TensorStorage::BF16(x) => forall|i: int|
            0 <= i < a.data@.len() ==> #[trigger] x.data@[i] == float_bits::bf16_narrowed(a.data@[i]),
        TensorStorage::I8(x, step) => {
            &&& fpu::steps_by(f, a.data@, step)
            &&& forall|i: int| 0 <= i < a.data@.len() ==> byte_stores(f, a.data@[i], step, #[trigger] x.data@[i])
        },
    }
}

/// The byte nearest to the value in units of the step.
pub open spec fn byte_stores<F: Fpu>(f: &F, v: u32, step: u32, q: i8) -> bool {
    exists|u: u32| fpu::divs(f, v, step, u) && #[trigger] fpu::rounds_to(f, u, q)
}

impl TensorStorage {
    /// The values in single precision.
    pub fn to_single<F: Fpu>(&self, f: &F) -> (r: Arc<NdArray<u32>>)
        requires
            self.wf(),
        ensures
            reads_as(f, *self, *r),
            self matches TensorStorage::F32(own) ==> r == own,
    {
        match self {
            TensorStorage::F32(a) => a.clone(),
            TensorStorage::F16(a) => {
                let mut data: Vec<u32> = Vec::with_capacity(a.data.len());
                for i in 0..a.data.len()
                    invariant
                        data@.len() == i,
                        forall|j: int| 0 <= j < i ==> #[trigger] data@[j] == float_bits::f16_widened(a.data@[j]),
                {
                    data.push(f16_to_single(a.data[i]));
                }
                Arc::new(NdArray { shape: a.shape.clone(), data })
            },
            TensorStorage::BF16(a) => {
                let mut data: Vec<u32> = Vec::with_capacity(a.data.len());
                for i in 0..a.data.len()
                    invariant
                        data@.len() == i,
                        forall|j: int| 0 <= j < i ==> #[trigger] data@[j] == float_bits::bf16_widened(a.data@[j]),
                {
                    data.push(bf16_to_single(a.data[i]));
                }
                Arc::new(NdArray { shape: a.shape.clone(), data })
            },
            TensorStorage::I8(a, step) => {
                let mut data: Vec<u32> = Vec::with_capacity(a.data.len());
                for i in 0..a.data.len()
                    invariant
                        data@.len() == i,
                        forall|j: int| 0 <= j < i ==> byte_reads_as(f, a.data@[j], *step, #[trigger] data@[j]),
                {
                    let v: u32 = f.from_byte(a.data[i]);
                    let r: u32 = f.mul(v, *step);
                    assert(byte_reads_as(f, a.data@[i as int], *step, r)) by {
                        assert(fpu::bytes_as(f, a.data@[i as int], v) && fpu::muls(f, v, *step, r));
                    }
                    data.push(r);
                }
                Arc::new(NdArray { shape: a.shape.clone(), data })
            },
        }
    }

    /// Single-precision values, held in the precision `dtype`.
    pub fn from_single<F: Fpu>(f: &F, a: Arc<NdArray<u32>>, dtype: DType) -> (s: TensorStorage)
        requires
            a.wf(),
        ensures
            stored_as(f, *a, dtype, s),
    {
        match dtype {
            DType::F32 => TensorStorage::F32(a),
            DType::F16 => {
                let mut data: Vec<u16> = Vec::with_capacity(a.data.len());
                for i in 0..a.data.len()
                    invariant
                        data@.len() == i,
                        forall|j: int| 0 <= j < i ==> #[trigger] data@[j] == float_bits::f16_narrowed(a.data@[j]),
                {
                    data.push(f16_from_single(a.data[i]));
                }
                TensorStorage::F16(Arc::new(NdArray { shape: a.shape.clone(), data }))
            },
            DType::BF16 => {
                let mut data: Vec<u16> = Vec::with_capacity(a.data.len());
                for i in 0..a.data.len()
                    invariant
                        data@.len() == i,
                        forall|j: int| 0 <= j < i ==> #[trigger] data@[j] == float_bits::bf16_narrowed(a.data@[j]),
                {
                    data.push(bf16_from_single(a.data[i]));
                }
                TensorStorage::BF16(Arc::new(NdArray { shape: a.shape.clone(), data }))
            },
            DType::I8 => {
                let step: u32 = f.byte_step(a.data.as_slice());
                let mut data: Vec<i8> = Vec::with_capacity(a.data.len());
                for i in 0..a.data.len()
                    invariant
                        data@.len() == i,
                        forall|j: int| 0 <= j < i ==> byte_stores(f, a.data@[j], step, #[trigger] data@[j]),
                {
                    let u: u32 = f.div(a.data[i], step);
                    let q: i8 = f.to_byte(u);
                    assert(byte_stores(f, a.data@[i as int], step, q)) by {
                        assert(fpu::divs(f, a.data@[i as int], step, u) && fpu::rounds_to(f, u, q));
                    }
                    data.push(q);
                }
                TensorStorage::I8(Arc::new(NdArray { shape: a.shape.clone(), data }), step)
            },
        }
    }
}

/// An array of values, how to differentiate the operation that made it, and the
/// gradient that has been gathered for it.
pub struct Tensor {
    pub storage: TensorStorage,
    pub grad: Option<Arc<NdArray<u32>>>,
    pub op: Option<Arc<BackwardOp>>,
    pub requires_grad: bool,
}

impl Clone for Tensor {
    fn clone(&self) -> (r: Tensor)
        ensures
            r == *self,
    {
        Tensor {
            storage: self.storage.clone(),
            grad: match &self.grad {
                Some(g) => Some(g.clone()),
                None => None,
            },
            op: match &self.op {
                Some(op) => Some(op.clone()),
                None => None,
            },
            requires_grad: self.requires_grad,
        }
    }
}

/// A gradient whose extents are not those of the tensor that it is for.
#[derive(Clone, Copy, Debug, PartialEq, Eq, Structural)]
pub struct GradShapeMismatch {}

/// `r` is the elementwise sum of two arrays of the same extents.
pub open spec fn summed<F: Fpu>(f: &F, a: NdArray<u32>, b: NdArray<u32>, r: NdArray<u32>) -> bool {
    &&& r.wf()
    &&& r.shape@ == a.shape@
    &&& forall|i: int| 0 <= i < r.data@.len() ==> fpu::adds(f, a.data@[i], b.data@[i], #[trigger] r.data@[i])
}

/// What a gradient becomes when `g` is added to it.
pub open spec fn accumulated<F: Fpu>(
    f: &F,
    before: Option<Arc<NdArray<u32>>>,
    g: NdArray<u32>,
    after: Option<Arc<NdArray<u32>>>,
) -> bool {
    match (before, after) {
        (None, Some(r)) => *r == g,
        (Some(b), Some(r)) => summed(f, *b, g, *r),
        _ => false,
    }
}

impl Tensor {
    /// The storage is sound, and a gradient has the extents of the tensor.
    pub open spec fn wf(&self) -> bool {
        &&& self.storage.wf()
        &&& self.grad matches Some(g) ==> g.wf() && g.shape@ == self.spec_shape()
    }

    /// Whether the tensor is sound.
    pub fn is_sound(&self) -> (r: bool)
        ensures
            r == self.wf(),
    {
        let stored: bool = match &self.storage {
            TensorStorage::F32(a) => a.is_sound(),
            TensorStorage::F16(a) => a.is_sound(),
            TensorStorage::BF16(a) => a.is_sound(),
            TensorStorage::I8(a, _) => a.is_sound(),
        };
        stored && match &self.grad {
            Some(g) => {
                let shape: Vec<usize> = self.shape_vec();
                g.is_sound() && same_extents(&g.shape, &shape)
            },
            None => true,
        }
    }

    pub open spec fn spec_shape(&self) -> Seq<usize> {
        self.storage.spec_shape()
    }

    pub open spec fn spec_dtype(&self) -> DType {
        self.storage.spec_dtype()
    }

    /// A tensor that no operation made and that has no gradient yet.
    pub open spec fn is_leaf(&self, storage: TensorStorage, requires_grad: bool) -> bool {
        &&& self.storage == storage
        &&& self.grad is None
        &&& self.op is None
        &&& self.requires_grad == requires_grad
    }

    /// A leaf that is differentiated unless recording is off.
    pub fn new(data: NdArray<u32>, mode: &GradMode) -> (t: Tensor)
        requires
            data.wf(),
        ensures
            t.wf(),
            t.is_leaf(TensorStorage::F32(Arc::new(data)), !mode.no_grad()),
    {
        Tensor::from_data_with_grad_flag(data, !is_no_grad(mode))
    }

    /// A leaf, with the flag as given.
    pub fn from_data_with_grad_flag(data: NdArray<u32>, requires_grad: bool) -> (t: Tensor)
        requires
            data.wf(),
        ensures
            t.wf(),
            t.is_leaf(TensorStorage::F32(Arc::new(data)), requires_grad),
    {
        Tensor { storage: TensorStorage::F32(Arc::new(data)), grad: None, op: None, requires_grad }
    }

    /// A leaf that is differentiated unless recording is off.
    pub fn from_data(data: NdArray<u32>, mode: &GradMode) -> (t: Tensor)
        requires
            data.wf(),
        ensures
            t.wf(),
            t.is_leaf(TensorStorage::F32(Arc::new(data)), !mode.no_grad()),
    {
        Tensor::from_data_with_grad_flag(data, !is_no_grad(mode))
    }

    /// A constant that shares its elements.
    pub fn from_data_no_grad(data: Arc<NdArray<u32>>) -> (t: Tensor)
        requires
            data.wf(),
        ensures
            t.wf(),
            t.is_leaf(TensorStorage::F32(data), false),
    {
        Tensor::from_storage_no_grad(TensorStorage::F32(data))
    }

    /// A constant in any precision.
    pub fn from_storage_no_grad(storage: TensorStorage) -> (t: Tensor)
        requires
            storage.wf(),
        ensures
            t.wf(),
            t.is_leaf(storage, false),
    {
        Tensor { storage, grad: None, op: None, requires_grad: false }
    }

    /// A constant.
    pub fn from_array_no_grad(data: NdArray<u32>) -> (t: Tensor)
        requires
            data.wf(),
        ensures
            t.wf(),
            t.is_leaf(TensorStorage::F32(Arc::new(data)), false),
    {
        Tensor::from_data_no_grad(Arc::new(data))
    }

    /// A constant held in the given precision.
    pub fn from_single_no_grad<F: Fpu>(f: &F, data: Arc<NdArray<u32>>, dtype: DType) -> (t: Tensor)
        requires
            data.wf(),
        ensures
            t.wf(),
            t.is_leaf(t.storage, false),
            stored_as(f, *data, dtype, t.storage),
    {
        Tensor::from_storage_no_grad(TensorStorage::from_single(f, data, dtype))
    }

    /// A leaf that is differentiated, such as a weight.
    pub fn parameter(data: NdArray<u32>) -> (t: Tensor)
        requires
            data.wf(),
        ensures
            t.wf(),
            t.is_leaf(TensorStorage::F32(Arc::new(data)), true),
    {
        Tensor::from_data_with_grad_flag(data, true)
    }

    /// A leaf that is differentiated, held in the given precision.
    pub fn parameter_with_dtype<F: Fpu>(f: &F, data: NdArray<u32>, dtype: DType) -> (t: Tensor)
        requires
            data.wf(),
        ensures
            t.wf(),
            t.is_leaf(t.storage, true),
            stored_as(f, data, dtype, t.storage),
    {
        let storage = TensorStorage::from_single(f, Arc::new(data), dtype);
        Tensor { storage, grad: None, op: None, requires_grad: true }
    }

    /// The result of a recorded operation.
    pub fn recorded(data: NdArray<u32>, op: BackwardOp) -> (t: Tensor)
        requires
            data.wf(),
        ensures
            t.wf(),
            t.storage == TensorStorage::F32(Arc::new(data)),
            t.grad is None,
            t.op == Some(Arc::new(op)),
            t.requires_grad,
    {
        Tensor {
            storage: TensorStorage::F32(Arc::new(data)),
            grad: None,
            op: Some(Arc::new(op)),
            requires_grad: true,
        }
    }

    pub fn requires_grad(&self) -> (r: bool)
        ensures
            r == self.requires_grad,
    {
        self.requires_grad
    }

    pub fn dtype(&self) -> (d: DType)
        ensures
            d == self.spec_dtype(),
    {
        self.storage.dtype()
    }

    pub fn shape_vec(&self) -> (s: Vec<usize>)
        ensures
            s@ == self.spec_shape(),
    {
        self.storage.shape()
    }

    /// Number of elements.
    pub fn len(&self) -> (n: usize)
        requires
            self.wf(),
        ensures
            n == dims::product(self.spec_shape()),
    {
        match &self.storage {
            TensorStorage::F32(a) => a.data.len(),
            TensorStorage::F16(a) => a.data.len(),
            TensorStorage::BF16(a) => a.data.len(),
            TensorStorage::I8(a, _) => a.data.len(),
        }
    }

    pub fn ndim(&self) -> (n: usize)
        ensures
            n == self.spec_shape().len(),
    {
        self.shape_vec().len()
    }

    /// The stored elements.
    pub fn data_ref(&self) -> (s: &TensorStorage)
        ensures
            *s == self.storage,
    {
        &self.storage
    }

    pub fn grad_ref(&self) -> (g: &Option<Arc<NdArray<u32>>>)
        ensures
            *g == self.grad,
    {
        &self.grad
    }

    /// The stored elements, to be replaced or changed.
    pub fn data_mut(&mut self) -> (s: &mut TensorStorage)
        ensures
            *s == old(self).storage,
            *final(self) == (Tensor { storage: *final(s), ..*old(self) }),
    {
        &mut self.storage
    }

    pub fn grad_mut(&mut self) -> (g: &mut Option<Arc<NdArray<u32>>>)
        ensures
            *g == old(self).grad,
            *final(self) == (Tensor { grad: *final(g), ..*old(self) }),
    {
        &mut self.grad
    }

    /// A copy of the elements in single precision.
    pub fn data<F: Fpu>(&self, f: &F) -> (a: NdArray<u32>)
        requires
            self.wf(),
        ensures
            reads_as(f, self.storage, a),
    {
        self.storage.to_single(f).copy()
    }

    /// The elements in single precision, shared where they are held that way.
    pub fn data_arc<F: Fpu>(&self, f: &F) -> (a: Arc<NdArray<u32>>)
        requires
            self.wf(),
        ensures
            reads_as(f, self.storage, *a),
            self.storage matches TensorStorage::F32(own) ==> a == own,
    {
        self.storage.to_single(f)
    }

    /// A copy of the gradient.
    pub fn grad(&self) -> (g: Option<NdArray<u32>>)
        requires
            self.wf(),
        ensures
            g is Some <==> self.grad is Some,
            g matches Some(a) ==> a.wf() && a.same(&*self.grad->0),
    {
        match &self.grad {
            Some(g) => Some(g.copy()),
            None => None,
        }
    }

    /// The gradient, shared.
    pub fn grad_arc(&self) -> (g: Option<Arc<NdArray<u32>>>)
        ensures
            g == self.grad,
    {
        match &self.grad {
            Some(g) => Some(g.clone()),
            None => None,
        }
    }

    /// Forgets the gradient.
    pub fn zero_grad(&mut self)
        ensures
            *final(self) == (Tensor { grad: None, ..*old(self) }),
    {
        self.grad = None;
    }

    /// Adds a gradient to what has been gathered, where the extents agree.
    pub fn add_grad<F: Fpu>(&mut self, f: &F, grad: Arc<NdArray<u32>>) -> (r: Result<(), GradShapeMismatch>)
        requires
            old(self).wf(),
            grad.wf(),
        ensures
            r is Ok <==> grad.shape@ == old(self).spec_shape(),
            r is Err ==> *final(self) == *old(self),
            r is Ok ==> accumulated(f, old(self).grad, *grad, final(self).grad),
            *final(self) == (Tensor { grad: final(self).grad, ..*old(self) }),
            final(self).wf(),
    {
        if !same_extents(&self.shape_vec(), &grad.shape) {
            return Err(GradShapeMismatch {  });
        }
        let total = match &self.grad {
            None => grad,
            Some(existing) => {
                let mut data: Vec<u32> = Vec::with_capacity(grad.data.len());
                for i in 0..grad.data.len()
                    invariant
                        existing.wf(),
                        grad.wf(),
                        existing.shape@ == grad.shape@,
                        data@.len() == i,
                        forall|j: int| 0 <= j < i ==> fpu::adds(f, existing.data@[j], grad.data@[j], #[trigger] data@[j]),
                {
                    data.push(f.add(existing.data[i], grad.data[i]));
                }
                Arc::new(NdArray { shape: grad.shape.clone(), data })
            },
        };
        self.grad = Some(total);
        Ok(())
    }

    /// The extents, and the elements in row-major order.
    pub fn get_raw_data<F: Fpu>(&self, f: &F) -> (r: (Vec<usize>, Vec<u32>))
        requires
            self.wf(),
        ensures
            reads_as(f, self.storage, (NdArray { shape: r.0, data: r.1 })),
    {
        let a = self.data(f);
        (a.shape, a.data)
    }

    /// Takes the elements out and leaves none behind.
    pub fn take_raw_data<F: Fpu>(&mut self, f: &F) -> (r: (Vec<usize>, Vec<u32>))
        requires
            old(self).wf(),
        ensures
            reads_as(f, old(self).storage, (NdArray { shape: r.0, data: r.1 })),
            final(self).storage matches TensorStorage::F32(a) && a.wf() && a.shape@ == seq![0usize] && a.data@.len() == 0,
            *final(self) == (Tensor { storage: final(self).storage, ..*old(self) }),
    {
        let a = self.data(f);
        let none: Vec<usize> = vec![0];
        proof {
            assert(none@ =~= seq![0usize]);
            assert(dims::nonzero_extents(none@) =~= seq![1usize]);
            reveal_with_fuel(dims::product, 2);
            assert(dims::product(seq![1usize]) == 1) by {
                assert(seq![1usize].drop_last() =~= Seq::<usize>::empty());
            }
            assert(dims::product(seq![0usize]) == 0) by {
                assert(seq![0usize].drop_last() =~= Seq::<usize>::empty());
            }
        }
        self.storage = TensorStorage::F32(Arc::new(NdArray { shape: none, data: Vec::new() }));
        (a.shape, a.data)
    }

    /// Replaces the elements.
    pub fn set_raw_data(&mut self, shape: Vec<usize>, raw_data: Vec<u32>)
        requires
            dims::fits(shape@),
            dims::product(shape@) == raw_data@.len(),
        ensures
            final(self).storage matches TensorStorage::F32(a) && a.wf() && a.shape@ == shape@ && a.data@ == raw_data@,
            *final(self) == (Tensor { storage: final(self).storage, ..*old(self) }),
    {
        self.storage = TensorStorage::F32(Arc::new(NdArray { shape, data: raw_data }));
    }

    /// Holds the elements in another precision from now on.
    pub fn cast_inplace<F: Fpu>(&mut self, f: &F, dtype: DType)
        requires
            old(self).wf(),
        ensures
            final(self).wf(),
            final(self).spec_dtype() == dtype,
            final(self).spec_shape() == old(self).spec_shape(),
            *final(self) == (Tensor { storage: final(self).storage, ..*old(self) }),
            old(self).spec_dtype() == dtype ==> final(self).storage == old(self).storage,
            old(self).spec_dtype() != dtype ==> recast(f, old(self).storage, dtype, final(self).storage),
    {
        if self.dtype() != dtype {
            let single = self.storage.to_single(f);
            self.storage = TensorStorage::from_single(f, single, dtype);
        }
    }

    /// A constant with a copy of the elements.
    pub fn detach<F: Fpu>(&self, f: &F) -> (t: Tensor)
        requires
            self.wf(),
        ensures
            t.wf(),
            t.is_leaf(t.storage, false),
            t.storage matches TensorStorage::F32(a) && reads_as(f, self.storage, *a),
    {
        Tensor::from_data_with_grad_flag(self.data(f), false)
    }
}

/// The values of `before`, read in single precision and held in `dtype`.
pub open spec fn recast<F: Fpu>(f: &F, before: TensorStorage, dtype: DType, after: TensorStorage) -> bool {
    exists|a: NdArray<u32>| #[trigger] reads_as(f, before, a) && stored_as(f, a, dtype, after)
}

/// A constant with the elements of `t`.
pub fn detach<F: Fpu>(t: &Tensor, f: &F) -> (r: Tensor)
    requires
        t.wf(),
    ensures
        r.wf(),
        r.is_leaf(r.storage, false),
        r.storage matches TensorStorage::F32(a) && reads_as(f, t.storage, *a),
{
    t.detach(f)
}

/// How the gradient of an operation's result goes back to its operands.
pub enum BackwardOp {
    Reshape(ReshapeBackward),
    Permute(PermuteBackward),
    Cat(CatBackward),
    Slice(SliceBackward),
    Add(AddBackward),
    Sub(SubBackward),
    Mul(MulBackward),
    Sum(SumBackward),
    Matmul(MatmulBackward),
    BatchMatmul(BatchMatmulBackward),
    Activation(ActivationBackward),
    Softmax(SoftmaxBackward),
    Conv2d(Conv2dBackward),
    MaxPool2d(MaxPool2dBackward),
    Embedding(EmbeddingBackward),
    RmsNorm(RmsNormBackward),
    Rope(RopeBackward),
    FusedSoftmax(FusedSoftmaxBackward),
    RepeatKv(RepeatKvBackward),
    Mse(MseBackward),
    CrossEntropy(CrossEntropyBackward),
}

impl BackwardOp {
    /// The record belongs to a result of extents `out`, made of operands with these
    /// extents.
    pub open spec fn suits(&self, out: Seq<usize>, operands: Seq<Seq<usize>>) -> bool {
        match self {
            BackwardOp::Reshape(b) => b.suits(out, operands),
            BackwardOp::Permute(b) => b.suits(out, operands),
            BackwardOp::Cat(b) => b.suits(out, operands),
            BackwardOp::Slice(b) => b.suits(out, operands),
            BackwardOp::Add(b) => b.suits(out, operands),
            BackwardOp::Sub(b) => b.suits(out, operands),
            BackwardOp::Mul(b) => b.suits(out, operands),
            BackwardOp::Sum(b) => b.suits(out, operands),
            BackwardOp::Matmul(b) => b.suits(out, operands),
            BackwardOp::BatchMatmul(b) => b.suits(out, operands),
            BackwardOp::Activation(b) => b.suits(out, operands),
            BackwardOp::Conv2d(b) => b.suits(out, operands),
            BackwardOp::Softmax(b) => b.suits(out, operands),
            BackwardOp::MaxPool2d(b) => b.suits(out, operands),
            BackwardOp::Embedding(b) => b.suits(out, operands),
            BackwardOp::RmsNorm(b) => b.suits(out, operands),
            BackwardOp::Rope(b) => b.suits(out, operands),
            BackwardOp::FusedSoftmax(b) => b.suits(out, operands),
            BackwardOp::RepeatKv(b) => b.suits(out, operands),
            BackwardOp::Mse(b) => b.suits(out, operands),
            BackwardOp::CrossEntropy(b) => b.suits(out, operands),
        }
    }

    /// `r` is what operand `p` receives when the result has the gradient `g`.
    pub open spec fn sends<F: Fpu>(&self, f: &F, g: NdArray<u32>, p: int, r: NdArray<u32>) -> bool {
        match self {
            BackwardOp::Reshape(b) => b.sends(g, r),
            BackwardOp::Permute(b) => b.sends(g, r),
            BackwardOp::Cat(b) => b.sends(g, p, r),
            BackwardOp::Slice(b) => b.sends(g, r),
            BackwardOp::Add(b) => b.sends(f, g, p, r),
            BackwardOp::Sub(b) => b.sends(f, g, p, r),
            BackwardOp::Mul(b) => b.sends(f, g, p, r),
            BackwardOp::Sum(b) => b.sends(g, r),
            BackwardOp::Matmul(b) => b.sends(f, g, p, r),
            BackwardOp::BatchMatmul(b) => b.sends(f, g, p, r),
            BackwardOp::Activation(b) => b.sends(f, g, r),
            BackwardOp::Conv2d(b) => b.sends(f, g, p, r),
            BackwardOp::Softmax(b) => b.sends(f, g, r),
            BackwardOp::MaxPool2d(b) => b.sends(f, g, r),
            BackwardOp::Embedding(b) => b.sends(f, g, r),
            BackwardOp::RmsNorm(b) => b.sends(f, g, p, r),
            BackwardOp::Rope(b) => b.sends(f, g, r),
            BackwardOp::FusedSoftmax(b) => b.sends(f, g, r),
            BackwardOp::RepeatKv(b) => b.sends(f, g, r),
            BackwardOp::Mse(b) => b.sends(f, g, p, r),
            BackwardOp::CrossEntropy(b) => b.sends(f, g, r),
        }
    }

    /// Operand `p` takes part in the derivative.
    pub open spec fn receives(&self, p: int) -> bool {
        match self {
            BackwardOp::Embedding(_) => p == 1,
            BackwardOp::CrossEntropy(_) => p == 0,
            _ => true,
        }
    }

    /// One gradient for each operand that takes part, with the extents of that operand.
    pub fn gradients<F: Fpu>(&self, g: &NdArray<u32>, f: &F) -> (r: Vec<Option<Arc<NdArray<u32>>>>)
        requires
            g.wf(),
            exists|operands: Seq<Seq<usize>>| self.suits(g.shape@, operands),
        ensures
            forall|p: int| 0 <= p < r@.len() ==> (#[trigger] r@[p] is Some <==> self.receives(p)),
            forall|p: int| 0 <= p < r@.len() && #[trigger] r@[p] is Some ==> self.sends(f, *g, p, *r@[p]->0) && r@[p]->0.wf(),
            forall|operands: Seq<Seq<usize>>| #[trigger]
                self.suits(g.shape@, operands) ==> extents_agree(r@, operands),
    {
        let ghost operands = choose|operands: Seq<Seq<usize>>| self.suits(g.shape@, operands);
        let mut r: Vec<Option<Arc<NdArray<u32>>>> = Vec::new();
        match self {
            BackwardOp::Reshape(b) => r.push(Some(Arc::new(b.gradient(g)))),
            BackwardOp::Permute(b) => r.push(Some(Arc::new(b.gradient(g)))),
            BackwardOp::Cat(b) => {
                proof {
                    let n = operands.len() as int;
                    b.lemma_start(operands, n);
                    dims::lemma_axis_offset_monotone(operands, b.axis as int, n, n);
                }
                let pieces: Vec<Arc<NdArray<u32>>> = b.gradients(g);
                proof {
                    assert forall|ops: Seq<Seq<usize>>| #[trigger] self.suits(g.shape@, ops) implies ops
                        == crate::array::shapes_of(pieces@) by {
                        assert forall|p: int| 0 <= p < ops.len() implies ops[p] == crate::array::shapes_of(pieces@)[p] by {
                            assert(b.sends(*g, p, *pieces@[p]));
                            assert(b.lengths@[p] == ops[p][b.axis as int]);
                            assert(ops[p].len() == ops[0].len());
                            assert forall|i: int| 0 <= i < ops[p].len() implies ops[p][i] == pieces@[p].shape@[i] by {
                                if i != b.axis {
                                    assert(ops[p][i] == ops[0][i]);
                                }
                            }
                            assert(ops[p] =~= pieces@[p].shape@);
                        }
                        assert(ops =~= crate::array::shapes_of(pieces@));
                    }
                }
                r = all_some(pieces);
                proof {
                    assert forall|ops: Seq<Seq<usize>>| #[trigger] self.suits(g.shape@, ops) implies extents_agree(r@, ops) by {
                        assert(ops == crate::array::shapes_of(pieces@));
                    }
                }
            },
            BackwardOp::Slice(b) => r.push(Some(Arc::new(b.gradient(g)))),
            BackwardOp::Add(b) => {
                let (x, y) = b.gradients(g, f);
                r.push(Some(Arc::new(x)));
                r.push(Some(Arc::new(y)));
            },
            BackwardOp::Sub(b) => {
                let (x, y) = b.gradients(g, f);
                r.push(Some(Arc::new(x)));
                r.push(Some(Arc::new(y)));
            },
            BackwardOp::Mul(b) => {
                let (x, y) = b.gradients(g, f);
                r.push(Some(Arc::new(x)));
                r.push(Some(Arc::new(y)));
            },
            BackwardOp::Sum(b) => r.push(Some(Arc::new(b.gradient(g)))),
            BackwardOp::Matmul(b) => {
                let (x, y) = b.gradients(g, f);
                r.push(Some(Arc::new(x)));
                r.push(Some(Arc::new(y)));
            },
            BackwardOp::BatchMatmul(b) => {
                let (x, y) = b.gradients(g, f);
                r.push(Some(Arc::new(x)));
                r.push(Some(Arc::new(y)));
            },
            BackwardOp::Activation(b) => r.push(Some(Arc::new(b.gradient(g, f)))),
            BackwardOp::Conv2d(b) => r = all_some(b.gradients(g, f)),
            BackwardOp::Softmax(b) => r.push(Some(Arc::new(b.gradient(g, f)))),
            BackwardOp::MaxPool2d(b) => r.push(Some(Arc::new(b.gradient(g, f)))),
            BackwardOp::Embedding(b) => {
                r.push(None);
                r.push(Some(Arc::new(b.gradient(g, f))));
            },
            BackwardOp::RmsNorm(b) => {
                let (x, y) = b.gradients(g, f);
                r.push(Some(Arc::new(x)));
                r.push(Some(Arc::new(y)));
            },
            BackwardOp::Rope(b) => r.push(Some(Arc::new(b.gradient(g, f)))),
            BackwardOp::FusedSoftmax(b) => r.push(Some(Arc::new(b.gradient(g, f)))),
            BackwardOp::RepeatKv(b) => r.push(Some(Arc::new(b.gradient(g, f)))),
            BackwardOp::Mse(b) => {
                let (x, y) = b.gradients(g, f);
                r.push(Some(Arc::new(x)));
                r.push(Some(Arc::new(y)));
            },
            BackwardOp::CrossEntropy(b) => {
                r.push(Some(Arc::new(b.gradient(g, f))));
                r.push(None);
            },
        }
        r
    }
}

/// The extents of each gradient that is there are those of the operand.
pub open spec fn extents_agree(grads: Seq<Option<Arc<NdArray<u32>>>>, operands: Seq<Seq<usize>>) -> bool {
    &&& grads.len() == operands.len()
    &&& forall|p: int| 0 <= p < grads.len() && #[trigger] grads[p] is Some ==> grads[p]->0.shape@ == operands[p]
}

fn all_some(parts: Vec<Arc<NdArray<u32>>>) -> (r: Vec<Option<Arc<NdArray<u32>>>>)
    ensures
        r@.len() == parts@.len(),
        forall|p: int| 0 <= p < r@.len() ==> #[trigger] r@[p] == Some(parts@[p]),
{
    let mut r: Vec<Option<Arc<NdArray<u32>>>> = Vec::with_capacity(parts.len());
    for p in 0..parts.len()
        invariant
            r@.len() == p,
            forall|q: int| 0 <= q < p ==> #[trigger] r@[q] == Some(parts@[q]),
    {
        r.push(Some(parts[p].clone()));
    }
    r
}

} // verus!
