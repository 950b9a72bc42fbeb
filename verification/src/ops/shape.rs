use crate::array;
use crate::array::{concatenate, NdArray};
use crate::autograd;
use crate::autograd::{is_no_grad, BackwardOp, GradMode, Tensor, TensorStorage};
use crate::dims;
use crate::dims::checked_len;
use crate::float_bits;
use crate::float_bits::same_value;
use crate::fpu;
use crate::fpu::Fpu;
use crate::precision::DType;
use std::sync::Arc;
use vstd::prelude::*;

verus! {

/// Why a tensor cannot be given the requested extents.
#[derive(Clone, Copy, Debug, PartialEq, Eq, Structural)]
pub enum ReshapeError {
    NoDimension,
    SecondInferredDimension,
    NegativeDimension,
    ProductOverflow,
    InferWithZeroProduct,
    NotDivisible,
    CountMismatch,
}

/// Product of the extents that are given, not inferred.
pub open spec fn known_product(request: Seq<i32>) -> nat
    decreases request.len(),
{
    if request.len() == 0 {
        1
    } else if request.last() >= 0 {
        known_product(request.drop_last()) * (request.last() as nat)
    } else {
        known_product(request.drop_last())
    }
}

/// One of the extents is left open.
pub open spec fn has_open(request: Seq<i32>) -> bool {
    exists|i: int| 0 <= i < request.len() && #[trigger] request[i] == -1
}

/// What is wrong with the requested extent of an axis, given those before it.
pub open spec fn axis_error(request: Seq<i32>, axis: int) -> Option<ReshapeError> {
    if request[axis] < -1 {
        Some(ReshapeError::NegativeDimension)
    } else if request[axis] == -1 {
        if has_open(request.take(axis)) {
            Some(ReshapeError::SecondInferredDimension)
        } else {
            None
        }
    } else if known_product(request.take(axis + 1)) > usize::MAX {
        Some(ReshapeError::ProductOverflow)
    } else {
        None
    }
}

/// What is wrong with the first of the leading `n` axes that has an error.
pub open spec fn first_axis_error(request: Seq<i32>, n: int) -> Option<ReshapeError>
    decreases n,
{
    if n <= 0 {
        None
    } else if first_axis_error(request, n - 1) is Some {
        first_axis_error(request, n - 1)
    } else {
        axis_error(request, n - 1)
    }
}

/// The request with `inferred` in place of the extent that is left open.
pub open spec fn completed(request: Seq<i32>, inferred: int) -> Seq<usize> {
    Seq::new(request.len(), |i: int| if request[i] == -1 { inferred as usize } else { request[i] as usize })
}

/// The extents that a request means for `len` elements.
pub open spec fn reshape_target(request: Seq<i32>, len: int) -> Result<Seq<usize>, ReshapeError> {
    let known = known_product(request) as int;
    if request.len() == 0 {
        Err(ReshapeError::NoDimension)
    } else if let Some(e) = first_axis_error(request, request.len() as int) {
        Err(e)
    } else if has_open(request) {
        if known == 0 {
            Err(ReshapeError::InferWithZeroProduct)
        } else if len % known != 0 {
            Err(ReshapeError::NotDivisible)
        } else {
            Ok(completed(request, len / known))
        }
    } else if known != len || !dims::fits(completed(request, 0)) {
        Err(ReshapeError::CountMismatch)
    } else {
        Ok(completed(request, 0))
    }
}

proof fn lemma_first_axis_error_stays(request: Seq<i32>, n: int, m: int)
    requires
        0 <= n <= m <= request.len(),
        first_axis_error(request, n) is Some,
    ensures
        first_axis_error(request, m) == first_axis_error(request, n),
    decreases m,
{
    if n < m {
        lemma_first_axis_error_stays(request, n, m - 1);
    }
}

/// Product of a completed request, with at most one open extent.
proof fn lemma_completed_product(request: Seq<i32>, inferred: int)
    requires
        0 <= inferred <= usize::MAX,
        forall|i: int| 0 <= i < request.len() ==> #[trigger] request[i] >= -1,
        forall|i: int, j: int| 0 <= i < j < request.len() && #[trigger] request[i] == -1 ==> #[trigger] request[j] != -1,
    ensures
        dims::product(completed(request, inferred)) == known_product(request) * (if has_open(request) {
            inferred
        } else {
            1
        }),
        known_product(request) > 0 ==> dims::volume(completed(request, inferred)) == known_product(request) * (if has_open(request) && inferred > 0 {
            inferred
        } else {
            1
        }),
    decreases request.len(),
{
    let target = completed(request, inferred);
    let full = dims::nonzero_extents(target);
    if request.len() == 0 {
        assert(full =~= target);
    } else {
        let head = request.drop_last();
        let last = request.last() as int;
        assert forall|i: int| 0 <= i < head.len() implies #[trigger] head[i] >= -1 by {
            assert(request[i] >= -1);
        }
        assert forall|i: int, j: int| 0 <= i < j < head.len() && #[trigger] head[i] == -1 implies #[trigger] head[j] != -1 by {
            assert(request[i] == -1);
            assert(request[j] != -1);
        }
        lemma_completed_product(head, inferred);
        assert(target.drop_last() =~= completed(head, inferred));
        assert(full.drop_last() =~= dims::nonzero_extents(completed(head, inferred)));
        assert(request =~= head.push(request.last()));
        let k = known_product(head) as int;
        if last == -1 {
            assert(request[request.len() - 1] == -1);
            assert(!has_open(head)) by {
                if has_open(head) {
                    let i = choose|i: int| 0 <= i < head.len() && head[i] == -1;
                    assert(request[i] == -1);
                    assert(request[request.len() - 1] != -1);
                }
            }
            assert(has_open(request));
            assert(k * 1 == k);
        } else {
            assert(request[request.len() - 1] >= -1);
            assert(has_open(request) <==> has_open(head)) by {
                if has_open(request) {
                    let i = choose|i: int| 0 <= i < request.len() && request[i] == -1;
                    assert(head[i] == -1);
                }
                if has_open(head) {
                    let i = choose|i: int| 0 <= i < head.len() && head[i] == -1;
                    assert(request[i] == -1);
                }
            }
            let q = if has_open(request) { inferred } else { 1 };
            let v = if has_open(request) && inferred > 0 { inferred } else { 1 };
            assert((k * q) * last == (k * last) * q) by (nonlinear_arith);
            assert((k * v) * last == (k * last) * v) by (nonlinear_arith);
            if known_product(request) > 0 {
                assert(k > 0 && last > 0) by (nonlinear_arith)
                    requires
                        k * last > 0,
                        k >= 0,
                        last >= 0,
                ;
                assert(full.last() == last);
            }
        }
    }
}

/// The extents that a request means for `len` elements.
pub fn infer_shape(request: &Vec<i32>, len: usize) -> (r: Result<Vec<usize>, ReshapeError>)
    ensures
        match reshape_target(request@, len as int) {
            Ok(target) => r matches Ok(shape) && shape@ == target,
            Err(e) => r == Err::<Vec<usize>, ReshapeError>(e),
        },
        r matches Ok(shape) ==> dims::fits(shape@) && dims::product(shape@) == len,
{
    if request.len() == 0 {
        return Err(ReshapeError::NoDimension);
    }
    let mut infer_axis: Option<usize> = None;
    let mut known: usize = 1;
    let mut shape: Vec<usize> = Vec::with_capacity(request.len());
    for axis in 0..request.len()
        invariant
            request@.len() > 0,
            shape@.len() == axis,
            known == known_product(request@.take(axis as int)),
            first_axis_error(request@, axis as int) is None,
            shape@ == completed(request@.take(axis as int), 0),
            infer_axis is Some <==> has_open(request@.take(axis as int)),
            infer_axis matches Some(a) ==> a < axis && request@[a as int] == -1,
            forall|i: int| 0 <= i < axis ==> #[trigger] request@[i] >= -1,
            forall|i: int, j: int| 0 <= i < j < axis && #[trigger] request@[i] == -1 ==> #[trigger] request@[j] != -1,
    {
        let d: i32 = request[axis];
        let ghost head = request@.take(axis as int);
        let ghost next = request@.take(axis + 1);
        proof {
            assert(next.drop_last() =~= head);
            assert(next =~= head.push(d));
            assert(first_axis_error(request@, axis + 1) == axis_error(request@, axis as int));
            if axis_error(request@, axis as int) is Some {
                lemma_first_axis_error_stays(request@, axis + 1, request@.len() as int);
            }
            assert forall|i: int, j: int| 0 <= i < j < axis + 1 && #[trigger] request@[i] == -1 && j == axis
                && axis_error(request@, axis as int) is None implies #[trigger] request@[j] != -1 by {
                assert(head[i] == -1);
                assert(has_open(head));
            }
            if has_open(head) {
                let i = choose|i: int| 0 <= i < head.len() && head[i] == -1;
                assert(next[i] == -1);
            }
            if d != -1 && has_open(next) {
                let i = choose|i: int| 0 <= i < next.len() && next[i] == -1;
                assert(head[i] == -1);
            }
            if d == -1 {
                assert(next[axis as int] == -1);
            }
        }
        if d == -1 {
            if infer_axis.is_some() {
                return Err(ReshapeError::SecondInferredDimension);
            }
            infer_axis = Some(axis);
            shape.push(0);
        } else if d >= 0 {
            match known.checked_mul(d as usize) {
                None => {
                    return Err(ReshapeError::ProductOverflow);
                },
                Some(p) => {
                    known = p;
                },
            }
            shape.push(d as usize);
        } else {
            return Err(ReshapeError::NegativeDimension);
        }
        assert(shape@ =~= completed(next, 0));
    }
    assert(request@.take(request.len() as int) =~= request@);
    match infer_axis {
        Some(axis) => {
            if known == 0 {
                return Err(ReshapeError::InferWithZeroProduct);
            }
            if len % known != 0 {
                return Err(ReshapeError::NotDivisible);
            }
            let q: usize = len / known;
            shape.set(axis, q);
            proof {
                assert(shape@ =~= completed(request@, len as int / known as int)) by {
                    assert forall|i: int| 0 <= i < shape@.len() implies shape@[i] == completed(request@, q as int)[i] by {
                        if i != axis && request@[i] == -1 {
                            if i < axis {
                                assert(request@[axis as int] != -1);
                            } else {
                                assert(request@[axis as int] == -1);
                                assert(request@[i] != -1);
                            }
                        }
                    }
                }
                lemma_completed_product(request@, q as int);
                assert(known * q == len) by (nonlinear_arith)
                    requires
                        len % known == 0,
                        q == len / known,
                        known > 0,
                ;
            }
            Ok(shape)
        },
        None => {
            proof {
                lemma_completed_product(request@, 0);
            }
            match checked_len(&shape) {
                Some(n) if n == len => Ok(shape),
                _ => Err(ReshapeError::CountMismatch),
            }
        },
    }
}

/// `r` holds the elements of `s`, in the same precision, under other extents.
pub open spec fn storage_reshaped(s: TensorStorage, shape: Seq<usize>, r: TensorStorage) -> bool {
    match (s, r) {
        (TensorStorage::F32(a), TensorStorage::F32(b)) => array::is_reshaped(&*a, shape, &*b),
        (TensorStorage::F16(a), TensorStorage::F16(b)) => array::is_reshaped(&*a, shape, &*b),
        (TensorStorage::BF16(a), TensorStorage::BF16(b)) => array::is_reshaped(&*a, shape, &*b),
        (TensorStorage::I8(a, p), TensorStorage::I8(b, q)) => array::is_reshaped(&*a, shape, &*b) && p == q,
        _ => false,
    }
}

/// The same elements under other extents, in the precision in which they are held.
fn reshape_shared(s: &TensorStorage, shape: Vec<usize>) -> (r: TensorStorage)
    requires
        s.wf(),
        dims::fits(shape@),
        dims::product(shape@) == dims::product(s.spec_shape()),
    ensures
        storage_reshaped(*s, shape@, r),
{
    match s {
        TensorStorage::F32(a) => TensorStorage::F32(Arc::new(a.reshaped(shape))),
        TensorStorage::F16(a) => TensorStorage::F16(Arc::new(a.reshaped(shape))),
        TensorStorage::BF16(a) => TensorStorage::BF16(Arc::new(a.reshaped(shape))),
        TensorStorage::I8(a, step) => TensorStorage::I8(Arc::new(a.reshaped(shape)), *step),
    }
}

/// Gives the gradient the extents that the operand had.
pub struct ReshapeBackward {
    pub old_shape: Vec<usize>,
}

impl ReshapeBackward {
    /// The record belongs to a result of the given extents, made of these operands.
    pub open spec fn suits(&self, out: Seq<usize>, operands: Seq<Seq<usize>>) -> bool {
        &&& operands == seq![self.old_shape@]
        &&& dims::fits(self.old_shape@)
        &&& dims::product(self.old_shape@) == dims::product(out)
    }

    pub open spec fn sends(&self, g: NdArray<u32>, r: NdArray<u32>) -> bool {
        array::is_reshaped(&g, self.old_shape@, &r)
    }

    pub fn gradient(&self, g: &NdArray<u32>) -> (r: NdArray<u32>)
        requires
            g.wf(),
            dims::fits(self.old_shape@),
            dims::product(self.old_shape@) == dims::product(g.shape@),
        ensures
            self.sends(*g, r),
    {
        g.reshaped(self.old_shape.clone())
    }
}

/// A request that leaves nothing open means the extents that it names.
pub proof fn lemma_exact_request(request: Seq<i32>, target: Seq<usize>)
    requires
        target.len() > 0,
        request.len() == target.len(),
        forall|i: int| 0 <= i < target.len() ==> #[trigger] request[i] == target[i],
        dims::fits(target),
    ensures
        reshape_target(request, dims::product(target) as int) == Ok::<Seq<usize>, ReshapeError>(target),
{
    let n = request.len() as int;
    assert forall|i: int| 0 <= i < n implies #[trigger] request[i] >= 0 by {
        assert(request[i] == target[i]);
    }
    lemma_exact_prefix(request, target, n);
    assert(completed(request, 0) =~= target) by {
        assert forall|i: int| 0 <= i < n implies completed(request, 0)[i] == target[i] by {
            assert(request[i] == target[i]);
        }
    }
    lemma_completed_product(request, 0);
    let k = known_product(request) as int;
    assert(k * 1 == k);
}

proof fn lemma_exact_prefix(request: Seq<i32>, target: Seq<usize>, n: int)
    requires
        0 <= n <= target.len(),
        request.len() == target.len(),
        forall|i: int| 0 <= i < target.len() ==> #[trigger] request[i] == target[i],
        dims::fits(target),
    ensures
        first_axis_error(request, n) is None,
        known_product(request.take(n)) == dims::product(target.take(n)),
        known_product(request.take(n)) <= usize::MAX,
    decreases n,
{
    dims::lemma_prefix_fits(target, n);
    dims::lemma_product_bounded_by_volume(target.take(n));
    if n > 0 {
        lemma_exact_prefix(request, target, n - 1);
        assert(request.take(n).drop_last() =~= request.take(n - 1));
        assert(target.take(n).drop_last() =~= target.take(n - 1));
        assert(request[n - 1] == target[n - 1]);
    }
}

/// A tensor under extents that hold as many elements.
pub fn reshape_exact<F: Fpu>(input: &Tensor, target: &Vec<usize>, mode: &GradMode, f: &F) -> (t: Tensor)
    requires
        input.wf(),
        target@.len() > 0,
        forall|i: int| 0 <= i < target@.len() ==> #[trigger] target@[i] <= i32::MAX,
        dims::fits(target@),
        dims::product(target@) == dims::product(input.spec_shape()),
    ensures
        reshape_result(f, *input, target@, *mode, t),
{
    let mut request: Vec<i32> = Vec::with_capacity(target.len());
    for i in 0..target.len()
        invariant
            forall|j: int| 0 <= j < target@.len() ==> #[trigger] target@[j] <= i32::MAX,
            request@.len() == i,
            forall|j: int| 0 <= j < i ==> #[trigger] request@[j] == target@[j],
    {
        assert(target@[i as int] <= i32::MAX);
        request.push(target[i] as i32);
    }
    proof {
        lemma_exact_request(request@, target@);
    }
    match reshape(input, request, mode, f) {
        Ok(t) => t,
        Err(_) => {
            assert(false);
            input.clone()
        },
    }
}

/// The tensor under other extents, recorded if it is to be differentiated.
pub open spec fn reshape_result<F: Fpu>(f: &F, input: Tensor, target: Seq<usize>, mode: GradMode, t: Tensor) -> bool {
    &&& t.wf()
    &&& t.spec_shape() == target
    &&& t.grad is None
    &&& if mode.no_grad() || !input.requires_grad {
        t.is_leaf(t.storage, false) && storage_reshaped(input.storage, target, t.storage)
    } else {
        &&& t.requires_grad
        &&& t.storage matches TensorStorage::F32(b) && single_reshaped(f, input.storage, target, *b)
        &&& t.op matches Some(op) && *op matches BackwardOp::Reshape(back) && back.suits(target, seq![input.spec_shape()])
    }
}

/// `b` has the elements of what is stored, in single precision, under other extents.
pub open spec fn single_reshaped<F: Fpu>(f: &F, s: TensorStorage, target: Seq<usize>, b: NdArray<u32>) -> bool {
    exists|a: NdArray<u32>| #[trigger] autograd::reads_as(f, s, a) && array::is_reshaped(&a, target, &b)
}

/// The tensor under other extents. Where nothing is recorded, the precision stays.
pub fn reshape<F: Fpu>(input: &Tensor, shape: Vec<i32>, mode: &GradMode, f: &F) -> (r: Result<Tensor, ReshapeError>)
    requires
        input.wf(),
    ensures
        match reshape_target(shape@, dims::product(input.spec_shape()) as int) {
            Err(e) => r == Err::<Tensor, ReshapeError>(e),
            Ok(target) => r matches Ok(t) && reshape_result(f, *input, target, *mode, t),
        },
{
    let target: Vec<usize> = match infer_shape(&shape, input.len()) {
        Ok(target) => target,
        Err(e) => {
            return Err(e);
        },
    };
    if is_no_grad(mode) || !input.requires_grad() {
        let storage = reshape_shared(&input.storage, target);
        return Ok(Tensor::from_storage_no_grad(storage));
    }
    let data = input.data_arc(f);
    let reshaped = data.reshaped(target);
    let old_shape: Vec<usize> = input.shape_vec();
    proof {
        assert(seq![input.spec_shape()] =~= seq![old_shape@]);
    }
    Ok(Tensor::recorded(reshaped, BackwardOp::Reshape(ReshapeBackward { old_shape })))
}

/// Why a list of axes does not permute those of a tensor.
#[derive(Clone, Copy, Debug, PartialEq, Eq, Structural)]
pub enum PermuteError {
    LengthMismatch,
    AxisOutOfBounds,
    DuplicateAxis,
}

/// The first of the leading `n` axes that is out of bounds or occurs before.
pub open spec fn first_bad_axis(axes: Seq<usize>, ndim: int, n: int) -> Option<PermuteError>
    decreases n,
{
    if n <= 0 {
        None
    } else if first_bad_axis(axes, ndim, n - 1) is Some {
        first_bad_axis(axes, ndim, n - 1)
    } else if axes[n - 1] >= ndim {
        Some(PermuteError::AxisOutOfBounds)
    } else if exists|i: int| 0 <= i < n - 1 && #[trigger] axes[i] == axes[n - 1] {
        Some(PermuteError::DuplicateAxis)
    } else {
        None
    }
}

/// What is wrong with a list of axes, if it is no permutation.
pub open spec fn permute_error(ndim: int, axes: Seq<usize>) -> Option<PermuteError> {
    if axes.len() != ndim {
        Some(PermuteError::LengthMismatch)
    } else {
        first_bad_axis(axes, ndim, ndim)
    }
}

proof fn lemma_first_bad_axis_stays(axes: Seq<usize>, ndim: int, n: int, m: int)
    requires
        0 <= n <= m,
        first_bad_axis(axes, ndim, n) is Some,
    ensures
        first_bad_axis(axes, ndim, m) == first_bad_axis(axes, ndim, n),
    decreases m,
{
    if n < m {
        lemma_first_bad_axis_stays(axes, ndim, n, m - 1);
    }
}

/// Checks that the axes are a permutation of `0..ndim`.
pub fn validate_permute_axes(ndim: usize, axes: &Vec<usize>) -> (r: Result<(), PermuteError>)
    ensures
        match permute_error(ndim as int, axes@) {
            Some(e) => r == Err::<(), PermuteError>(e),
            None => r is Ok,
        },
        r is Ok <==> dims::is_permutation(axes@, ndim as int),
{
    if axes.len() != ndim {
        return Err(PermuteError::LengthMismatch);
    }
    let mut seen: Vec<bool> = vec![false; ndim];
    for i in 0..ndim
        invariant
            axes@.len() == ndim == seen@.len(),
            first_bad_axis(axes@, ndim as int, i as int) is None,
            forall|j: int| 0 <= j < i ==> #[trigger] axes@[j] < ndim,
            forall|j: int, k: int| 0 <= j < k < i ==> #[trigger] axes@[j] != #[trigger] axes@[k],
            forall|a: int| 0 <= a < ndim ==> (#[trigger] seen@[a] <==> exists|j: int| 0 <= j < i && #[trigger] axes@[j] == a),
    {
        let axis: usize = axes[i];
        if axis >= ndim {
            proof {
                lemma_first_bad_axis_stays(axes@, ndim as int, i + 1, ndim as int);
            }
            return Err(PermuteError::AxisOutOfBounds);
        }
        if seen[axis] {
            proof {
                lemma_first_bad_axis_stays(axes@, ndim as int, i + 1, ndim as int);
            }
            return Err(PermuteError::DuplicateAxis);
        }
        let ghost before = seen@;
        seen.set(axis, true);
        proof {
            assert forall|a: int| 0 <= a < ndim implies (#[trigger] seen@[a] <==> exists|j: int|
                0 <= j < i + 1 && #[trigger] axes@[j] == a) by {
                if a == axis {
                    assert(axes@[i as int] == a);
                } else {
                    assert(before[a] == seen@[a]);
                }
            }
            assert forall|j: int, k: int| 0 <= j < k < i + 1 implies #[trigger] axes@[j] != #[trigger] axes@[k] by {
                if k == i && axes@[j] == axes@[k] {
                    assert(before[axis as int]);
                }
            }
        }
    }
    Ok(())
}

/// `r` holds the arrays of `s` with the axes in another order.
pub open spec fn storage_permuted(s: TensorStorage, axes: Seq<usize>, r: TensorStorage) -> bool {
    match (s, r) {
        (TensorStorage::F32(a), TensorStorage::F32(b)) => array::is_permuted(&*a, axes, &*b),
        (TensorStorage::F16(a), TensorStorage::F16(b)) => array::is_permuted(&*a, axes, &*b),
        (TensorStorage::BF16(a), TensorStorage::BF16(b)) => array::is_permuted(&*a, axes, &*b),
        (TensorStorage::I8(a, p), TensorStorage::I8(b, q)) => array::is_permuted(&*a, axes, &*b) && p == q,
        _ => false,
    }
}

/// Puts the axes of the gradient back in the order that the operand has.
pub struct PermuteBackward {
    pub rev_axes: Vec<usize>,
}

/// `back` undoes `axes`.
pub open spec fn inverse_axes(axes: Seq<usize>, back: Seq<usize>) -> bool {
    &&& back.len() == axes.len()
    &&& forall|i: int| 0 <= i < axes.len() ==> back[#[trigger] axes[i] as int] == i
}

impl PermuteBackward {
    pub open spec fn suits(&self, out: Seq<usize>, operands: Seq<Seq<usize>>) -> bool {
        &&& dims::is_permutation(self.rev_axes@, out.len() as int)
        &&& operands == seq![dims::permuted_shape(out, self.rev_axes@)]
    }

    pub open spec fn sends(&self, g: NdArray<u32>, r: NdArray<u32>) -> bool {
        array::is_permuted(&g, self.rev_axes@, &r)
    }

    pub fn gradient(&self, g: &NdArray<u32>) -> (r: NdArray<u32>)
        requires
            g.wf(),
            dims::is_permutation(self.rev_axes@, g.shape@.len() as int),
        ensures
            self.sends(*g, r),
    {
        g.permuted(&self.rev_axes)
    }
}

/// The inverse of a permutation is one, and undoes it on extents and indices.
pub proof fn lemma_inverse_axes(axes: Seq<usize>, back: Seq<usize>, shape: Seq<usize>)
    requires
        dims::is_permutation(axes, shape.len() as int),
        inverse_axes(axes, back),
    ensures
        dims::is_permutation(back, shape.len() as int),
        dims::permuted_shape(dims::permuted_shape(shape, axes), back) == shape,
{
    let n = shape.len() as int;
    assert forall|a: int| 0 <= a < n implies #[trigger] back[a] < n && axes[back[a] as int] == a by {
        array::lemma_permutation_onto(axes, a);
        let i = choose|i: int| 0 <= i < axes.len() && axes[i] == a;
        assert(back[axes[i] as int] == i);
    }
    assert forall|a: int, b: int| 0 <= a < b < n implies #[trigger] back[a] != #[trigger] back[b] by {
        assert(axes[back[a] as int] == a);
        assert(axes[back[b] as int] == b);
    }
    assert(dims::permuted_shape(dims::permuted_shape(shape, axes), back) =~= shape) by {
        assert forall|a: int| 0 <= a < n implies dims::permuted_shape(dims::permuted_shape(shape, axes), back)[a]
            == shape[a] by {
            assert(back[a] < n);
        }
    }
}

/// The axes that undo a permutation.
pub fn invert_axes(axes: &Vec<usize>) -> (back: Vec<usize>)
    requires
        dims::is_permutation(axes@, axes@.len() as int),
    ensures
        inverse_axes(axes@, back@),
        dims::is_permutation(back@, axes@.len() as int),
{
    let mut back: Vec<usize> = vec![0; axes.len()];
    for i in 0..axes.len()
        invariant
            back@.len() == axes@.len(),
            dims::is_permutation(axes@, axes@.len() as int),
            forall|j: int| 0 <= j < i ==> back@[#[trigger] axes@[j] as int] == j,
    {
        assert(axes@[i as int] < axes@.len());
        back.set(axes[i], i);
        assert forall|j: int| 0 <= j < i + 1 implies back@[#[trigger] axes@[j] as int] == j by {
            if j < i {
                assert(axes@[j] != axes@[i as int]);
            }
        }
    }
    proof {
        lemma_inverse_axes(axes@, back@, axes@);
    }
    back
}

/// The tensor with its axes in another order, recorded if it is to be differentiated.
pub open spec fn permute_result<F: Fpu>(f: &F, input: Tensor, axes: Seq<usize>, mode: GradMode, t: Tensor) -> bool {
    &&& t.wf()
    &&& t.spec_shape() == dims::permuted_shape(input.spec_shape(), axes)
    &&& t.grad is None
    &&& if mode.no_grad() || !input.requires_grad {
        t.is_leaf(t.storage, false) && storage_permuted(input.storage, axes, t.storage)
    } else {
        &&& t.requires_grad
        &&& t.storage matches TensorStorage::F32(b) && single_permuted(f, input.storage, axes, *b)
        &&& t.op matches Some(op) && *op matches BackwardOp::Permute(back) && inverse_axes(axes, back.rev_axes@)
            && back.suits(t.spec_shape(), seq![input.spec_shape()])
    }
}

/// `b` has the elements of what is stored, in single precision, with the axes in
/// another order.
pub open spec fn single_permuted<F: Fpu>(f: &F, s: TensorStorage, axes: Seq<usize>, b: NdArray<u32>) -> bool {
    exists|a: NdArray<u32>| #[trigger] autograd::reads_as(f, s, a) && array::is_permuted(&a, axes, &b)
}

/// The tensor with its axes in another order. Where nothing is recorded, the
/// precision stays.
pub fn permute<F: Fpu>(input: &Tensor, axes: Vec<usize>, mode: &GradMode, f: &F) -> (r: Result<Tensor, PermuteError>)
    requires
        input.wf(),
    ensures
        match permute_error(input.spec_shape().len() as int, axes@) {
            Some(e) => r == Err::<Tensor, PermuteError>(e),
            None => r matches Ok(t) && permute_result(f, *input, axes@, *mode, t),
        },
        r is Ok <==> dims::is_permutation(axes@, input.spec_shape().len() as int),
{
    match validate_permute_axes(input.ndim(), &axes) {
        Ok(()) => {},
        Err(e) => {
            return Err(e);
        },
    }
    if is_no_grad(mode) || !input.requires_grad() {
        let storage = match &input.storage {
            TensorStorage::F32(a) => TensorStorage::F32(Arc::new(a.permuted(&axes))),
            TensorStorage::F16(a) => TensorStorage::F16(Arc::new(a.permuted(&axes))),
            TensorStorage::BF16(a) => TensorStorage::BF16(Arc::new(a.permuted(&axes))),
            TensorStorage::I8(a, step) => TensorStorage::I8(Arc::new(a.permuted(&axes)), *step),
        };
        return Ok(Tensor::from_storage_no_grad(storage));
    }
    let data = input.data_arc(f);
    let permuted = data.permuted(&axes);
    let rev_axes: Vec<usize> = invert_axes(&axes);
    proof {
        lemma_inverse_axes(axes@, rev_axes@, input.spec_shape());
        assert(seq![input.spec_shape()] =~= seq![dims::permuted_shape(permuted.shape@, rev_axes@)]);
    }
    Ok(Tensor::recorded(permuted, BackwardOp::Permute(PermuteBackward { rev_axes })))
}

/// Why tensors cannot be laid end to end.
#[derive(Clone, Copy, Debug, PartialEq, Eq, Structural)]
pub enum CatError {
    NoTensor,
    AxisOutOfBounds,
    NdimMismatch,
    ShapeMismatch,
}

/// The extents of the tensors.
pub open spec fn tensor_shapes(tensors: Seq<Tensor>) -> Seq<Seq<usize>> {
    Seq::new(tensors.len(), |p: int| tensors[p].spec_shape())
}

/// What keeps tensors of these extents from being laid end to end.
pub open spec fn cat_error(shapes: Seq<Seq<usize>>, axis: int) -> Option<CatError> {
    if shapes.len() == 0 {
        Some(CatError::NoTensor)
    } else if axis >= shapes[0].len() {
        Some(CatError::AxisOutOfBounds)
    } else if exists|p: int| 0 <= p < shapes.len() && (#[trigger] shapes[p]).len() != shapes[0].len() {
        Some(CatError::NdimMismatch)
    } else if !dims::agree_off_axis(shapes, axis) {
        Some(CatError::ShapeMismatch)
    } else {
        None
    }
}

/// Checks that the tensors can be laid end to end.
pub fn validate_cat_inputs(tensors: &Vec<Tensor>, axis: usize) -> (r: Result<(), CatError>)
    ensures
        match cat_error(tensor_shapes(tensors@), axis as int) {
            Some(e) => r == Err::<(), CatError>(e),
            None => r is Ok,
        },
        r is Ok <==> dims::agree_off_axis(tensor_shapes(tensors@), axis as int),
{
    let ghost shapes = tensor_shapes(tensors@);
    if tensors.len() == 0 {
        return Err(CatError::NoTensor);
    }
    let first: Vec<usize> = tensors[0].shape_vec();
    let ndim: usize = first.len();
    assert(shapes[0] == first@);
    if axis >= ndim {
        return Err(CatError::AxisOutOfBounds);
    }
    for p in 0..tensors.len()
        invariant
            shapes == tensor_shapes(tensors@),
            tensors@.len() > 0,
            shapes[0] == first@,
            ndim == first@.len(),
            axis < ndim,
            forall|q: int| 0 <= q < p ==> (#[trigger] shapes[q]).len() == ndim,
    {
        assert(shapes[p as int] == tensors@[p as int].spec_shape());
        if tensors[p].ndim() != ndim {
            return Err(CatError::NdimMismatch);
        }
    }
    for dim in 0..ndim
        invariant
            shapes == tensor_shapes(tensors@),
            tensors@.len() > 0,
            shapes[0] == first@,
            ndim == first@.len(),
            axis < ndim,
            forall|q: int| 0 <= q < tensors@.len() ==> (#[trigger] shapes[q]).len() == ndim,
            forall|q: int, i: int|
                0 <= q < tensors@.len() && 0 <= i < dim && i != axis ==> #[trigger] shapes[q][i] == shapes[0][i],
    {
        if dim != axis {
            let expected: usize = first[dim];
            for p in 0..tensors.len()
                invariant
                    shapes == tensor_shapes(tensors@),
                    tensors@.len() > 0,
                    shapes[0] == first@,
                    ndim == first@.len(),
                    axis < ndim,
                    dim < ndim,
                    dim != axis,
                    expected == first@[dim as int],
                    forall|q: int| 0 <= q < tensors@.len() ==> (#[trigger] shapes[q]).len() == ndim,
                    forall|q: int| 0 <= q < p ==> #[trigger] shapes[q][dim as int] == shapes[0][dim as int],
            {
                let shape: Vec<usize> = tensors[p].shape_vec();
                assert(shapes[p as int] == shape@);
                if shape[dim] != expected {
                    assert(shapes[p as int][dim as int] != shapes[0][dim as int]);
                    return Err(CatError::ShapeMismatch);
                }
            }
        }
    }
    Ok(())
}

/// All tensors are held in the precision `dtype`.
pub open spec fn all_held_as(tensors: Seq<Tensor>, dtype: DType) -> bool {
    forall|p: int| 0 <= p < tensors.len() ==> (#[trigger] tensors[p]).spec_dtype() == dtype
}

/// No tensor is differentiated.
pub open spec fn all_constant(tensors: Seq<Tensor>) -> bool {
    forall|p: int| 0 <= p < tensors.len() ==> !(#[trigger] tensors[p]).requires_grad
}

pub open spec fn step_of(t: Tensor) -> u32 {
    t.storage->I8_1
}

/// Bytes of all tensors stand for multiples of one step.
pub open spec fn one_step(tensors: Seq<Tensor>) -> bool {
    forall|p: int, q: int|
        0 <= p && q == p + 1 && q < tensors.len() ==> float_bits::equal_values(
            step_of(#[trigger] tensors[p]),
            step_of(#[trigger] tensors[q]),
        )
}

pub open spec fn single_parts(tensors: Seq<Tensor>) -> Seq<Arc<NdArray<u32>>> {
    Seq::new(tensors.len(), |p: int| tensors[p].storage->F32_0)
}

pub open spec fn f16_parts(tensors: Seq<Tensor>) -> Seq<Arc<NdArray<u16>>> {
    Seq::new(tensors.len(), |p: int| tensors[p].storage->F16_0)
}

pub open spec fn bf16_parts(tensors: Seq<Tensor>) -> Seq<Arc<NdArray<u16>>> {
    Seq::new(tensors.len(), |p: int| tensors[p].storage->BF16_0)
}

pub open spec fn byte_parts(tensors: Seq<Tensor>) -> Seq<Arc<NdArray<i8>>> {
    Seq::new(tensors.len(), |p: int| tensors[p].storage->I8_0)
}

/// `r` is what the tensors hold, laid end to end in their common precision, where
/// they have one.
pub open spec fn joined_natively(tensors: Seq<Tensor>, axis: int, r: TensorStorage) -> bool {
    match r {
        TensorStorage::F32(b) => all_held_as(tensors, DType::F32) && array::is_joined(
            single_parts(tensors),
            axis,
            &*b,
        ),
        TensorStorage::F16(b) => all_held_as(tensors, DType::F16) && array::is_joined(
            f16_parts(tensors),
            axis,
            &*b,
        ),
        TensorStorage::BF16(b) => all_held_as(tensors, DType::BF16) && array::is_joined(
            bf16_parts(tensors),
            axis,
            &*b,
        ),
        TensorStorage::I8(b, step) => all_held_as(tensors, DType::I8) && one_step(tensors)
            && array::is_joined(byte_parts(tensors), axis, &*b) && step == step_of(tensors[0]),
    }
}

/// The tensors have a precision, and a step, in common.
pub open spec fn has_native_join(tensors: Seq<Tensor>) -> bool {
    ||| all_held_as(tensors, DType::F32)
    ||| all_held_as(tensors, DType::F16)
    ||| all_held_as(tensors, DType::BF16)
    ||| all_held_as(tensors, DType::I8) && one_step(tensors)
}

/// `r` is what the tensors hold, read in single precision and laid end to end.
pub open spec fn joined_in_single<F: Fpu>(f: &F, tensors: Seq<Tensor>, axis: int, r: TensorStorage) -> bool {
    r matches TensorStorage::F32(b) && exists|parts: Seq<Arc<NdArray<u32>>>|
        parts.len() == tensors.len() && (forall|p: int|
            0 <= p < parts.len() ==> autograd::reads_as(f, tensors[p].storage, *#[trigger] parts[p]))
            && #[trigger] array::is_joined(parts, axis, &*b)
}

/// The arrays of the tensors, if all are held in that precision.
fn collect_single(tensors: &Vec<Tensor>) -> (r: Option<Vec<Arc<NdArray<u32>>>>)
    ensures
        r is Some <==> all_held_as(tensors@, DType::F32),
        r matches Some(parts) ==> parts@ == single_parts(tensors@),
{
    let mut parts: Vec<Arc<NdArray<u32>>> = Vec::with_capacity(tensors.len());
    for p in 0..tensors.len()
        invariant
            parts@ == single_parts(tensors@).take(p as int),
            forall|q: int| 0 <= q < p ==> (#[trigger] tensors@[q]).spec_dtype() == DType::F32,
    {
        match &tensors[p].storage {
            TensorStorage::F32(a) => {
                parts.push(a.clone());
                assert(parts@ =~= single_parts(tensors@).take(p + 1));
            },
            _ => {
                assert(tensors@[p as int].spec_dtype() != DType::F32);
                return None;
            },
        }
    }
    assert(parts@ =~= single_parts(tensors@));
    Some(parts)
}

/// The arrays of the tensors, if all are held in that precision.
fn collect_f16(tensors: &Vec<Tensor>) -> (r: Option<Vec<Arc<NdArray<u16>>>>)
    ensures
        r is Some <==> all_held_as(tensors@, DType::F16),
        r matches Some(parts) ==> parts@ == f16_parts(tensors@),
{
    let mut parts: Vec<Arc<NdArray<u16>>> = Vec::with_capacity(tensors.len());
    for p in 0..tensors.len()
        invariant
            parts@ == f16_parts(tensors@).take(p as int),
            forall|q: int| 0 <= q < p ==> (#[trigger] tensors@[q]).spec_dtype() == DType::F16,
    {
        match &tensors[p].storage {
            TensorStorage::F16(a) => {
                parts.push(a.clone());
                assert(parts@ =~= f16_parts(tensors@).take(p + 1));
            },
            _ => {
                assert(tensors@[p as int].spec_dtype() != DType::F16);
                return None;
            },
        }
    }
    assert(parts@ =~= f16_parts(tensors@));
    Some(parts)
}

/// The arrays of the tensors, if all are held in that precision.
fn collect_bf16(tensors: &Vec<Tensor>) -> (r: Option<Vec<Arc<NdArray<u16>>>>)
    ensures
        r is Some <==> all_held_as(tensors@, DType::BF16),
        r matches Some(parts) ==> parts@ == bf16_parts(tensors@),
{
    let mut parts: Vec<Arc<NdArray<u16>>> = Vec::with_capacity(tensors.len());
    for p in 0..tensors.len()
        invariant
            parts@ == bf16_parts(tensors@).take(p as int),
            forall|q: int| 0 <= q < p ==> (#[trigger] tensors@[q]).spec_dtype() == DType::BF16,
    {
        match &tensors[p].storage {
            TensorStorage::BF16(a) => {
                parts.push(a.clone());
                assert(parts@ =~= bf16_parts(tensors@).take(p + 1));
            },
            _ => {
                assert(tensors@[p as int].spec_dtype() != DType::BF16);
                return None;
            },
        }
    }
    assert(parts@ =~= bf16_parts(tensors@));
    Some(parts)
}

/// The arrays of the tensors, if all are held in that precision.
fn collect_bytes(tensors: &Vec<Tensor>) -> (r: Option<Vec<Arc<NdArray<i8>>>>)
    ensures
        r is Some <==> all_held_as(tensors@, DType::I8),
        r matches Some(parts) ==> parts@ == byte_parts(tensors@),
{
    let mut parts: Vec<Arc<NdArray<i8>>> = Vec::with_capacity(tensors.len());
    for p in 0..tensors.len()
        invariant
            parts@ == byte_parts(tensors@).take(p as int),
            forall|q: int| 0 <= q < p ==> (#[trigger] tensors@[q]).spec_dtype() == DType::I8,
    {
        match &tensors[p].storage {
            TensorStorage::I8(a, _) => {
                parts.push(a.clone());
                assert(parts@ =~= byte_parts(tensors@).take(p + 1));
            },
            _ => {
                assert(tensors@[p as int].spec_dtype() != DType::I8);
                return None;
            },
        }
    }
    assert(parts@ =~= byte_parts(tensors@));
    Some(parts)
}

/// The step of a tensor held as bytes.
fn byte_step_of(t: &Tensor) -> (step: u32)
    requires
        t.spec_dtype() == DType::I8,
    ensures
        step == step_of(*t),
{
    match &t.storage {
        TensorStorage::I8(_, step) => *step,
        _ => 0,
    }
}

/// What the tensors hold, laid end to end in their common precision.
fn cat_native(tensors: &Vec<Tensor>, axis: usize) -> (r: Option<TensorStorage>)
    requires
        forall|p: int| 0 <= p < tensors@.len() ==> (#[trigger] tensors@[p]).wf(),
        dims::agree_off_axis(tensor_shapes(tensors@), axis as int),
        dims::join_fits(tensor_shapes(tensors@), axis as int),
    ensures
        r is Some <==> has_native_join(tensors@),
        r matches Some(s) ==> s.wf() && joined_natively(tensors@, axis as int, s),
{
    assert(tensor_shapes(tensors@).len() > 0);
    if let Some(parts) = collect_single(tensors) {
        proof {
            assert(array::shapes_of(single_parts(tensors@)) =~= tensor_shapes(tensors@)) by {
                assert forall|p: int| 0 <= p < tensors@.len() implies array::shapes_of(single_parts(tensors@))[p]
                    == tensor_shapes(tensors@)[p] by {
                    assert(tensors@[p].spec_dtype() == DType::F32);
                }
            }
            assert forall|p: int| 0 <= p < parts@.len() implies (#[trigger] parts@[p]).wf() by {
                assert(tensors@[p].spec_dtype() == DType::F32);
                assert(tensors@[p].wf());
            }
        }
        return Some(TensorStorage::F32(Arc::new(concatenate(&parts, axis))));
    }
    if let Some(parts) = collect_f16(tensors) {
        proof {
            assert(array::shapes_of(f16_parts(tensors@)) =~= tensor_shapes(tensors@)) by {
                assert forall|p: int| 0 <= p < tensors@.len() implies array::shapes_of(f16_parts(tensors@))[p]
                    == tensor_shapes(tensors@)[p] by {
                    assert(tensors@[p].spec_dtype() == DType::F16);
                }
            }
            assert forall|p: int| 0 <= p < parts@.len() implies (#[trigger] parts@[p]).wf() by {
                assert(tensors@[p].spec_dtype() == DType::F16);
                assert(tensors@[p].wf());
            }
        }
        return Some(TensorStorage::F16(Arc::new(concatenate(&parts, axis))));
    }
    if let Some(parts) = collect_bf16(tensors) {
        proof {
            assert(array::shapes_of(bf16_parts(tensors@)) =~= tensor_shapes(tensors@)) by {
                assert forall|p: int| 0 <= p < tensors@.len() implies array::shapes_of(bf16_parts(tensors@))[p]
                    == tensor_shapes(tensors@)[p] by {
                    assert(tensors@[p].spec_dtype() == DType::BF16);
                }
            }
            assert forall|p: int| 0 <= p < parts@.len() implies (#[trigger] parts@[p]).wf() by {
                assert(tensors@[p].spec_dtype() == DType::BF16);
                assert(tensors@[p].wf());
            }
        }
        return Some(TensorStorage::BF16(Arc::new(concatenate(&parts, axis))));
    }
    if let Some(parts) = collect_bytes(tensors) {
        proof {
            assert(array::shapes_of(byte_parts(tensors@)) =~= tensor_shapes(tensors@)) by {
                assert forall|p: int| 0 <= p < tensors@.len() implies array::shapes_of(byte_parts(tensors@))[p]
                    == tensor_shapes(tensors@)[p] by {
                    assert(tensors@[p].spec_dtype() == DType::I8);
                }
            }
            assert forall|p: int| 0 <= p < parts@.len() implies (#[trigger] parts@[p]).wf() by {
                assert(tensors@[p].spec_dtype() == DType::I8);
                assert(tensors@[p].wf());
            }
        }
        for p in 1..tensors.len()
            invariant
                all_held_as(tensors@, DType::I8),
                forall|i: int, j: int|
                    0 <= i && j == i + 1 && j < p ==> float_bits::equal_values(
                        step_of(#[trigger] tensors@[i]),
                        step_of(#[trigger] tensors@[j]),
                    ),
        {
            assert(tensors@[p - 1].spec_dtype() == DType::I8 && tensors@[p as int].spec_dtype() == DType::I8);
            if !same_value(byte_step_of(&tensors[p - 1]), byte_step_of(&tensors[p])) {
                return None;
            }
        }
        assert(tensors@[0].spec_dtype() == DType::I8);
        let step: u32 = byte_step_of(&tensors[0]);
        return Some(TensorStorage::I8(Arc::new(concatenate(&parts, axis)), step));
    }
    None
}

/// Cuts the gradient into the pieces that belong to the operands.
pub struct CatBackward {
    pub axis: usize,
    pub lengths: Vec<usize>,
}

impl CatBackward {
    pub open spec fn suits(&self, out: Seq<usize>, operands: Seq<Seq<usize>>) -> bool {
        &&& dims::agree_off_axis(operands, self.axis as int)
        &&& dims::join_fits(operands, self.axis as int)
        &&& out == dims::joined_shape(operands, self.axis as int)
        &&& self.lengths@.len() == operands.len()
        &&& forall|p: int| 0 <= p < operands.len() ==> #[trigger] self.lengths@[p] == operands[p][self.axis as int]
    }

    /// Where the piece of operand `p` starts.
    pub open spec fn start(&self, p: int) -> int
        decreases p,
    {
        if p <= 0 {
            0
        } else {
            self.start(p - 1) + self.lengths@[p - 1]
        }
    }

    pub open spec fn sends(&self, g: NdArray<u32>, p: int, r: NdArray<u32>) -> bool {
        array::is_sliced(&g, self.axis as int, self.start(p), self.start(p + 1), &r)
    }

    pub proof fn lemma_start(&self, operands: Seq<Seq<usize>>, p: int)
        requires
            self.lengths@.len() == operands.len(),
            forall|q: int| 0 <= q < operands.len() ==> #[trigger] self.lengths@[q] == operands[q][self.axis as int],
            0 <= p <= operands.len(),
        ensures
            self.start(p) == dims::axis_offset(operands, self.axis as int, p),
        decreases p,
    {
        if p > 0 {
            self.lemma_start(operands, p - 1);
            assert(self.lengths@[p - 1] == operands[p - 1][self.axis as int]);
        }
    }

    proof fn lemma_start_monotone(&self, p: int, q: int)
        requires
            0 <= p <= q,
        ensures
            0 <= self.start(p) <= self.start(q),
        decreases q,
    {
        if p < q {
            self.lemma_start_monotone(p, q - 1);
        } else if p > 0 {
            self.lemma_start_monotone(p - 1, p - 1);
        }
    }

    pub fn gradients(&self, g: &NdArray<u32>) -> (r: Vec<Arc<NdArray<u32>>>)
        requires
            g.wf(),
            self.axis < g.shape@.len(),
            self.start(self.lengths@.len() as int) == g.shape@[self.axis as int],
        ensures
            r@.len() == self.lengths@.len(),
            forall|p: int| 0 <= p < r@.len() ==> self.sends(*g, p, *#[trigger] r@[p]),
    {
        let mut pieces: Vec<Arc<NdArray<u32>>> = Vec::with_capacity(self.lengths.len());
        let mut start_idx: usize = 0;
        for p in 0..self.lengths.len()
            invariant
                g.wf(),
                self.axis < g.shape@.len(),
                self.start(self.lengths@.len() as int) == g.shape@[self.axis as int],
                start_idx == self.start(p as int),
                pieces@.len() == p,
                forall|q: int| 0 <= q < p ==> self.sends(*g, q, *#[trigger] pieces@[q]),
        {
            proof {
                self.lemma_start_monotone(p + 1, self.lengths@.len() as int);
            }
            let end: usize = start_idx + self.lengths[p];
            let piece = g.slice_axis(self.axis, start_idx, end);
            pieces.push(Arc::new(piece));
            start_idx = end;
        }
        pieces
    }
}

/// A single tensor, of which nothing is recorded.
pub open spec fn single_constant(tensors: Seq<Tensor>, mode: GradMode) -> bool {
    tensors.len() == 1 && (mode.no_grad() || !tensors[0].requires_grad)
}

/// `t` is what comes of laying tensors end to end.
pub open spec fn cat_result<F: Fpu>(f: &F, tensors: Seq<Tensor>, axis: int, mode: GradMode, t: Tensor) -> bool {
    &&& t.wf()
    &&& if (mode.no_grad() || all_constant(tensors)) && has_native_join(tensors) {
        t.is_leaf(t.storage, false) && joined_natively(tensors, axis, t.storage)
    } else if mode.no_grad() {
        t.is_leaf(t.storage, false) && joined_in_single(f, tensors, axis, t.storage)
    } else {
        &&& t.requires_grad && t.grad is None
        &&& joined_in_single(f, tensors, axis, t.storage)
        &&& t.op matches Some(op) && *op matches BackwardOp::Cat(back) && back.axis == axis && back.suits(
            t.spec_shape(),
            tensor_shapes(tensors),
        )
    }
}

/// The tensors laid end to end along an axis. Where nothing is recorded and the
/// tensors have a precision in common, it stays. Tensors of several precisions are
/// laid end to end in single precision; that is recorded unless the mode forbids it.
pub fn cat<F: Fpu>(tensors: &Vec<Tensor>, axis: usize, mode: &GradMode, f: &F) -> (r: Result<Tensor, CatError>)
    requires
        forall|p: int| 0 <= p < tensors@.len() ==> (#[trigger] tensors@[p]).wf(),
        dims::agree_off_axis(tensor_shapes(tensors@), axis as int) ==> dims::join_fits(
            tensor_shapes(tensors@),
            axis as int,
        ),
    ensures
        match cat_error(tensor_shapes(tensors@), axis as int) {
            Some(e) => r == Err::<Tensor, CatError>(e),
            None => r matches Ok(t) && if single_constant(tensors@, *mode) {
                t == tensors@[0]
            } else {
                cat_result(f, tensors@, axis as int, *mode, t)
            },
        },
{
    match validate_cat_inputs(tensors, axis) {
        Ok(()) => {},
        Err(e) => {
            return Err(e);
        },
    }
    assert(tensor_shapes(tensors@).len() > 0);
    if tensors.len() == 1 && (is_no_grad(mode) || !tensors[0].requires_grad()) {
        return Ok(tensors[0].clone());
    }
    let mut constant: bool = true;
    for p in 0..tensors.len()
        invariant
            constant <==> forall|q: int| 0 <= q < p ==> !(#[trigger] tensors@[q]).requires_grad,
    {
        if tensors[p].requires_grad() {
            constant = false;
        }
    }
    if is_no_grad(mode) || constant {
        if let Some(storage) = cat_native(tensors, axis) {
            return Ok(Tensor::from_storage_no_grad(storage));
        }
    }
    let mut parts: Vec<Arc<NdArray<u32>>> = Vec::with_capacity(tensors.len());
    let mut lengths: Vec<usize> = Vec::with_capacity(tensors.len());
    for p in 0..tensors.len()
        invariant
            forall|q: int| 0 <= q < tensors@.len() ==> (#[trigger] tensors@[q]).wf(),
            dims::agree_off_axis(tensor_shapes(tensors@), axis as int),
            parts@.len() == p,
            lengths@.len() == p,
            forall|q: int| 0 <= q < p ==> autograd::reads_as(f, tensors@[q].storage, *#[trigger] parts@[q]),
            forall|q: int| 0 <= q < p ==> #[trigger] lengths@[q] == tensor_shapes(tensors@)[q][axis as int],
    {
        assert(tensor_shapes(tensors@)[p as int].len() == tensor_shapes(tensors@)[0].len());
        let shape: Vec<usize> = tensors[p].shape_vec();
        parts.push(tensors[p].data_arc(f));
        lengths.push(shape[axis]);
    }
    assert(array::shapes_of(parts@) =~= tensor_shapes(tensors@));
    let result = concatenate(&parts, axis);
    if is_no_grad(mode) {
        return Ok(Tensor::from_storage_no_grad(TensorStorage::F32(Arc::new(result))));
    }
    Ok(Tensor::recorded(result, BackwardOp::Cat(CatBackward { axis, lengths })))
}

/// Why a tensor cannot be cut along its last axis.
#[derive(Clone, Copy, Debug, PartialEq, Eq, Structural)]
pub enum SliceError {
    NoDimension,
    StartAfterEnd,
    EndOutOfBounds,
}

pub open spec fn slice_error(shape: Seq<usize>, start: int, end: int) -> Option<SliceError> {
    if shape.len() == 0 {
        Some(SliceError::NoDimension)
    } else if start > end {
        Some(SliceError::StartAfterEnd)
    } else if end > shape.last() {
        Some(SliceError::EndOutOfBounds)
    } else {
        None
    }
}

pub open spec fn storage_sliced(s: TensorStorage, axis: int, start: int, end: int, r: TensorStorage) -> bool {
    match (s, r) {
        (TensorStorage::F32(a), TensorStorage::F32(b)) => array::is_sliced(&*a, axis, start, end, &*b),
        (TensorStorage::F16(a), TensorStorage::F16(b)) => array::is_sliced(&*a, axis, start, end, &*b),
        (TensorStorage::BF16(a), TensorStorage::BF16(b)) => array::is_sliced(&*a, axis, start, end, &*b),
        (TensorStorage::I8(a, p), TensorStorage::I8(b, q)) => array::is_sliced(&*a, axis, start, end, &*b) && p == q,
        _ => false,
    }
}

/// Puts the gradient in its place among zeros.
pub struct SliceBackward {
    pub full_shape: Vec<usize>,
    pub start: usize,
    pub end: usize,
}

impl SliceBackward {
    pub open spec fn suits(&self, out: Seq<usize>, operands: Seq<Seq<usize>>) -> bool {
        let full = self.full_shape@;
        &&& operands == seq![full]
        &&& dims::fits(full)
        &&& slice_error(full, self.start as int, self.end as int) is None
        &&& out == full.update(full.len() - 1, (self.end - self.start) as usize)
    }

    pub open spec fn sends(&self, g: NdArray<u32>, r: NdArray<u32>) -> bool {
        array::is_scattered(&g, self.full_shape@, self.full_shape@.len() - 1, self.start as int, fpu::ZERO, &r)
    }

    pub fn gradient(&self, g: &NdArray<u32>) -> (r: NdArray<u32>)
        requires
            g.wf(),
            self.suits(g.shape@, seq![self.full_shape@]),
        ensures
            self.sends(*g, r),
    {
        g.scattered(self.full_shape.clone(), self.full_shape.len() - 1, self.start, fpu::ZERO)
    }
}

/// The elements whose last coordinate lies in `start..end`, recorded if they are to be
/// differentiated. All of them, unrecorded, are the input itself.
pub open spec fn slice_result<F: Fpu>(f: &F, input: Tensor, start: int, end: int, mode: GradMode, t: Tensor) -> bool {
    let axis = input.spec_shape().len() - 1;
    &&& t.wf()
    &&& t.spec_shape() == input.spec_shape().update(axis, (end - start) as usize)
    &&& if mode.no_grad() || !input.requires_grad {
        if start == 0 && end == input.spec_shape().last() {
            t == input
        } else {
            t.is_leaf(t.storage, false) && storage_sliced(input.storage, axis, start, end, t.storage)
        }
    } else {
        &&& t.requires_grad && t.grad is None
        &&& t.storage matches TensorStorage::F32(b) && single_sliced(f, input.storage, axis, start, end, *b)
        &&& t.op matches Some(op) && *op matches BackwardOp::Slice(back) && back.start == start && back.end == end
            && back.suits(t.spec_shape(), seq![input.spec_shape()])
    }
}

/// `b` has elements of what is stored, in single precision.
pub open spec fn single_sliced<F: Fpu>(f: &F, s: TensorStorage, axis: int, start: int, end: int, b: NdArray<u32>) -> bool {
    exists|a: NdArray<u32>| #[trigger] autograd::reads_as(f, s, a) && array::is_sliced(&a, axis, start, end, &b)
}

/// The elements whose last coordinate lies in `start..end`. Where nothing is
/// recorded, the precision stays.
pub fn slice_last_dim<F: Fpu>(input: &Tensor, start: usize, end: usize, mode: &GradMode, f: &F) -> (r: Result<
    Tensor,
    SliceError,
>)
    requires
        input.wf(),
    ensures
        match slice_error(input.spec_shape(), start as int, end as int) {
            Some(e) => r == Err::<Tensor, SliceError>(e),
            None => r matches Ok(t) && slice_result(f, *input, start as int, end as int, *mode, t),
        },
{
    let shape: Vec<usize> = input.shape_vec();
    if shape.len() == 0 {
        return Err(SliceError::NoDimension);
    }
    let axis: usize = shape.len() - 1;
    let last_len: usize = shape[axis];
    if start > end {
        return Err(SliceError::StartAfterEnd);
    }
    if end > last_len {
        return Err(SliceError::EndOutOfBounds);
    }
    if is_no_grad(mode) || !input.requires_grad() {
        if start == 0 && end == last_len {
            assert(input.spec_shape() =~= input.spec_shape().update(axis as int, last_len));
            return Ok(input.clone());
        }
        let storage = match &input.storage {
            TensorStorage::F32(a) => TensorStorage::F32(Arc::new(a.slice_axis(axis, start, end))),
            TensorStorage::F16(a) => TensorStorage::F16(Arc::new(a.slice_axis(axis, start, end))),
            TensorStorage::BF16(a) => TensorStorage::BF16(Arc::new(a.slice_axis(axis, start, end))),
            TensorStorage::I8(a, step) => TensorStorage::I8(Arc::new(a.slice_axis(axis, start, end)), *step),
        };
        return Ok(Tensor::from_storage_no_grad(storage));
    }
    let data = input.data_arc(f);
    let sliced = data.slice_axis(axis, start, end);
    assert(seq![input.spec_shape()] =~= seq![shape@]);
    Ok(Tensor::recorded(sliced, BackwardOp::Slice(SliceBackward { full_shape: shape, start, end })))
}

} // verus!
