use crate::array::NdArray;
use crate::autograd;
use crate::autograd::{is_no_grad, GradMode, Tensor, TensorStorage};
use crate::dims;
use crate::fixed;
use crate::fpu;
use crate::fpu::{silu_product, Fpu};
use crate::layers::activation;
use crate::layers::activation::Activation;
use crate::ops::arithmetic;
use crate::ops::arithmetic::BinaryOp;
use crate::ops::int8_kernels;
use crate::ops::int8_kernels::dot_unit;
use crate::ops::matmul;
use crate::ops::matvec;
use crate::ops::matvec::matvec_rowmajor_parallel;
use crate::precision::DType;
use std::sync::Arc;
use vstd::prelude::*;

verus! {

/// Why projections for decoding are refused.
#[derive(Clone, Copy, Debug, PartialEq, Eq, Structural)]
pub enum ProjectionError {
    NotInference,
    NoAxis,
    NotThreeDimensional,
    NotSingleStep,
    NotSingleToken,
    NotSingleBatch,
    NoHeads,
    NoKeyValueHeads,
    NoFeatures,
    GateNotMatrix,
    UpNotMatrix,
    GateInner,
    GateUpMismatch,
    UpInner,
    QueryNotMatrix,
    KeyNotMatrix,
    ValueNotMatrix,
    QueryInner,
    KeyInner,
    ValueInner,
    KeyValueMismatch,
    QuerySplit,
    KeySplit,
    HeadDimMismatch,
    OutputLength,
    QueryLength,
    KeyLength,
    ValueLength,
}

/// The rows of a weight: in single precision, or as bytes with their step.
pub enum WeightRows {
    Single(Arc<NdArray<u32>>),
    Bytes(Arc<NdArray<i8>>, u32),
}

impl WeightRows {
    pub open spec fn wf(&self) -> bool {
        match self {
            WeightRows::Single(a) => a.wf(),
            WeightRows::Bytes(a, _) => a.wf(),
        }
    }

    pub open spec fn spec_shape(&self) -> Seq<usize> {
        match self {
            WeightRows::Single(a) => a.shape@,
            WeightRows::Bytes(a, _) => a.shape@,
        }
    }
}

/// `w` are the rows of what is stored: bytes stay bytes if so asked.
pub open spec fn rows_of<F: Fpu>(f: &F, s: TensorStorage, bytes: bool, w: WeightRows) -> bool {
    match w {
        WeightRows::Single(a) => !bytes && autograd::reads_as(f, s, *a),
        WeightRows::Bytes(a, step) => bytes && s == TensorStorage::I8(a, step),
    }
}

/// The product of a vector with row `i`.
pub open spec fn row_dot<F: Fpu>(f: &F, x: Seq<u32>, w: WeightRows, i: int, r: u32) -> bool {
    let k = w.spec_shape()[1] as int;
    match w {
        WeightRows::Single(a) => matvec::row_sum(f, a.shape@[0] as int, x, matvec::row_of(a.data@, i, k), r),
        WeightRows::Bytes(a, step) => int8_kernels::scaled_dot(f, x, a.data@.subrange(i * k, i * k + k), step, r),
    }
}

/// The products of a vector with all rows.
pub open spec fn row_dots<F: Fpu>(f: &F, x: Seq<u32>, w: WeightRows, out: Seq<u32>) -> bool {
    &&& out.len() == w.spec_shape()[0]
    &&& forall|i: int| 0 <= i < out.len() ==> row_dot(f, x, w, i, #[trigger] out[i])
}

fn weight_rows<F: Fpu>(t: &Tensor, bytes: bool, f: &F) -> (w: WeightRows)
    requires
        t.wf(),
        bytes ==> t.storage is I8,
    ensures
        w.wf(),
        w.spec_shape() == t.spec_shape(),
        rows_of(f, t.storage, bytes, w),
{
    if bytes {
        if let TensorStorage::I8(a, step) = &t.storage {
            return WeightRows::Bytes(a.clone(), *step);
        }
    }
    WeightRows::Single(t.data_arc(f))
}

fn dots<F: Fpu>(x: &[u32], w: &WeightRows, f: &F) -> (out: Vec<u32>)
    requires
        w.wf(),
        w.spec_shape().len() == 2,
        x@.len() == w.spec_shape()[1],
    ensures
        row_dots(f, x@, *w, out@),
{
    proof {
        dims::lemma_product2(w.spec_shape());
    }
    match w {
        WeightRows::Single(a) => {
            let n: usize = a.shape[0];
            let k: usize = a.shape[1];
            let mut out: Vec<u32> = vec![fpu::ZERO; n];
            let done = matvec_rowmajor_parallel(x, a.data.as_slice(), n, k, &mut out, f);
            assert(done is Ok);
            out
        },
        WeightRows::Bytes(a, step) => {
            let n: usize = a.shape[0];
            let k: usize = a.shape[1];
            let len: usize = a.data.len();
            let mut out: Vec<u32> = Vec::with_capacity(n);
            for i in 0..n
                invariant
                    len == a.data@.len() == n * k,
                    n == a.shape@[0],
                    k == a.shape@[1],
                    w.spec_shape() == a.shape@,
                    *w == WeightRows::Bytes(*a, *step),
                    out@.len() == i,
                    forall|j: int| 0 <= j < i ==> row_dot(f, x@, *w, j, #[trigger] out@[j]),
            {
                proof {
                    assert(0 <= i * k && i * k + k <= n * k) by (nonlinear_arith)
                        requires
                            0 <= i < n,
                            k >= 0,
                    ;
                }
                let row = vstd::slice::slice_subrange(a.data.as_slice(), i * k, i * k + k);
                out.push(dot_unit(x, row, *step, f));
            }
            out
        },
    }
}

/// Whether all of the weights are stored as bytes.
pub open spec fn all_bytes(ws: Seq<Tensor>) -> bool {
    forall|i: int| 0 <= i < ws.len() ==> (#[trigger] ws[i]).storage is I8
}

fn is_bytes(t: &Tensor) -> (r: bool)
    ensures
        r == (t.storage is I8),
{
    match &t.storage {
        TensorStorage::I8(_, _) => true,
        _ => false,
    }
}

/// What is wrong with the weights of a gated product.
pub open spec fn gate_up_error(k: int, gate: Seq<usize>, up: Seq<usize>) -> Option<ProjectionError> {
    if k == 0 {
        Some(ProjectionError::NoFeatures)
    } else if gate.len() != 2 {
        Some(ProjectionError::GateNotMatrix)
    } else if up.len() != 2 {
        Some(ProjectionError::UpNotMatrix)
    } else if gate[1] != k {
        Some(ProjectionError::GateInner)
    } else if up[0] != gate[0] {
        Some(ProjectionError::GateUpMismatch)
    } else if up[1] != k {
        Some(ProjectionError::UpInner)
    } else {
        None
    }
}

/// The number of rows of both weights.
fn validate_gate_up_shapes(k_dim: usize, gate_weight: &Tensor, up_weight: &Tensor) -> (r: Result<usize, ProjectionError>)
    ensures
        match gate_up_error(k_dim as int, gate_weight.spec_shape(), up_weight.spec_shape()) {
            Some(e) => r == Err::<usize, ProjectionError>(e),
            None => r == Ok::<usize, ProjectionError>(gate_weight.spec_shape()[0]),
        },
{
    if k_dim == 0 {
        return Err(ProjectionError::NoFeatures);
    }
    let gate: Vec<usize> = gate_weight.shape_vec();
    let up: Vec<usize> = up_weight.shape_vec();
    if gate.len() != 2 {
        return Err(ProjectionError::GateNotMatrix);
    }
    if up.len() != 2 {
        return Err(ProjectionError::UpNotMatrix);
    }
    if gate[1] != k_dim {
        return Err(ProjectionError::GateInner);
    }
    if up[0] != gate[0] {
        return Err(ProjectionError::GateUpMismatch);
    }
    if up[1] != k_dim {
        return Err(ProjectionError::UpInner);
    }
    Ok(gate[0])
}

/// What is wrong with the weights of queries, keys and values.
pub open spec fn qkv_error(k_dim: int, q: Seq<usize>, k: Seq<usize>, v: Seq<usize>) -> Option<ProjectionError> {
    if k_dim == 0 {
        Some(ProjectionError::NoFeatures)
    } else if q.len() != 2 {
        Some(ProjectionError::QueryNotMatrix)
    } else if k.len() != 2 {
        Some(ProjectionError::KeyNotMatrix)
    } else if v.len() != 2 {
        Some(ProjectionError::ValueNotMatrix)
    } else if q[1] != k_dim {
        Some(ProjectionError::QueryInner)
    } else if k[1] != k_dim {
        Some(ProjectionError::KeyInner)
    } else if v[1] != k_dim {
        Some(ProjectionError::ValueInner)
    } else if v[0] != k[0] {
        Some(ProjectionError::KeyValueMismatch)
    } else {
        None
    }
}

/// The numbers of rows of the three weights.
fn validate_qkv_shapes(k_dim: usize, q_weight: &Tensor, k_weight: &Tensor, v_weight: &Tensor) -> (r: Result<
    (usize, usize, usize),
    ProjectionError,
>)
    ensures
        match qkv_error(k_dim as int, q_weight.spec_shape(), k_weight.spec_shape(), v_weight.spec_shape()) {
            Some(e) => r == Err::<(usize, usize, usize), ProjectionError>(e),
            None => r == Ok::<(usize, usize, usize), ProjectionError>(
                (q_weight.spec_shape()[0], k_weight.spec_shape()[0], v_weight.spec_shape()[0]),
            ),
        },
{
    if k_dim == 0 {
        return Err(ProjectionError::NoFeatures);
    }
    let q: Vec<usize> = q_weight.shape_vec();
    let k: Vec<usize> = k_weight.shape_vec();
    let v: Vec<usize> = v_weight.shape_vec();
    if q.len() != 2 {
        return Err(ProjectionError::QueryNotMatrix);
    }
    if k.len() != 2 {
        return Err(ProjectionError::KeyNotMatrix);
    }
    if v.len() != 2 {
        return Err(ProjectionError::ValueNotMatrix);
    }
    if q[1] != k_dim {
        return Err(ProjectionError::QueryInner);
    }
    if k[1] != k_dim {
        return Err(ProjectionError::KeyInner);
    }
    if v[1] != k_dim {
        return Err(ProjectionError::ValueInner);
    }
    if v[0] != k[0] {
        return Err(ProjectionError::KeyValueMismatch);
    }
    Ok((q[0], k[0], v[0]))
}

/// `out` is the weight times a vector.
pub open spec fn projected<F: Fpu>(f: &F, x: Seq<u32>, w: TensorStorage, bytes: bool, out: Seq<u32>) -> bool {
    exists|rows: WeightRows| #[trigger] rows_of(f, w, bytes, rows) && row_dots(f, x, rows, out)
}

/// `out` is the weight times the single row of an input.
pub open spec fn input_projected<F: Fpu>(f: &F, input: Tensor, w: Tensor, bytes: bool, out: Seq<u32>) -> bool {
    exists|xs: NdArray<u32>| #[trigger]
        autograd::reads_as(f, input.storage, xs) && projected(f, xs.data@, w.storage, bytes, out)
}

/// The gated product of a row of each weight with a vector.
pub open spec fn gated_dot<F: Fpu>(f: &F, x: Seq<u32>, gate: WeightRows, up: WeightRows, i: int, r: u32) -> bool {
    exists|g: u32, u: u32|
        row_dot(f, x, gate, i, g) && row_dot(f, x, up, i, u) && #[trigger] fpu::is_silu_product(f, g, u, r)
}

/// The gated products of all rows with a vector.
pub open spec fn gated_dots<F: Fpu>(f: &F, x: Seq<u32>, gate: WeightRows, up: WeightRows, out: Seq<u32>) -> bool {
    &&& out.len() == gate.spec_shape()[0]
    &&& forall|i: int| 0 <= i < out.len() ==> gated_dot(f, x, gate, up, i, #[trigger] out[i])
}

fn run_gate_up_slice<F: Fpu>(x: &[u32], gate: &WeightRows, up: &WeightRows, f: &F) -> (out: Vec<u32>)
    requires
        gate.wf(),
        up.wf(),
        gate.spec_shape().len() == 2,
        up.spec_shape() == gate.spec_shape(),
        x@.len() == gate.spec_shape()[1],
    ensures
        gated_dots(f, x@, *gate, *up, out@),
{
    let gs: Vec<u32> = dots(x, gate, f);
    let us: Vec<u32> = dots(x, up, f);
    let mut out: Vec<u32> = Vec::with_capacity(gs.len());
    for i in 0..gs.len()
        invariant
            row_dots(f, x@, *gate, gs@),
            row_dots(f, x@, *up, us@),
            gs@.len() == us@.len(),
            out@.len() == i,
            forall|j: int| 0 <= j < i ==> gated_dot(f, x@, *gate, *up, j, #[trigger] out@[j]),
    {
        let r: u32 = silu_product(f, gs[i], us[i]);
        assert(gated_dot(f, x@, *gate, *up, i as int, r)) by {
            assert(row_dot(f, x@, *gate, i as int, gs@[i as int]));
            assert(row_dot(f, x@, *up, i as int, us@[i as int]));
            assert(fpu::is_silu_product(f, gs@[i as int], us@[i as int], r));
        }
        out.push(r);
    }
    out
}

/// `out` are the gated products of two weights with a vector.
pub open spec fn gate_up_projected<F: Fpu>(
    f: &F,
    x: Seq<u32>,
    gate: TensorStorage,
    up: TensorStorage,
    bytes: bool,
    out: Seq<u32>,
) -> bool {
    exists|g: WeightRows, u: WeightRows|
        #[trigger] rows_of(f, gate, bytes, g) && #[trigger] rows_of(f, up, bytes, u) && gated_dots(f, x, g, u, out)
}

/// `out` are the gated products with the single row of an input.
pub open spec fn input_gated<F: Fpu>(f: &F, input: Tensor, gate: Tensor, up: Tensor, bytes: bool, out: Seq<u32>) -> bool {
    exists|xs: NdArray<u32>| #[trigger]
        autograd::reads_as(f, input.storage, xs) && gate_up_projected(f, xs.data@, gate.storage, up.storage, bytes, out)
}

/// What is wrong with a gated product, before its output is looked at.
pub open spec fn gate_up_input_error(input: Tensor, gate: Tensor, up: Tensor, mode: GradMode) -> Option<ProjectionError> {
    if !mode.no_grad() {
        Some(ProjectionError::NotInference)
    } else if input.spec_shape().len() == 0 {
        Some(ProjectionError::NoAxis)
    } else {
        gate_up_error(input.spec_shape().last() as int, gate.spec_shape(), up.spec_shape())
    }
}

/// Number of rows along the last axis.
pub open spec fn row_count(shape: Seq<usize>) -> int {
    dims::product(shape) as int / shape.last() as int
}

/// What is wrong with a gated product of a single token.
pub open spec fn gate_up_into_error(input: Tensor, gate: Tensor, up: Tensor, out: int, mode: GradMode) -> Option<ProjectionError> {
    match gate_up_input_error(input, gate, up, mode) {
        Some(e) => Some(e),
        None => if row_count(input.spec_shape()) != 1 {
            Some(ProjectionError::NotSingleToken)
        } else if out != gate.spec_shape()[0] {
            Some(ProjectionError::OutputLength)
        } else {
            None
        },
    }
}

/// The gated products for a single token: `silu(gate x) * (up x)`. Bytes are multiplied
/// as bytes if both weights are stored so.
pub fn fused_gate_up_silu_infer_into<F: Fpu>(
    input: &Tensor,
    gate_weight: &Tensor,
    up_weight: &Tensor,
    out: &mut Vec<u32>,
    mode: &GradMode,
    f: &F,
) -> (r: Result<(), ProjectionError>)
    requires
        input.wf(),
        gate_weight.wf(),
        up_weight.wf(),
    ensures
        match gate_up_into_error(*input, *gate_weight, *up_weight, old(out)@.len() as int, *mode) {
            Some(e) => r == Err::<(), ProjectionError>(e) && final(out)@ == old(out)@,
            None => r is Ok && input_gated(
                f,
                *input,
                *gate_weight,
                *up_weight,
                all_bytes(seq![*gate_weight, *up_weight]),
                final(out)@,
            ),
        },
{
    if !is_no_grad(mode) {
        return Err(ProjectionError::NotInference);
    }
    let shape: Vec<usize> = input.shape_vec();
    if shape.len() == 0 {
        return Err(ProjectionError::NoAxis);
    }
    let k_dim: usize = shape[shape.len() - 1];
    let n_dim: usize = match validate_gate_up_shapes(k_dim, gate_weight, up_weight) {
        Ok(n) => n,
        Err(e) => {
            return Err(e);
        },
    };
    let len: usize = input.len();
    if len / k_dim != 1 {
        return Err(ProjectionError::NotSingleToken);
    }
    if out.len() != n_dim {
        return Err(ProjectionError::OutputLength);
    }
    let bytes: bool = is_bytes(gate_weight) && is_bytes(up_weight);
    proof {
        lemma_pair_bytes(*gate_weight, *up_weight);
        activation::lemma_whole_rows(shape@, len as int);
        let m = len as int / k_dim as int;
        assert(m * k_dim == k_dim) by (nonlinear_arith)
            requires
                m == 1,
        ;
    }
    let xs = input.data_arc(f);
    let gate = weight_rows(gate_weight, bytes, f);
    let up = weight_rows(up_weight, bytes, f);
    assert(gate.spec_shape() =~= up.spec_shape());
    *out = run_gate_up_slice(xs.data.as_slice(), &gate, &up, f);
    assert(autograd::reads_as(f, input.storage, *xs));
    assert(rows_of(f, gate_weight.storage, bytes, gate) && rows_of(f, up_weight.storage, bytes, up));
    Ok(())
}

proof fn lemma_pair_bytes(a: Tensor, b: Tensor)
    ensures
        all_bytes(seq![a, b]) <==> a.storage is I8 && b.storage is I8,
{
    let ws = seq![a, b];
    assert(ws[0] == a && ws[1] == b);
}

proof fn lemma_triple_bytes(a: Tensor, b: Tensor, c: Tensor)
    ensures
        all_bytes(seq![a, b, c]) <==> a.storage is I8 && b.storage is I8 && c.storage is I8,
{
    let ws = seq![a, b, c];
    assert(ws[0] == a && ws[1] == b && ws[2] == c);
}

/// The rows of `out` are the gated products of the rows of `xs`.
pub open spec fn rows_gated<F: Fpu>(
    f: &F,
    xs: Seq<u32>,
    n_rows: int,
    k: int,
    gate: TensorStorage,
    up: TensorStorage,
    bytes: bool,
    n: int,
    out: Seq<u32>,
) -> bool {
    &&& out.len() == n_rows * n
    &&& forall|i: int|
        0 <= i < n_rows ==> gate_up_projected(
            f,
            matmul::flat_row(xs, i, k),
            gate,
            up,
            bytes,
            #[trigger] matmul::flat_row(out, i, n),
        )
}

/// `t` holds the gated products of all rows of the input. A single row is multiplied
/// as bytes if both weights are stored so.
pub open spec fn gate_up_result<F: Fpu>(f: &F, input: Tensor, gate: Tensor, up: Tensor, t: Tensor) -> bool {
    let shape = input.spec_shape();
    let m = row_count(shape);
    &&& t.wf()
    &&& t.is_leaf(t.storage, false)
    &&& t.spec_shape() == shape.update(shape.len() - 1, gate.spec_shape()[0])
    &&& exists|xs: NdArray<u32>, r: NdArray<u32>| #[trigger]
        autograd::reads_as(f, input.storage, xs) && rows_gated(
            f,
            xs.data@,
            m,
            shape.last() as int,
            gate.storage,
            up.storage,
            m == 1 && all_bytes(seq![gate, up]),
            gate.spec_shape()[0] as int,
            r.data@,
        ) && #[trigger] is_single(t.storage, r)
}

/// What is stored are these single-precision elements.
pub open spec fn is_single(s: TensorStorage, a: NdArray<u32>) -> bool {
    s == TensorStorage::F32(Arc::new(a))
}

/// The gated products of all rows of the input.
pub fn fused_gate_up_silu_infer<F: Fpu>(
    input: &Tensor,
    gate_weight: &Tensor,
    up_weight: &Tensor,
    mode: &GradMode,
    f: &F,
) -> (r: Result<Tensor, ProjectionError>)
    requires
        input.wf(),
        gate_weight.wf(),
        up_weight.wf(),
        gate_up_input_error(*input, *gate_weight, *up_weight, *mode) is None ==> dims::fits(
            input.spec_shape().update(input.spec_shape().len() - 1, gate_weight.spec_shape()[0]),
        ),
    ensures
        match gate_up_input_error(*input, *gate_weight, *up_weight, *mode) {
            Some(e) => r == Err::<Tensor, ProjectionError>(e),
            None => r matches Ok(t) && gate_up_result(f, *input, *gate_weight, *up_weight, t),
        },
{
    if !is_no_grad(mode) {
        return Err(ProjectionError::NotInference);
    }
    let shape: Vec<usize> = input.shape_vec();
    if shape.len() == 0 {
        return Err(ProjectionError::NoAxis);
    }
    let last: usize = shape.len() - 1;
    let k_dim: usize = shape[last];
    let n_dim: usize = match validate_gate_up_shapes(k_dim, gate_weight, up_weight) {
        Ok(n) => n,
        Err(e) => {
            return Err(e);
        },
    };
    let len: usize = input.len();
    let m_dim: usize = len / k_dim;
    let bytes: bool = m_dim == 1 && is_bytes(gate_weight) && is_bytes(up_weight);
    proof {
        lemma_pair_bytes(*gate_weight, *up_weight);
        activation::lemma_whole_rows(shape@, len as int);
        lemma_rows_resized(shape@, n_dim);
        assert(0 * n_dim == 0) by (nonlinear_arith);
    }
    let xs = input.data_arc(f);
    let gate = weight_rows(gate_weight, bytes, f);
    let up = weight_rows(up_weight, bytes, f);
    assert(gate.spec_shape() =~= up.spec_shape());
    let mut data: Vec<u32> = Vec::new();
    for i in 0..m_dim
        invariant
            xs.data@.len() == len == m_dim * k_dim,
            gate.wf(),
            up.wf(),
            gate.spec_shape().len() == 2,
            gate.spec_shape()[0] == n_dim,
            gate.spec_shape()[1] == k_dim,
            up.spec_shape() == gate.spec_shape(),
            rows_of(f, gate_weight.storage, bytes, gate),
            rows_of(f, up_weight.storage, bytes, up),
            data@.len() == i * n_dim,
            forall|p: int|
                0 <= p < i ==> gate_up_projected(
                    f,
                    matmul::flat_row(xs.data@, p, k_dim as int),
                    gate_weight.storage,
                    up_weight.storage,
                    bytes,
                    #[trigger] matmul::flat_row(data@, p, n_dim as int),
                ),
    {
        proof {
            assert(0 <= i * k_dim && i * k_dim + k_dim <= m_dim * k_dim) by (nonlinear_arith)
                requires
                    0 <= i < m_dim,
                    k_dim >= 0,
            ;
            assert((i + 1) * n_dim == i * n_dim + n_dim) by (nonlinear_arith);
        }
        let x = vstd::slice::slice_subrange(xs.data.as_slice(), i * k_dim, i * k_dim + k_dim);
        let mut part: Vec<u32> = run_gate_up_slice(x, &gate, &up, f);
        let ghost before = data@;
        let ghost own = part@;
        assert(gate_up_projected(f, x@, gate_weight.storage, up_weight.storage, bytes, own));
        data.append(&mut part);
        proof {
            assert(matmul::flat_row(data@, i as int, n_dim as int) =~= own);
            assert forall|p: int| 0 <= p < i implies #[trigger] matmul::flat_row(data@, p, n_dim as int) == matmul::flat_row(
                before,
                p,
                n_dim as int,
            ) by {
                activation::lemma_rows_stay(before, own, i as int, p, n_dim as int);
            }
        }
    }
    let mut out_shape: Vec<usize> = shape;
    out_shape.set(last, n_dim);
    let result = NdArray { shape: out_shape, data };
    let t = Tensor::from_array_no_grad(result);
    assert(autograd::reads_as(f, input.storage, *xs) && is_single(t.storage, result));
    Ok(t)
}

/// Rows of another length.
proof fn lemma_rows_resized(shape: Seq<usize>, n: usize)
    requires
        shape.len() > 0,
        shape.last() > 0,
    ensures
        dims::product(shape.update(shape.len() - 1, n)) == row_count(shape) * n,
{
    let p = dims::product(shape.drop_last()) as int;
    let k = shape.last() as int;
    assert((p * k) / k == p) by (nonlinear_arith)
        requires
            k > 0,
    ;
    assert(shape.update(shape.len() - 1, n).drop_last() =~= shape.drop_last());
}

/// What is wrong with projections of a single token.
pub open spec fn qkv_into_error(
    input: Tensor,
    q: Tensor,
    k: Tensor,
    v: Tensor,
    q_out: int,
    k_out: int,
    v_out: int,
    mode: GradMode,
) -> Option<ProjectionError> {
    let shape = input.spec_shape();
    if !mode.no_grad() {
        Some(ProjectionError::NotInference)
    } else if shape.len() != 3 {
        Some(ProjectionError::NotThreeDimensional)
    } else {
        match qkv_error(shape[2] as int, q.spec_shape(), k.spec_shape(), v.spec_shape()) {
            Some(e) => Some(e),
            None => if shape[0] != 1 {
                Some(ProjectionError::NotSingleBatch)
            } else if shape[1] != 1 {
                Some(ProjectionError::NotSingleStep)
            } else if q_out != q.spec_shape()[0] {
                Some(ProjectionError::QueryLength)
            } else if k_out != k.spec_shape()[0] {
                Some(ProjectionError::KeyLength)
            } else if v_out != v.spec_shape()[0] {
                Some(ProjectionError::ValueLength)
            } else {
                None
            },
        }
    }
}

/// Queries, keys and values of a single token. Bytes are multiplied as bytes if all
/// weights are stored so.
pub fn fused_qkv_decode_infer_into<F: Fpu>(
    input: &Tensor,
    q_weight: &Tensor,
    k_weight: &Tensor,
    v_weight: &Tensor,
    q_out: &mut Vec<u32>,
    k_out: &mut Vec<u32>,
    v_out: &mut Vec<u32>,
    mode: &GradMode,
    f: &F,
) -> (r: Result<(), ProjectionError>)
    requires
        input.wf(),
        q_weight.wf(),
        k_weight.wf(),
        v_weight.wf(),
    ensures
        match qkv_into_error(
            *input,
            *q_weight,
            *k_weight,
            *v_weight,
            old(q_out)@.len() as int,
            old(k_out)@.len() as int,
            old(v_out)@.len() as int,
            *mode,
        ) {
            Some(e) => r == Err::<(), ProjectionError>(e) && final(q_out)@ == old(q_out)@ && final(k_out)@ == old(k_out)@
                && final(v_out)@ == old(v_out)@,
            None => {
                let bytes = all_bytes(seq![*q_weight, *k_weight, *v_weight]);
                &&& r is Ok
                &&& input_projected(f, *input, *q_weight, bytes, final(q_out)@)
                &&& input_projected(f, *input, *k_weight, bytes, final(k_out)@)
                &&& input_projected(f, *input, *v_weight, bytes, final(v_out)@)
                &&& final(q_out)@.len() == old(q_out)@.len()
                &&& final(k_out)@.len() == old(k_out)@.len()
                &&& final(v_out)@.len() == old(v_out)@.len()
            },
        },
{
    if !is_no_grad(mode) {
        return Err(ProjectionError::NotInference);
    }
    let shape: Vec<usize> = input.shape_vec();
    if shape.len() != 3 {
        return Err(ProjectionError::NotThreeDimensional);
    }
    let k_dim: usize = shape[2];
    let (q_n, k_n, v_n) = match validate_qkv_shapes(k_dim, q_weight, k_weight, v_weight) {
        Ok(n) => n,
        Err(e) => {
            return Err(e);
        },
    };
    if shape[0] != 1 {
        return Err(ProjectionError::NotSingleBatch);
    }
    if shape[1] != 1 {
        return Err(ProjectionError::NotSingleStep);
    }
    if q_out.len() != q_n {
        return Err(ProjectionError::QueryLength);
    }
    if k_out.len() != k_n {
        return Err(ProjectionError::KeyLength);
    }
    if v_out.len() != v_n {
        return Err(ProjectionError::ValueLength);
    }
    let bytes: bool = is_bytes(q_weight) && is_bytes(k_weight) && is_bytes(v_weight);
    let xs = input.data_arc(f);
    proof {
        lemma_triple_bytes(*q_weight, *k_weight, *v_weight);
        dims::lemma_product3(shape@);
        let a = shape@[0] as int;
        let b = shape@[1] as int;
        assert(a * b == 1) by (nonlinear_arith)
            requires
                a == 1,
                b == 1,
        ;
    }
    let q = weight_rows(q_weight, bytes, f);
    let k = weight_rows(k_weight, bytes, f);
    let v = weight_rows(v_weight, bytes, f);
    *q_out = dots(xs.data.as_slice(), &q, f);
    *k_out = dots(xs.data.as_slice(), &k, f);
    *v_out = dots(xs.data.as_slice(), &v, f);
    assert(autograd::reads_as(f, input.storage, *xs));
    assert(rows_of(f, q_weight.storage, bytes, q) && rows_of(f, k_weight.storage, bytes, k) && rows_of(
        f,
        v_weight.storage,
        bytes,
        v,
    ));
    Ok(())
}

/// What is wrong with projections of one token per batch entry.
pub open spec fn qkv_decode_error(
    input: Tensor,
    q: Tensor,
    k: Tensor,
    v: Tensor,
    n_head: int,
    n_kv_head: int,
    mode: GradMode,
) -> Option<ProjectionError> {
    let shape = input.spec_shape();
    if !mode.no_grad() {
        Some(ProjectionError::NotInference)
    } else if shape.len() != 3 {
        Some(ProjectionError::NotThreeDimensional)
    } else if shape[1] != 1 {
        Some(ProjectionError::NotSingleStep)
    } else if n_head == 0 {
        Some(ProjectionError::NoHeads)
    } else if n_kv_head == 0 {
        Some(ProjectionError::NoKeyValueHeads)
    } else {
        match qkv_error(shape[2] as int, q.spec_shape(), k.spec_shape(), v.spec_shape()) {
            Some(e) => Some(e),
            None => if q.spec_shape()[0] as int % n_head != 0 {
                Some(ProjectionError::QuerySplit)
            } else if k.spec_shape()[0] as int % n_kv_head != 0 {
                Some(ProjectionError::KeySplit)
            } else if k.spec_shape()[0] as int / n_kv_head != q.spec_shape()[0] as int / n_head {
                Some(ProjectionError::HeadDimMismatch)
            } else {
                None
            },
        }
    }
}

/// The rows of `out` are the weight times the rows of `xs`.
pub open spec fn rows_projected<F: Fpu>(
    f: &F,
    xs: Seq<u32>,
    n_rows: int,
    k: int,
    w: TensorStorage,
    bytes: bool,
    n: int,
    out: Seq<u32>,
) -> bool {
    &&& out.len() == n_rows * n
    &&& forall|i: int|
        0 <= i < n_rows ==> projected(f, matmul::flat_row(xs, i, k), w, bytes, #[trigger] matmul::flat_row(out, i, n))
}

fn project_rows<F: Fpu>(xs: &Vec<u32>, n_rows: usize, w: &WeightRows, Ghost(s): Ghost<TensorStorage>, Ghost(bytes): Ghost<bool>, f: &F) -> (out:
    Vec<u32>)
    requires
        w.wf(),
        w.spec_shape().len() == 2,
        xs@.len() == n_rows * w.spec_shape()[1],
        rows_of(f, s, bytes, *w),
    ensures
        rows_projected(
            f,
            xs@,
            n_rows as int,
            w.spec_shape()[1] as int,
            s,
            bytes,
            w.spec_shape()[0] as int,
            out@,
        ),
{
    let shape: Vec<usize> = match w {
        WeightRows::Single(a) => a.shape.clone(),
        WeightRows::Bytes(a, _) => a.shape.clone(),
    };
    let n: usize = shape[0];
    let k: usize = shape[1];
    let len: usize = xs.len();
    let mut data: Vec<u32> = Vec::new();
    assert(0 * n == 0) by (nonlinear_arith);
    for i in 0..n_rows
        invariant
            w.wf(),
            w.spec_shape().len() == 2,
            n == w.spec_shape()[0],
            k == w.spec_shape()[1],
            len == xs@.len() == n_rows * k,
            rows_of(f, s, bytes, *w),
            data@.len() == i * n,
            forall|p: int|
                0 <= p < i ==> projected(
                    f,
                    matmul::flat_row(xs@, p, k as int),
                    s,
                    bytes,
                    #[trigger] matmul::flat_row(data@, p, n as int),
                ),
    {
        proof {
            assert(0 <= i * k && i * k + k <= n_rows * k) by (nonlinear_arith)
                requires
                    0 <= i < n_rows,
                    k >= 0,
            ;
            assert((i + 1) * n == i * n + n) by (nonlinear_arith);
        }
        let x = vstd::slice::slice_subrange(xs.as_slice(), i * k, i * k + k);
        let mut part: Vec<u32> = dots(x, w, f);
        let ghost before = data@;
        let ghost own = part@;
        assert(projected(f, x@, s, bytes, own));
        data.append(&mut part);
        proof {
            assert(matmul::flat_row(data@, i as int, n as int) =~= own);
            assert forall|p: int| 0 <= p < i implies #[trigger] matmul::flat_row(data@, p, n as int) == matmul::flat_row(
                before,
                p,
                n as int,
            ) by {
                activation::lemma_rows_stay(before, own, i as int, p, n as int);
            }
        }
    }
    data
}

/// `a` holds the projections of one token per batch entry, split into heads.
pub open spec fn heads_projected<F: Fpu>(f: &F, input: Tensor, w: Tensor, bytes: bool, heads: int, a: NdArray<u32>) -> bool {
    let shape = input.spec_shape();
    let n = w.spec_shape()[0] as int;
    &&& a.wf()
    &&& a.shape@ == seq![shape[0], heads as usize, (n / heads) as usize]
    &&& exists|xs: NdArray<u32>| #[trigger]
        autograd::reads_as(f, input.storage, xs) && rows_projected(
            f,
            xs.data@,
            shape[0] as int,
            shape[2] as int,
            w.storage,
            bytes,
            n,
            a.data@,
        )
}

/// Queries, keys and values of one token per batch entry, split into heads.
pub fn fused_qkv_decode_infer<F: Fpu>(
    input: &Tensor,
    q_weight: &Tensor,
    k_weight: &Tensor,
    v_weight: &Tensor,
    n_head: usize,
    n_kv_head: usize,
    mode: &GradMode,
    f: &F,
) -> (r: Result<(NdArray<u32>, NdArray<u32>, NdArray<u32>), ProjectionError>)
    requires
        input.wf(),
        q_weight.wf(),
        k_weight.wf(),
        v_weight.wf(),
        qkv_decode_error(*input, *q_weight, *k_weight, *v_weight, n_head as int, n_kv_head as int, *mode) is None
            ==> dims::fits(
            seq![
                input.spec_shape()[0],
                n_head,
                (q_weight.spec_shape()[0] as int / n_head as int) as usize,
            ],
        ) && dims::fits(
            seq![
                input.spec_shape()[0],
                n_kv_head,
                (k_weight.spec_shape()[0] as int / n_kv_head as int) as usize,
            ],
        ),
    ensures
        match qkv_decode_error(*input, *q_weight, *k_weight, *v_weight, n_head as int, n_kv_head as int, *mode) {
            Some(e) => r == Err::<(NdArray<u32>, NdArray<u32>, NdArray<u32>), ProjectionError>(e),
            None => {
                let bytes = all_bytes(seq![*q_weight, *k_weight, *v_weight]);
                r matches Ok(a) && heads_projected(f, *input, *q_weight, bytes, n_head as int, a.0) && heads_projected(
                    f,
                    *input,
                    *k_weight,
                    bytes,
                    n_kv_head as int,
                    a.1,
                ) && heads_projected(f, *input, *v_weight, bytes, n_kv_head as int, a.2)
            },
        },
{
    if !is_no_grad(mode) {
        return Err(ProjectionError::NotInference);
    }
    let shape: Vec<usize> = input.shape_vec();
    if shape.len() != 3 {
        return Err(ProjectionError::NotThreeDimensional);
    }
    let b: usize = shape[0];
    let k_dim: usize = shape[2];
    if shape[1] != 1 {
        return Err(ProjectionError::NotSingleStep);
    }
    if n_head == 0 {
        return Err(ProjectionError::NoHeads);
    }
    if n_kv_head == 0 {
        return Err(ProjectionError::NoKeyValueHeads);
    }
    let (q_n, k_n, v_n) = match validate_qkv_shapes(k_dim, q_weight, k_weight, v_weight) {
        Ok(n) => n,
        Err(e) => {
            return Err(e);
        },
    };
    if q_n % n_head != 0 {
        return Err(ProjectionError::QuerySplit);
    }
    if k_n % n_kv_head != 0 {
        return Err(ProjectionError::KeySplit);
    }
    let d: usize = q_n / n_head;
    if k_n / n_kv_head != d {
        return Err(ProjectionError::HeadDimMismatch);
    }
    let bytes: bool = is_bytes(q_weight) && is_bytes(k_weight) && is_bytes(v_weight);
    let xs = input.data_arc(f);
    let q_shape: Vec<usize> = vec![b, n_head, d];
    let k_shape: Vec<usize> = vec![b, n_kv_head, d];
    let v_shape: Vec<usize> = vec![b, n_kv_head, d];
    proof {
        lemma_triple_bytes(*q_weight, *k_weight, *v_weight);
        dims::lemma_product3(shape@);
        let s1 = shape@[1] as int;
        assert(b * s1 == b) by (nonlinear_arith)
            requires
                s1 == 1,
        ;
        assert(q_shape@ =~= seq![b, n_head, d]);
        assert(k_shape@ =~= seq![b, n_kv_head, d]);
        assert(v_shape@ =~= seq![b, n_kv_head, d]);
        lemma_split(b, n_head, d, q_n as int);
        lemma_split(b, n_kv_head, d, k_n as int);
    }
    let q = weight_rows(q_weight, bytes, f);
    let k = weight_rows(k_weight, bytes, f);
    let v = weight_rows(v_weight, bytes, f);
    let q_data: Vec<u32> = project_rows(&xs.data, b, &q, Ghost(q_weight.storage), Ghost(bytes), f);
    let k_data: Vec<u32> = project_rows(&xs.data, b, &k, Ghost(k_weight.storage), Ghost(bytes), f);
    let v_data: Vec<u32> = project_rows(&xs.data, b, &v, Ghost(v_weight.storage), Ghost(bytes), f);
    assert(autograd::reads_as(f, input.storage, *xs));
    Ok(
        (
            NdArray { shape: q_shape, data: q_data },
            NdArray { shape: k_shape, data: k_data },
            NdArray { shape: v_shape, data: v_data },
        ),
    )
}

/// Rows split into heads have as many elements as before.
proof fn lemma_split(b: usize, heads: usize, d: usize, n: int)
    requires
        heads > 0,
        n >= 0,
        n % heads as int == 0,
        d == n / heads as int,
    ensures
        dims::product(seq![b, heads, d]) == b * n,
{
    dims::lemma_product3(seq![b, heads, d]);
    vstd::arithmetic::div_mod::lemma_fundamental_div_mod(n, heads as int);
    assert((b * heads) * d == b * (heads * d)) by (nonlinear_arith);
}

/// `out` are the products of the single row of `x` with the rows of `w`, as `matmul`
/// computes them.
pub open spec fn single_row_product<F: Fpu>(f: &F, x: NdArray<u32>, w: NdArray<u32>, out: Seq<u32>) -> bool {
    let k = w.shape@[1] as int;
    let n = w.shape@[0] as int;
    &&& out.len() == n
    &&& forall|j: int|
        0 <= j < n ==> matmul::row_product(f, 1, n, x.data@, matmul::flat_row(w.data@, j, k), #[trigger] out[j])
}

/// What `matmul` makes of a single row are its products with the rows of the weight.
pub proof fn law_matmul_of_a_single_row<F: Fpu>(f: &F, x: NdArray<u32>, w: NdArray<u32>, r: NdArray<u32>)
    requires
        w.shape@.len() == 2,
        w.shape@[1] > 0,
        x.data@.len() == w.shape@[1],
        matmul::multiplied(f, x, w, r),
    ensures
        single_row_product(f, x, w, r.data@),
{
    let k = w.shape@[1] as int;
    let n = w.shape@[0] as int;
    assert(x.data@.len() as int / k == 1) by (nonlinear_arith)
        requires
            x.data@.len() == k,
            k > 0,
    ;
    assert(1 * n == n && 0 * k == 0 && 0 * n == 0) by (nonlinear_arith);
    assert(matmul::flat_row(x.data@, 0, k) =~= x.data@);
    assert forall|j: int| 0 <= j < n implies matmul::row_product(
        f,
        1,
        n,
        x.data@,
        matmul::flat_row(w.data@, j, k),
        #[trigger] r.data@[j],
    ) by {
        assert(r.data@[0 * n + j] == r.data@[j]);
    }
}

/// The values of a tensor in single precision.
pub open spec fn single_values(t: Tensor) -> Seq<u32> {
    t.storage->F32_0.data@
}

/// A product of a single row is the row of its products.
proof fn lemma_product_of_a_row<F: Fpu>(f: &F, input: Tensor, w: Tensor, mode: GradMode, t: Tensor, x: &NdArray<u32>, y: &NdArray<u32>)
    requires
        fpu::fixed_answers(f),
        w.spec_shape().len() == 2,
        w.spec_shape()[1] > 0,
        dims::product(input.spec_shape()) == w.spec_shape()[1],
        matmul::matmul_result(f, input, w, mode, t),
        autograd::reads_as(f, input.storage, *x),
        autograd::reads_as(f, w.storage, *y),
    ensures
        t.storage is F32,
        single_row_product(f, *x, *y, single_values(t)),
{
    let (a, b, z) = choose|a: NdArray<u32>, b: NdArray<u32>, z: NdArray<u32>|
        autograd::reads_as(f, input.storage, a) && autograd::reads_as(f, w.storage, b) && #[trigger] matmul::multiplied(f, a, b, z)
            && t.storage == TensorStorage::F32(Arc::new(z));
    fixed::lemma_one_reading(f, input.storage, &a, x);
    fixed::lemma_one_reading(f, w.storage, &b, y);
    law_matmul_of_a_single_row(f, a, b, z);
}

/// Where the processor answers alike, the fused projection of a single row is the product
/// with the weight.
pub proof fn law_fused_projection_is_a_product<F: Fpu>(
    f: &F,
    input: Tensor,
    w: Tensor,
    mode: GradMode,
    t: Tensor,
    out: Seq<u32>,
)
    requires
        fpu::fixed_answers(f),
        w.spec_shape().len() == 2,
        w.spec_shape()[1] > 0,
        dims::product(input.spec_shape()) == w.spec_shape()[1],
        matmul::matmul_result(f, input, w, mode, t),
        input_projected(f, input, w, false, out),
    ensures
        t.storage is F32,
        single_values(t) == out,
{
    let x = choose|xs: NdArray<u32>| #[trigger]
        autograd::reads_as(f, input.storage, xs) && projected(f, xs.data@, w.storage, false, out);
    let rows = choose|rows: WeightRows| #[trigger] rows_of(f, w.storage, false, rows) && row_dots(f, x.data@, rows, out);
    let y = rows->Single_0;
    lemma_product_of_a_row(f, input, w, mode, t, &x, &*y);
    let n = y.shape@[0] as int;
    let zs = single_values(t);
    assert forall|i: int| 0 <= i < n implies #[trigger] zs[i] == out[i] by {
        assert(row_dot(f, x.data@, rows, i, out[i]));
        assert(row_dot(f, x.data@, rows, i, zs[i]));
        fixed::lemma_one_row_dot(f, x.data@, rows, i, zs[i], out[i]);
    }
    assert(zs =~= out);
}

/// Elements of arrays of the same extents are combined one by one.
proof fn lemma_zipped_in_place<F: Fpu>(f: &F, op: BinaryOp, a: &NdArray<u32>, b: &NdArray<u32>, r: &NdArray<u32>, p: int)
    requires
        a.wf(),
        b.wf(),
        a.shape@ == b.shape@,
        arithmetic::zipped(f, op, *a, *b, *r),
        0 <= p < a.data@.len(),
    ensures
        r.shape@ == a.shape@,
        r.data@.len() == a.data@.len(),
        arithmetic::applies(f, op, a.data@[p], b.data@[p], r.data@[p]),
{
    let shape = a.shape@;
    assert(dims::broadcast_shape(shape, shape) =~= shape);
    let index = dims::unravel(shape, p);
    dims::lemma_ravel_unravel(shape, p);
    assert forall|i: int| 0 <= i < shape.len() implies #[trigger] dims::narrowed_index(shape, index)[i] == index[i] by {
        assert(index[i] < shape[i]);
    }
    assert(dims::narrowed_index(shape, index) =~= index);
    assert(arithmetic::applies(f, op, a.at(index), b.at(index), r.at(index)));
}

/// The order of a sum of products makes no difference: those of a matrix product come out
/// as those of a product with a single row.
pub open spec fn orders_agree<F: Fpu>(f: &F) -> bool {
    forall|n: int, x: Seq<u32>, row: Seq<u32>, r: u32, s: u32|
        #![trigger fpu::dots(f, x, row, r), matvec::row_sum(f, n, x, row, s)]
        fpu::dots(f, x, row, r) && matvec::row_sum(f, n, x, row, s) ==> r == s
}

/// An element of a product is the product of a row with a row of the weight.
proof fn lemma_product_element<F: Fpu>(
    f: &F,
    input: Tensor,
    w: Tensor,
    mode: GradMode,
    t: Tensor,
    x: &NdArray<u32>,
    rows: WeightRows,
    i: int,
    j: int,
    g: u32,
)
    requires
        fpu::fixed_answers(f),
        input.spec_shape().len() > 0,
        input.spec_shape().last() > 0,
        w.spec_shape().len() == 2,
        w.spec_shape()[1] == input.spec_shape().last(),
        row_count(input.spec_shape()) == 1 || orders_agree(f),
        matmul::matmul_result(f, input, w, mode, t),
        autograd::reads_as(f, input.storage, *x),
        rows_of(f, w.storage, false, rows),
        0 <= i < row_count(input.spec_shape()),
        0 <= j < w.spec_shape()[0],
        row_dot(f, matmul::flat_row(x.data@, i, w.spec_shape()[1] as int), rows, j, g),
    ensures
        t.storage is F32,
        single_values(t)[i * w.spec_shape()[0] + j] == g,
        t.spec_shape() == matmul::matmul_shape(input.spec_shape(), w.spec_shape()),
        single_values(t).len() == row_count(input.spec_shape()) * w.spec_shape()[0],
{
    let (a, b, z) = choose|a: NdArray<u32>, b: NdArray<u32>, z: NdArray<u32>|
        autograd::reads_as(f, input.storage, a) && autograd::reads_as(f, w.storage, b) && #[trigger] matmul::multiplied(f, a, b, z)
            && t.storage == TensorStorage::F32(Arc::new(z));
    let y = rows->Single_0;
    fixed::lemma_one_reading(f, input.storage, &a, x);
    fixed::lemma_one_reading(f, w.storage, &b, &*y);
    let (k, n, m) = (w.spec_shape()[1] as int, w.spec_shape()[0] as int, row_count(input.spec_shape()));
    let xrow = matmul::flat_row(x.data@, i, k);
    let row = matmul::flat_row(y.data@, j, k);
    let v = z.data@[i * n + j];
    assert(matmul::row_product(f, m, n, xrow, row, v));
    assert(matvec::row_sum(f, n, xrow, row, g));
    if m == 1 {
        fixed::lemma_one_sum(f, xrow, row, matvec::row_tree(n, xrow.len() as int), v, g);
    }
}

/// A gated value is made of the products that it was made of.
proof fn lemma_one_gated<F: Fpu>(f: &F, g: u32, u: u32, y: u32, r: u32, s: u32)
    requires
        fpu::fixed_answers(f),
        fpu::is_silu_product(f, g, u, r),
        activation::is_silu(f, g, y),
        fpu::muls(f, y, u, s),
    ensures
        r == s,
{
    let (l, m) = choose|s: u32, m: u32| fpu::is_logistic(f, g, s) && #[trigger] fpu::muls(f, g, s, m) && fpu::muls(f, m, u, r);
    let l2 = choose|s: u32| fpu::is_logistic(f, g, s) && #[trigger] fpu::muls(f, g, s, y);
    fixed::lemma_one_logistic(f, g, l, l2);
}

/// Where the processor answers alike, the fused gate and up projection is what its steps
/// give one after the other: the two products, the activation of the first, and the
/// multiplication by the second. For more than one row, the order of a sum must make no
/// difference, as the steps use another one there.
pub proof fn law_fused_gate_up_is_its_steps<F: Fpu>(
    f: &F,
    input: Tensor,
    gate: Tensor,
    up: Tensor,
    mode: GradMode,
    gated: Tensor,
    lifted: Tensor,
    active: Tensor,
    product: Tensor,
    fused: Tensor,
)
    requires
        fpu::fixed_answers(f),
        input.wf(),
        gate.wf(),
        up.wf(),
        gate_up_input_error(input, gate, up, mode) is None,
        row_count(input.spec_shape()) == 1 || orders_agree(f),
        row_count(input.spec_shape()) == 1 ==> !all_bytes(seq![gate, up]),
        matmul::matmul_result(f, input, gate, mode, gated),
        matmul::matmul_result(f, input, up, mode, lifted),
        activation::activated(f, Activation::Silu, gated, mode, active),
        arithmetic::combined(f, BinaryOp::Mul, active, lifted, mode, product),
        gate_up_result(f, input, gate, up, fused),
    ensures
        product.storage is F32,
        fused.storage is F32,
        product.spec_shape() == fused.spec_shape(),
        single_values(product) == single_values(fused),
{
    let shape = input.spec_shape();
    let k = shape.last() as int;
    let n = gate.spec_shape()[0] as int;
    let m = row_count(shape);
    let (xs, r) = choose|xs: NdArray<u32>, r: NdArray<u32>| #[trigger]
        autograd::reads_as(f, input.storage, xs) && rows_gated(
            f,
            xs.data@,
            m,
            k,
            gate.storage,
            up.storage,
            false,
            n,
            r.data@,
        ) && #[trigger] is_single(fused.storage, r);
    let (a, b) = choose|a: NdArray<u32>, b: NdArray<u32>|
        autograd::reads_as(f, gated.storage, a) && #[trigger] activation::all_activated(f, Activation::Silu, a, b)
            && autograd::stored_as(f, b, DType::F32, active.storage);
    let (c, d, e) = choose|c: NdArray<u32>, d: NdArray<u32>, e: NdArray<u32>|
        autograd::reads_as(f, active.storage, c) && autograd::reads_as(f, lifted.storage, d) && #[trigger] arithmetic::zipped(
            f,
            BinaryOp::Mul,
            c,
            d,
            e,
        ) && autograd::stored_as(f, e, DType::F32, product.storage);
    let gs = single_values(gated);
    let us = single_values(lifted);
    assert(gated.spec_shape() == matmul::matmul_shape(shape, gate.spec_shape()));
    assert(lifted.spec_shape() == matmul::matmul_shape(shape, up.spec_shape()));
    assert(c.shape@ == d.shape@);
    assert(dims::broadcast_shape(c.shape@, c.shape@) =~= c.shape@);
    assert(gs.len() == m * n && e.data@.len() == m * n);
    assert forall|p: int| 0 <= p < m * n implies #[trigger] e.data@[p] == r.data@[p] by {
        let i = p / n;
        let j = p % n;
        assert(0 <= i < m && 0 <= j < n && p == i * n + j && 0 <= i * n && i * n + n <= m * n) by (nonlinear_arith)
            requires
                0 <= p < m * n,
                0 <= n,
                i == p / n,
                j == p % n,
        ;
        lemma_zipped_in_place(f, BinaryOp::Mul, &c, &d, &e, p);
        assert(activation::activates(f, Activation::Silu, a.data@[p], b.data@[p]));
        let x = matmul::flat_row(xs.data@, i, k);
        let out = matmul::flat_row(r.data@, i, n);
        assert(gate_up_projected(f, x, gate.storage, up.storage, false, out));
        let (gr, ur) = choose|g: WeightRows, u: WeightRows|
            #[trigger] rows_of(f, gate.storage, false, g) && #[trigger] rows_of(f, up.storage, false, u) && gated_dots(
                f,
                x,
                g,
                u,
                out,
            );
        assert(out[j] == r.data@[p]);
        assert(gated_dot(f, x, gr, ur, j, out[j]));
        let (g, u) = choose|g: u32, u: u32|
            row_dot(f, x, gr, j, g) && row_dot(f, x, ur, j, u) && #[trigger] fpu::is_silu_product(f, g, u, out[j]);
        lemma_product_element(f, input, gate, mode, gated, &xs, gr, i, j, g);
        lemma_product_element(f, input, up, mode, lifted, &xs, ur, i, j, u);
        lemma_one_gated(f, g, u, b.data@[p], r.data@[p], e.data@[p]);
    }
    assert(e.data@ =~= r.data@);
}

} // verus!
