use crate::array::NdArray;
use crate::autograd;
use crate::autograd::{GradMode, Tensor, TensorStorage};
use crate::dims;
use crate::elements;
use crate::fixed;
use crate::float_bits;
use crate::fpu;
use crate::fpu::Fpu;
use crate::graph::Node;
use crate::layers::basic::dropout;
use crate::layers::basic::embedding;
use crate::layers::basic::linear;
use crate::layers::basic::{Dropout, Embedding, Linear};
use crate::ops::arithmetic;
use crate::ops::arithmetic::BinaryOp;
use crate::ops::matmul;
use crate::rounding;
use std::sync::Arc;
use vstd::prelude::*;

verus! {

/// The numbers behind an element that is kept: the share that is kept, and its inverse.
pub struct Kept {
    pub share: u32,
    pub scale: u32,
    pub factor: u32,
}

/// While training, an element that is kept is divided by the share that is kept, so that the
/// mean stays; one that is not kept becomes zero.
#[verifier::rlimit(40)]
pub proof fn law_kept_elements_make_up<F: Fpu>(
    f: &F,
    rd: spec_fn(int, int) -> int,
    layer: Dropout,
    input: Tensor,
    keep: Seq<bool>,
    mode: GradMode,
    steps: Seq<Node>,
    index: Seq<usize>,
) -> (r: Kept)
    requires
        rounding::rounds_by(f, rd),
        fpu::fixed_answers(f),
        layer.training,
        float_bits::is_finite(layer.p),
        0 < rounding::value(layer.p) < rounding::unit(),
        input.wf(),
        input.storage is F32,
        layer.computes(f, input, keep, mode, steps),
        dims::valid_index(input.spec_shape(), index),
    ensures
        steps.len() == 2,
        steps[1].tensor.spec_shape() == input.spec_shape(),
        rounding::is_difference(rd, fpu::ONE, layer.p, r.share),
        rounding::is_quotient(rd, fpu::ONE, r.share, r.scale),
        ({
            let (x, y) = (elements::element(input, index), elements::element(steps[1].tensor, index));
            if keep[dims::ravel(input.spec_shape(), index)] {
                &&& float_bits::is_finite(r.scale) ==> rounding::value(r.factor) == rounding::value(r.scale)
                &&& rounding::is_product(rd, x, r.factor, y)
            } else {
                float_bits::is_finite(r.scale) && float_bits::is_finite(x) && float_bits::is_finite(r.factor)
                    ==> rounding::value(r.factor) == 0 && rounding::value(y) == 0
            }
        }),
{
    let u = rounding::unit();
    rounding::lemma_constants();
    rounding::lemma_finite_is_number(layer.p);
    rounding::lemma_finite_is_number(fpu::ZERO);
    rounding::lemma_values_order(layer.p, fpu::ZERO);
    let shape = input.spec_shape();
    let (scale, a) = choose|scale: u32, a: NdArray<u32>| #[trigger]
        dropout::keep_scale(f, layer.p, scale) && #[trigger] dropout::is_mask(f, shape, keep, scale, a)
            && steps[0].tensor.is_leaf(TensorStorage::F32(Arc::new(a)), !mode.no_grad());
    let share = choose|q: u32| fpu::subs(f, fpu::ONE, layer.p, q) && #[trigger] fpu::divs(f, fpu::ONE, q, scale);
    let t = steps[1].tensor;
    assert(dims::broadcast_shape(shape, shape) =~= shape);
    assert(dims::compatible(shape, shape));
    elements::lemma_own_stretches(shape);
    elements::lemma_combined_element(f, BinaryOp::Mul, input, steps[0].tensor, mode, t, shape, index);
    let p = dims::ravel(shape, index);
    dims::lemma_ravel_bound(shape, index);
    lemma_own_index(shape, index);
    let factor = a.data@[p];
    assert(elements::element(steps[0].tensor, index) == factor);
    let (x, v, w) = (
        rounding::value(elements::element(input, index)),
        rounding::value(scale),
        rounding::value(factor),
    );
    if keep[p] {
        assert(fpu::muls(f, fpu::ONE, scale, factor));
        if float_bits::is_finite(scale) {
            assert(u * v == v * u) by (nonlinear_arith);
            rounding::lemma_rounds_to_side(rd, u * v, u, scale);
        }
    } else {
        assert(fpu::muls(f, fpu::ZERO, scale, factor));
        assert(0 * v == 0 && 0 * u == 0) by (nonlinear_arith);
        rounding::lemma_rounds_to_side(rd, 0, u, fpu::ZERO);
        assert(w == 0 ==> x * w == 0) by (nonlinear_arith);
    }
    Kept { share, scale, factor }
}

/// An index is its own where nothing is stretched.
proof fn lemma_own_index(shape: Seq<usize>, index: Seq<usize>)
    requires
        dims::valid_index(shape, index),
    ensures
        dims::narrowed_index(shape, index) == index,
{
    assert forall|i: int| 0 <= i < shape.len() implies #[trigger] dims::narrowed_index(shape, index)[i] == index[i] by {
        assert(index[i] < shape[i]);
    }
    assert(dims::narrowed_index(shape, index) =~= index);
}

/// Without training, nothing is dropped.
pub proof fn law_nothing_is_dropped_in_use<F: Fpu>(
    f: &F,
    layer: Dropout,
    input: Tensor,
    keep: Seq<bool>,
    mode: GradMode,
    steps: Seq<Node>,
)
    requires
        !layer.training,
        layer.computes(f, input, keep, mode, steps),
    ensures
        steps.len() == 0,
{
}

/// A token's row in the table is the one that its value counts, and nothing else than this row
/// is what a lookup holds at its place.
#[verifier::rlimit(40)]
pub proof fn law_lookup_gives_rows<F: Fpu>(
    f: &F,
    layer: Embedding,
    indices: Tensor,
    mode: GradMode,
    t: Tensor,
    values: NdArray<u32>,
    table: NdArray<u32>,
    r: NdArray<u32>,
    i: int,
    j: int,
) -> (id: usize)
    requires
        fpu::fixed_answers(f),
        layer.wf(),
        indices.wf(),
        layer.looked_up(f, indices, mode, Ok(t)),
        autograd::reads_as(f, indices.storage, values),
        autograd::reads_as(f, layer.weight.storage, table),
        autograd::reads_as(f, t.storage, r),
        0 <= i < values.data@.len(),
        0 <= j < layer.embed_dim,
    ensures
        id < layer.vocab_size,
        rounding::value(values.data@[i]) == id * rounding::unit(),
        r.data@.len() == values.data@.len() * layer.embed_dim,
        r.data@[i * layer.embed_dim + j] == table.data@[id * layer.embed_dim + j],
{
    let ids = choose|ids: Seq<usize>| #[trigger] layer.found(f, indices, mode, ids, t);
    let vs = choose|vs: NdArray<u32>| #[trigger]
        autograd::reads_as(f, indices.storage, vs) && embedding::reads_indices(vs.data@, layer.vocab_size as int, ids);
    fixed::lemma_one_reading(f, indices.storage, &vs, &values);
    let (id, dim) = (ids[i], layer.embed_dim as int);
    let x = values.data@[i];
    rounding::lemma_constants();
    assert(embedding::index_of(x, layer.vocab_size as int) == Ok::<nat, embedding::IndexError>(id as nat));
    lemma_whole(x);
    let shape = t.spec_shape();
    assert(shape.drop_last() =~= indices.spec_shape());
    assert(dims::product(shape) == dims::product(indices.spec_shape()) * dim);
    let p = i * dim + j;
    let q = id * dim + j;
    assert(0 <= p < values.data@.len() * dim) by (nonlinear_arith)
        requires
            0 <= i < values.data@.len(),
            0 <= j < dim,
            p == i * dim + j,
    ;
    assert(0 <= q < layer.vocab_size * dim) by (nonlinear_arith)
        requires
            0 <= id < layer.vocab_size,
            0 <= j < dim,
            q == id * dim + j,
    ;
    dims::lemma_product2(layer.weight.spec_shape());
    if mode.no_grad() || !layer.weight.requires_grad {
        lemma_looked_up(f, layer.weight.storage, ids, shape, t.storage, &table, &r, i, j);
    } else {
        let a = choose|a: NdArray<u32>| #[trigger]
            autograd::reads_as(f, layer.weight.storage, a) && embedding::is_lookup(&a, ids, shape, &*t.storage->F32_0);
        fixed::lemma_one_reading(f, layer.weight.storage, &a, &table);
        assert(t.storage->F32_0.data@[i * dim + j] == a.data@[ids[i] * dim + j]);
    }
    id
}

/// What a whole number counts.
proof fn lemma_whole(x: u32)
    requires
        float_bits::is_finite(x),
        float_bits::order_key(x) >= 0,
        float_bits::is_whole(x),
    ensures
        rounding::value(x) == float_bits::whole_value(x) * rounding::unit(),
{
    let (s, u) = (float_bits::scaled_magnitude(x) as int, float_bits::unit() as int);
    rounding::lemma_constants();
    vstd::arithmetic::div_mod::lemma_fundamental_div_mod(s, u);
    assert(u * (s / u) == (s / u) * u) by (nonlinear_arith);
    if x >= 0x8000_0000 {
        assert(x == 0x8000_0000u32);
        assert((0x8000_0000u32 / 0x80_0000u32) % 256 == 0);
        assert(s == 0);
    }
}

/// A row that is looked up reads as that of the table.
proof fn lemma_looked_up<F: Fpu>(
    f: &F,
    table: TensorStorage,
    ids: Seq<usize>,
    shape: Seq<usize>,
    t: TensorStorage,
    a: &NdArray<u32>,
    r: &NdArray<u32>,
    i: int,
    j: int,
)
    requires
        fpu::fixed_answers(f),
        embedding::storage_lookup(table, ids, shape, t),
        autograd::reads_as(f, table, *a),
        autograd::reads_as(f, t, *r),
        0 <= i < ids.len(),
        0 <= j < shape.last(),
        0 <= i * shape.last() + j < r.data@.len(),
        0 <= ids[i] * shape.last() + j < a.data@.len(),
    ensures
        r.data@[i * shape.last() + j] == a.data@[ids[i] * shape.last() + j],
{
    let dim = shape.last() as int;
    let (p, q) = (i * dim + j, ids[i] * dim + j);
    match (table, t) {
        (TensorStorage::F32(x), TensorStorage::F32(y)) => {
            assert(y.data@[i * dim + j] == x.data@[ids[i] * dim + j]);
        },
        (TensorStorage::F16(x), TensorStorage::F16(y)) => {
            assert(y.data@[i * dim + j] == x.data@[ids[i] * dim + j]);
            assert(r.data@[p] == float_bits::f16_widened(y.data@[p]));
            assert(a.data@[q] == float_bits::f16_widened(x.data@[q]));
        },
        (TensorStorage::BF16(x), TensorStorage::BF16(y)) => {
            assert(y.data@[i * dim + j] == x.data@[ids[i] * dim + j]);
            assert(r.data@[p] == float_bits::bf16_widened(y.data@[p]));
            assert(a.data@[q] == float_bits::bf16_widened(x.data@[q]));
        },
        (TensorStorage::I8(x, step), TensorStorage::I8(y, _)) => {
            assert(y.data@[i * dim + j] == x.data@[ids[i] * dim + j]);
            assert(autograd::byte_reads_as(f, y.data@[p], step, r.data@[p]));
            assert(autograd::byte_reads_as(f, x.data@[q], step, a.data@[q]));
        },
        _ => {},
    }
}

/// A layer with a bias adds the bias of each column to what the same layer gives without one.
pub proof fn law_bias_is_added<F: Fpu>(
    f: &F,
    rd: spec_fn(int, int) -> int,
    layer: Linear,
    bare: Linear,
    input: Tensor,
    mode: GradMode,
    steps: Seq<Node>,
    without: Seq<Node>,
    bias: NdArray<u32>,
    index: Seq<usize>,
)
    requires
        rounding::rounds_by(f, rd),
        fpu::fixed_answers(f),
        mode.no_grad(),
        layer.wf(),
        layer.accepts(input),
        layer.bias is Some,
        bare == (Linear { bias: None, ..layer }),
        layer.computes(f, input, mode, steps),
        bare.computes(f, input, mode, without),
        autograd::reads_as(f, layer.bias->0.storage, bias),
        dims::valid_index(layer.output_shape(input.spec_shape()), index),
    ensures
        steps.last().tensor.spec_shape() == layer.output_shape(input.spec_shape()),
        without.last().tensor.spec_shape() == layer.output_shape(input.spec_shape()),
        rounding::is_sum(
            rd,
            elements::element(without.last().tensor, index),
            bias.data@[index.last() as int],
            elements::element(steps.last().tensor, index),
        ),
{
    let t = steps[0].tensor;
    let shape = layer.output_shape(input.spec_shape());
    let (xs, ws, bs, y, r) = choose|xs: NdArray<u32>, ws: NdArray<u32>, bs: NdArray<u32>, y: NdArray<u32>, r: NdArray<u32>|
        autograd::reads_as(f, input.storage, xs) && autograd::reads_as(f, layer.weight.storage, ws) && #[trigger]
            autograd::reads_as(f, layer.bias->0.storage, bs) && #[trigger] matmul::multiplied(f, xs, ws, y) && #[trigger]
            linear::biased(f, y, bs.data@, r) && t.is_leaf(TensorStorage::F32(Arc::new(r)), false);
    let (xs2, ws2, z) = choose|x: NdArray<u32>, w: NdArray<u32>, z: NdArray<u32>|
        autograd::reads_as(f, input.storage, x) && autograd::reads_as(f, layer.weight.storage, w) && #[trigger]
            matmul::multiplied(f, x, w, z) && without[0].tensor.storage == TensorStorage::F32(Arc::new(z));
    fixed::lemma_one_reading(f, input.storage, &xs, &xs2);
    fixed::lemma_one_reading(f, layer.weight.storage, &ws, &ws2);
    fixed::lemma_one_reading(f, layer.bias->0.storage, &bs, &bias);
    elements::lemma_one_multiplied(f, &xs, &ws, &y, &xs2, &ws2, &z);
    assert(r.shape@ == shape && z.shape@ == shape);
    let p = dims::ravel(shape, index);
    dims::lemma_ravel_bound(shape, index);
    lemma_own_index(shape, index);
    let n = layer.out_features as int;
    let e = dims::ravel(shape.drop_last(), index.drop_last());
    assert(index[shape.len() - 1] < shape[shape.len() - 1]);
    assert(p == e * n + index.last());
    vstd::arithmetic::div_mod::lemma_fundamental_div_mod_converse(p, n, e, index.last() as int);
    dims::lemma_product1(layer.out_features);
    assert(bias.data@.len() == n);
    assert(fpu::adds(f, y.data@[p], bs.data@[p % (bs.data@.len() as int)], r.data@[p]));
}

/// The same while a pass is recorded.
pub proof fn law_bias_is_added_in_training<F: Fpu>(
    f: &F,
    rd: spec_fn(int, int) -> int,
    layer: Linear,
    bare: Linear,
    input: Tensor,
    mode: GradMode,
    steps: Seq<Node>,
    without: Seq<Node>,
    bias: NdArray<u32>,
    index: Seq<usize>,
)
    requires
        rounding::rounds_by(f, rd),
        fpu::fixed_answers(f),
        !mode.no_grad(),
        layer.wf(),
        layer.accepts(input),
        layer.bias is Some,
        bare == (Linear { bias: None, ..layer }),
        layer.computes(f, input, mode, steps),
        bare.computes(f, input, mode, without),
        autograd::reads_as(f, layer.bias->0.storage, bias),
        dims::valid_index(layer.output_shape(input.spec_shape()), index),
    ensures
        steps.last().tensor.spec_shape() == layer.output_shape(input.spec_shape()),
        without.last().tensor.spec_shape() == layer.output_shape(input.spec_shape()),
        rounding::is_sum(
            rd,
            elements::element(without.last().tensor, index),
            bias.data@[index.last() as int],
            elements::element(steps.last().tensor, index),
        ),
{
    let shape = layer.output_shape(input.spec_shape());
    let (p, t, z) = (steps[0].tensor, steps[1].tensor, without[0].tensor);
    let b = layer.bias->0;
    lemma_one_product(f, input, layer.weight, p, z);
    assert(p.spec_shape() == shape);
    lemma_row_stretches(shape, b.spec_shape());
    elements::lemma_own_stretches(shape);
    elements::lemma_combined_with(f, BinaryOp::Add, p, b, mode, t, &bias, shape, index);
    let own = dims::narrowed_index(bias.shape@, index);
    assert(index[shape.len() - 1] < shape[shape.len() - 1]);
    assert(own.len() == 1 && own[0] == index.last());
    assert(dims::ravel(bias.shape@.drop_last(), own.drop_last()) == 0);
    assert(0 * bias.shape@.last() == 0) by (nonlinear_arith);
    assert(dims::ravel(bias.shape@, own) == index.last());
}

/// Extents and those of a row that is as long as their last: nothing is stretched but the row.
proof fn lemma_row_stretches(shape: Seq<usize>, row: Seq<usize>)
    requires
        shape.len() > 0,
        row.len() == 1,
        row[0] == shape.last(),
    ensures
        dims::compatible(shape, row),
        dims::broadcast_shape(shape, row) == shape,
{
    let n = shape.len() as int;
    assert forall|i: int| 0 <= i < n implies (#[trigger] dims::aligned(shape, n, i) == dims::aligned(row, n, i) || dims::aligned(
        shape,
        n,
        i,
    ) == 1 || dims::aligned(row, n, i) == 1) && dims::broadcast_shape(shape, row)[i] == shape[i] by {
        assert(dims::aligned(shape, n, i) == shape[i]);
        if i == n - 1 {
            assert(dims::aligned(row, n, i) == row[0]);
        }
    }
    assert(dims::broadcast_shape(shape, row) =~= shape);
}

/// A product with a weight has one value.
proof fn lemma_one_product<F: Fpu>(f: &F, x: Tensor, w: Tensor, s: Tensor, t: Tensor)
    requires
        fpu::fixed_answers(f),
        matmul::is_matmul(f, x, w, s),
        matmul::is_matmul(f, x, w, t),
    ensures
        s.storage is F32,
        t.storage is F32,
        s.storage->F32_0.same(&*t.storage->F32_0),
{
    let (x1, w1, r1) = choose|a: NdArray<u32>, b: NdArray<u32>, z: NdArray<u32>|
        autograd::reads_as(f, x.storage, a) && autograd::reads_as(f, w.storage, b) && #[trigger] matmul::multiplied(f, a, b, z)
            && s.storage == TensorStorage::F32(Arc::new(z));
    let (x2, w2, r2) = choose|a: NdArray<u32>, b: NdArray<u32>, z: NdArray<u32>|
        autograd::reads_as(f, x.storage, a) && autograd::reads_as(f, w.storage, b) && #[trigger] matmul::multiplied(f, a, b, z)
            && t.storage == TensorStorage::F32(Arc::new(z));
    fixed::lemma_one_reading(f, x.storage, &x1, &x2);
    fixed::lemma_one_reading(f, w.storage, &w1, &w2);
    elements::lemma_one_multiplied(f, &x1, &w1, &r1, &x2, &w2, &r2);
}

} // verus!
