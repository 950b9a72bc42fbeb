use crate::array;
use crate::array::NdArray;
use crate::autograd;
use crate::autograd::{GradMode, Tensor, TensorStorage};
use crate::dims;
use crate::elements;
use crate::fixed;
use crate::float_bits;
use crate::fpu;
use crate::fpu::Fpu;
use crate::graph::Node;
use crate::layers::activation;
use crate::layers::activation::Activation;
use crate::layers::basic::linear;
use crate::layers::basic::Linear;
use crate::layers::rnn::{LSTM, RNN};
use crate::ops::arithmetic;
use crate::ops::arithmetic::BinaryOp;
use crate::ops::matmul;
use crate::ops::shape;
use crate::rounding;
use vstd::prelude::*;

verus! {

/// Numbers can be added in either order.
pub open spec fn sums_commute<F: Fpu>(f: &F) -> bool {
    forall|a: u32, b: u32, r: u32, s: u32|
        #![trigger fpu::adds(f, a, b, r), fpu::adds(f, b, a, s)]
        !float_bits::is_nan(a) && !float_bits::is_nan(b) && fpu::adds(f, a, b, r) && fpu::adds(f, b, a, s) ==> r == s
}

/// The hyperbolic tangent of a number has one value.
pub open spec fn fixed_tangents<F: Fpu>(f: &F) -> bool {
    forall|a: u32, r: u32, s: u32|
        #![trigger fpu::tanhs(f, a, r), fpu::tanhs(f, a, s)]
        fpu::tanhs(f, a, r) && fpu::tanhs(f, a, s) ==> r == s
}

/// Layers of the same weights give the same for the same input.
proof fn lemma_one_layer<F: Fpu>(f: &F, w: Linear, v: Linear, x: Tensor, mode: GradMode, a: Seq<Node>, b: Seq<Node>)
    requires
        fpu::fixed_answers(f),
        w.wf(),
        v.wf(),
        w.bias is Some,
        v.bias is Some,
        w.weight.storage == v.weight.storage,
        w.bias->0.storage == v.bias->0.storage,
        w.computes(f, x, mode, a),
        v.computes(f, x, mode, b),
    ensures
        a.last().tensor.storage is F32,
        b.last().tensor.storage is F32,
        a.last().tensor.storage->F32_0.same(&*b.last().tensor.storage->F32_0),
{
    if mode.no_grad() {
        lemma_one_affine(f, x, w.weight, w.bias->0, a[0].tensor, v.weight, v.bias->0, b[0].tensor);
    } else {
        let (p, q) = (a[0].tensor, b[0].tensor);
        lemma_one_matmul(f, x, w.weight, p, v.weight, q);
        lemma_one_combined(f, BinaryOp::Add, p, w.bias->0, mode, a[1].tensor, q, v.bias->0, b[1].tensor);
    }
}

#[verifier::rlimit(40)]
proof fn lemma_one_affine<F: Fpu>(f: &F, x: Tensor, w: Tensor, b: Tensor, s: Tensor, v: Tensor, c: Tensor, t: Tensor)
    requires
        fpu::fixed_answers(f),
        w.storage == v.storage,
        b.storage == c.storage,
        linear::is_affine(f, x, w, b, s),
        linear::is_affine(f, x, v, c, t),
    ensures
        s.storage is F32,
        t.storage is F32,
        s.storage->F32_0.same(&*t.storage->F32_0),
{
    let (x1, w1, b1, y1, r1) = choose|xs: NdArray<u32>, ws: NdArray<u32>, bs: NdArray<u32>, y: NdArray<u32>, r: NdArray<u32>|
        autograd::reads_as(f, x.storage, xs) && autograd::reads_as(f, w.storage, ws) && #[trigger] autograd::reads_as(
            f,
            b.storage,
            bs,
        ) && #[trigger] matmul::multiplied(f, xs, ws, y) && #[trigger] linear::biased(f, y, bs.data@, r) && s.is_leaf(
            TensorStorage::F32(std::sync::Arc::new(r)),
            false,
        );
    let (x2, w2, b2, y2, r2) = choose|xs: NdArray<u32>, ws: NdArray<u32>, bs: NdArray<u32>, y: NdArray<u32>, r: NdArray<u32>|
        autograd::reads_as(f, x.storage, xs) && autograd::reads_as(f, v.storage, ws) && #[trigger] autograd::reads_as(
            f,
            c.storage,
            bs,
        ) && #[trigger] matmul::multiplied(f, xs, ws, y) && #[trigger] linear::biased(f, y, bs.data@, r) && t.is_leaf(
            TensorStorage::F32(std::sync::Arc::new(r)),
            false,
        );
    fixed::lemma_one_reading(f, x.storage, &x1, &x2);
    fixed::lemma_one_reading(f, w.storage, &w1, &w2);
    fixed::lemma_one_reading(f, b.storage, &b1, &b2);
    elements::lemma_one_multiplied(f, &x1, &w1, &y1, &x2, &w2, &y2);
    assert forall|i: int| 0 <= i < r1.data@.len() implies #[trigger] r1.data@[i] == r2.data@[i] by {
        let z = b1.data@[i % (b1.data@.len() as int)];
        assert(fpu::adds(f, y1.data@[i], z, r1.data@[i]));
        assert(fpu::adds(f, y1.data@[i], z, r2.data@[i]));
    }
    assert(r1.data@ =~= r2.data@);
}

proof fn lemma_one_matmul<F: Fpu>(f: &F, x: Tensor, w: Tensor, s: Tensor, v: Tensor, t: Tensor)
    requires
        fpu::fixed_answers(f),
        w.storage == v.storage,
        matmul::is_matmul(f, x, w, s),
        matmul::is_matmul(f, x, v, t),
    ensures
        s.storage is F32,
        t.storage is F32,
        s.storage->F32_0.same(&*t.storage->F32_0),
{
    let (x1, w1, r1) = choose|a: NdArray<u32>, b: NdArray<u32>, z: NdArray<u32>|
        autograd::reads_as(f, x.storage, a) && autograd::reads_as(f, w.storage, b) && #[trigger] matmul::multiplied(f, a, b, z)
            && s.storage == TensorStorage::F32(std::sync::Arc::new(z));
    let (x2, w2, r2) = choose|a: NdArray<u32>, b: NdArray<u32>, z: NdArray<u32>|
        autograd::reads_as(f, x.storage, a) && autograd::reads_as(f, v.storage, b) && #[trigger] matmul::multiplied(f, a, b, z)
            && t.storage == TensorStorage::F32(std::sync::Arc::new(z));
    fixed::lemma_one_reading(f, x.storage, &x1, &x2);
    fixed::lemma_one_reading(f, w.storage, &w1, &w2);
    elements::lemma_one_multiplied(f, &x1, &w1, &r1, &x2, &w2, &r2);
}

proof fn lemma_one_combined<F: Fpu>(
    f: &F,
    op: BinaryOp,
    l: Tensor,
    r: Tensor,
    mode: GradMode,
    t: Tensor,
    m: Tensor,
    s: Tensor,
    u: Tensor,
)
    requires
        fpu::fixed_answers(f),
        arithmetic::combined(f, op, l, r, mode, t),
        arithmetic::combined(f, op, m, s, mode, u),
        l.storage is F32,
        m.storage is F32,
        l.storage->F32_0.same(&*m.storage->F32_0),
        r.storage == s.storage,
    ensures
        t.storage is F32,
        u.storage is F32,
        t.storage->F32_0.same(&*u.storage->F32_0),
{
    let (a1, b1, c1) = choose|a: NdArray<u32>, b: NdArray<u32>, c: NdArray<u32>|
        autograd::reads_as(f, l.storage, a) && autograd::reads_as(f, r.storage, b) && #[trigger] arithmetic::zipped(f, op, a, b, c)
            && autograd::stored_as(f, c, t.spec_dtype(), t.storage);
    let (a2, b2, c2) = choose|a: NdArray<u32>, b: NdArray<u32>, c: NdArray<u32>|
        autograd::reads_as(f, m.storage, a) && autograd::reads_as(f, s.storage, b) && #[trigger] arithmetic::zipped(f, op, a, b, c)
            && autograd::stored_as(f, c, u.spec_dtype(), u.storage);
    fixed::lemma_one_reading(f, r.storage, &b1, &b2);
    elements::lemma_one_zipped(f, op, &a1, &b1, &c1, &a2, &b2, &c2);
}

/// Elements of what holds the same are the same.
proof fn lemma_element_of_same(s: Tensor, t: Tensor, index: Seq<usize>)
    requires
        s.storage is F32,
        t.storage is F32,
        s.storage->F32_0.same(&*t.storage->F32_0),
    ensures
        s.spec_shape() == t.spec_shape(),
        elements::element(s, index) == elements::element(t, index),
{
}

/// The next state is the hyperbolic tangent of a sum: that of what the one layer makes of the
/// input, on its own, and of what the other makes of the state. The result `u` is that sum at
/// an index, rounded once.
pub proof fn law_input_and_state_add_up<F: Fpu>(
    f: &F,
    rd: spec_fn(int, int) -> int,
    layer: RNN,
    x: Tensor,
    h: Tensor,
    mode: GradMode,
    a: Seq<Node>,
    b: Seq<Node>,
    steps: Seq<Node>,
    index: Seq<usize>,
) -> (u: u32)
    requires
        rounding::rounds_by(f, rd),
        fpu::fixed_answers(f),
        layer.wf(),
        layer.accepts(x, h),
        layer.w_ih.computes(f, x, mode, a),
        layer.w_hh.computes(f, h, mode, b),
        layer.computes(f, x, h, mode, steps),
        dims::valid_index(steps.last().tensor.spec_shape(), index),
        float_bits::is_finite(elements::element(a.last().tensor, index)),
        float_bits::is_finite(elements::element(b.last().tensor, index)),
    ensures
        steps.last().tensor.spec_shape() == dims::broadcast_shape(a.last().tensor.spec_shape(), b.last().tensor.spec_shape()),
        !float_bits::is_nan(u),
        rounding::value(u) == rd(
            rounding::value(elements::element(a.last().tensor, index)) + rounding::value(elements::element(b.last().tensor, index)),
            1,
        ),
        fpu::tanhs(f, u, elements::element(steps.last().tensor, index)),
{
    let (p, q) = choose|a: Seq<Node>, b: Seq<Node>| #[trigger] layer.sums(f, x, h, mode, a, b, steps.drop_last());
    lemma_one_layer(f, layer.w_ih, layer.w_ih, x, mode, a, p);
    lemma_one_layer(f, layer.w_hh, layer.w_hh, h, mode, b, q);
    lemma_element_of_same(a.last().tensor, p.last().tensor, index);
    lemma_element_of_same(b.last().tensor, q.last().tensor, index);
    lemma_layer_extents(f, layer.w_ih, x, mode, p);
    lemma_layer_extents(f, layer.w_hh, h, mode, q);
    lemma_layer_is_sound(f, layer.w_hh, h, mode, q);
    let sum = steps[steps.len() - 2].tensor;
    let wide = steps.last().tensor.spec_shape();
    assert(steps.drop_last()[steps.len() - 2].tensor == sum);
    elements::lemma_combined_element(f, BinaryOp::Add, p.last().tensor, q.last().tensor, mode, sum, wide, index);
    elements::lemma_activated_element(f, Activation::Tanh, sum, mode, steps.last().tensor, wide, index);
    elements::element(sum, index)
}

/// Input and state enter a step alike: with the same weights and biases for both, exchanging
/// the input and the state leaves the next state as it is.
#[verifier::rlimit(40)]
pub proof fn law_input_and_state_enter_alike<F: Fpu>(
    f: &F,
    layer: RNN,
    x: Tensor,
    h: Tensor,
    mode: GradMode,
    steps: Seq<Node>,
    turned: Seq<Node>,
    a: Seq<Node>,
    b: Seq<Node>,
    index: Seq<usize>,
)
    requires
        fpu::fixed_answers(f),
        fixed_tangents(f),
        sums_commute(f),
        layer.wf(),
        layer.w_ih.weight.storage == layer.w_hh.weight.storage,
        layer.w_ih.bias->0.storage == layer.w_hh.bias->0.storage,
        layer.accepts(x, h),
        layer.computes(f, x, h, mode, steps),
        layer.computes(f, h, x, mode, turned),
        layer.w_ih.computes(f, x, mode, a),
        layer.w_hh.computes(f, h, mode, b),
        dims::valid_index(steps.last().tensor.spec_shape(), index),
        !float_bits::is_nan(elements::element(a.last().tensor, index)),
        !float_bits::is_nan(elements::element(b.last().tensor, index)),
    ensures
        steps.last().tensor.spec_shape() == turned.last().tensor.spec_shape(),
        elements::element(steps.last().tensor, index) == elements::element(turned.last().tensor, index),
{
    let (p, q) = choose|a: Seq<Node>, b: Seq<Node>| #[trigger] layer.sums(f, x, h, mode, a, b, steps.drop_last());
    let (r, s) = choose|a: Seq<Node>, b: Seq<Node>| #[trigger] layer.sums(f, h, x, mode, a, b, turned.drop_last());
    lemma_one_layer(f, layer.w_ih, layer.w_ih, x, mode, a, p);
    lemma_one_layer(f, layer.w_ih, layer.w_hh, x, mode, a, s);
    lemma_one_layer(f, layer.w_hh, layer.w_hh, h, mode, b, q);
    lemma_one_layer(f, layer.w_hh, layer.w_ih, h, mode, b, r);
    lemma_element_of_same(a.last().tensor, p.last().tensor, index);
    lemma_element_of_same(a.last().tensor, s.last().tensor, index);
    lemma_element_of_same(b.last().tensor, q.last().tensor, index);
    lemma_element_of_same(b.last().tensor, r.last().tensor, index);
    lemma_layer_extents(f, layer.w_ih, x, mode, a);
    lemma_layer_extents(f, layer.w_hh, h, mode, b);
    let (k, l) = (a.last().tensor.spec_shape(), b.last().tensor.spec_shape());
    assert(dims::broadcast_shape(k, l) =~= dims::broadcast_shape(l, k));
    let sum = steps[steps.len() - 2].tensor;
    let mus = turned[turned.len() - 2].tensor;
    let wide = steps.last().tensor.spec_shape();
    lemma_layer_is_sound(f, layer.w_hh, h, mode, q);
    lemma_layer_is_sound(f, layer.w_hh, x, mode, s);
    assert forall|i: int| 0 <= i < dims::max_ndim(l, k) implies #[trigger] dims::aligned(l, dims::max_ndim(l, k) as int, i)
        == dims::aligned(k, dims::max_ndim(l, k) as int, i) || dims::aligned(l, dims::max_ndim(l, k) as int, i) == 1
        || dims::aligned(k, dims::max_ndim(l, k) as int, i) == 1 by {
        assert(dims::aligned(k, dims::max_ndim(k, l) as int, i) == dims::aligned(k, dims::max_ndim(l, k) as int, i));
    }
    assert(steps.drop_last()[steps.len() - 2].tensor == sum);
    assert(turned.drop_last()[turned.len() - 2].tensor == mus);
    elements::lemma_combined_element(f, BinaryOp::Add, p.last().tensor, q.last().tensor, mode, sum, wide, index);
    elements::lemma_combined_element(f, BinaryOp::Add, r.last().tensor, s.last().tensor, mode, mus, wide, index);
    elements::lemma_activated_element(f, Activation::Tanh, sum, mode, steps.last().tensor, wide, index);
    elements::lemma_activated_element(f, Activation::Tanh, mus, mode, turned.last().tensor, wide, index);
}

/// What a layer gives is sound.
proof fn lemma_layer_is_sound<F: Fpu>(f: &F, w: Linear, x: Tensor, mode: GradMode, a: Seq<Node>)
    requires
        w.bias is Some,
        w.computes(f, x, mode, a),
    ensures
        a.last().tensor.wf(),
{
}

/// What a layer gives has the extents of its input, but for the last.
proof fn lemma_layer_extents<F: Fpu>(f: &F, w: Linear, x: Tensor, mode: GradMode, a: Seq<Node>)
    requires
        w.wf(),
        w.bias is Some,
        x.spec_shape().len() > 0,
        w.computes(f, x, mode, a),
    ensures
        a.last().tensor.spec_shape() == w.output_shape(x.spec_shape()),
{
    if !mode.no_grad() {
        let (k, l) = (a[0].tensor.spec_shape(), w.bias->0.spec_shape());
        assert(k == w.output_shape(x.spec_shape()));
        let n = k.len() as int;
        assert forall|i: int| 0 <= i < n implies #[trigger] dims::broadcast_shape(k, l)[i] == k[i] by {
            assert(dims::aligned(k, n, i) == k[i]);
            if i == n - 1 {
                assert(dims::aligned(l, n, i) == l[0]);
            }
        }
        assert(dims::broadcast_shape(k, l) =~= k);
    }
}

/// Where gate `j` of four, each of this size, is found among the gates.
pub open spec fn gate_index(gate: Seq<usize>, index: Seq<usize>, j: int) -> Seq<usize> {
    let own = dims::narrowed_index(gate, index);
    own.update(gate.len() - 1, (own.last() + j * gate.last()) as usize)
}

/// An element of a slice of the last axis.
#[verifier::rlimit(40)]
proof fn lemma_slice_element<F: Fpu>(
    f: &F,
    input: Tensor,
    j: int,
    size: usize,
    mode: GradMode,
    t: Tensor,
    wide: Seq<usize>,
    index: Seq<usize>,
)
    requires
        input.storage is F32,
        input.wf(),
        input.spec_shape().len() > 0,
        input.spec_shape().last() == 4 * size,
        0 <= j < 4,
        shape::slice_result(f, input, j * size, (j + 1) * size, mode, t),
        dims::stretches_to(t.spec_shape(), wide),
        dims::valid_index(wide, index),
    ensures
        t.storage is F32,
        t.spec_shape() == input.spec_shape().update(input.spec_shape().len() - 1, size),
        dims::valid_index(input.spec_shape(), gate_index(t.spec_shape(), index, j)),
        elements::element(t, index) == elements::element(input, gate_index(t.spec_shape(), index, j)),
{
    let axis = input.spec_shape().len() - 1;
    assert((j + 1) * size - j * size == size) by (nonlinear_arith);
    let own = dims::narrowed_index(t.spec_shape(), index);
    dims::lemma_narrowed_index(t.spec_shape(), wide, index);
    assert(own[axis] < t.spec_shape()[axis]);
    let far = gate_index(t.spec_shape(), index, j);
    assert(own.last() + j * size < 4 * size && 0 <= j * size) by (nonlinear_arith)
        requires
            own.last() < size,
            0 <= j < 4,
    ;
    assert forall|i: int| 0 <= i < input.spec_shape().len() implies #[trigger] far[i] < input.spec_shape()[i] by {
        if i != axis {
            assert(own[i] < t.spec_shape()[i]);
        }
    }
    assert(dims::narrowed_index(input.spec_shape(), far) =~= far);
    if mode.no_grad() || !input.requires_grad {
        assert(!(j * size == 0 && (j + 1) * size == 4 * size)) by (nonlinear_arith)
            requires
                0 < size,
                0 <= j < 4,
        ;
    } else {
        let a = choose|a: NdArray<u32>| #[trigger]
            autograd::reads_as(f, input.storage, a) && array::is_sliced(
                &a,
                axis,
                j * size,
                (j + 1) * size,
                &*t.storage->F32_0,
            );
    }
    assert(t.storage->F32_0.at(own) == input.storage->F32_0.at(own.update(axis, (own[axis] + j * size) as usize)));
}

/// The four gates of a step at an index, the cell and the state.
pub struct Gated {
    pub input: u32,
    pub forget: u32,
    pub cell: u32,
    pub output: u32,
    pub kept: u32,
    pub taken: u32,
    pub squashed: u32,
}

/// A gate is a function of what the layers make of the input and of the state, added.
pub open spec fn is_gate<F: Fpu>(
    f: &F,
    rd: spec_fn(int, int) -> int,
    kind: Activation,
    a: Tensor,
    b: Tensor,
    at: Seq<usize>,
    r: u32,
) -> bool {
    float_bits::is_finite(elements::element(a, at)) && float_bits::is_finite(elements::element(b, at)) ==> exists|u: u32|
        !float_bits::is_nan(u) && rounding::value(u) == rd(rounding::value(elements::element(a, at)) + rounding::value(elements::element(b, at)), 1)
            && #[trigger] activation::activates(f, kind, u, r)
}

/// A step keeps of the cell what the forget gate lets through, takes up what the input gate
/// lets through of the new content, and gives out what the output gate lets through of the
/// cell. The gates lie in the order of input, forget, content and output; each is a function
/// of the sum of what the two layers make of the input and of the state on their own.
#[verifier::rlimit(40)]
pub proof fn law_gates_update_the_cell<F: Fpu>(
    f: &F,
    rd: spec_fn(int, int) -> int,
    layer: LSTM,
    x: Tensor,
    h: Tensor,
    c: Tensor,
    mode: GradMode,
    a: Seq<Node>,
    b: Seq<Node>,
    cs: NdArray<u32>,
    steps: Seq<Node>,
    index: Seq<usize>,
) -> (r: Gated)
    requires
        rounding::rounds_by(f, rd),
        fpu::fixed_answers(f),
        layer.wf(),
        layer.accepts(x, h, c),
        layer.w_x.computes(f, x, mode, a),
        layer.w_h.computes(f, h, mode, b),
        autograd::reads_as(f, c.storage, cs),
        layer.computes(f, x, h, c, mode, steps),
        dims::valid_index(steps.last().tensor.spec_shape(), index),
    ensures
        ({
            let gate = layer.gate_shape(x.spec_shape(), h.spec_shape());
            let (p, q) = (a.last().tensor, b.last().tensor);
            let cell = elements::element(steps[steps.len() - 3].tensor, index);
            &&& is_gate(f, rd, Activation::Sigmoid, p, q, gate_index(gate, index, 0), r.input)
            &&& is_gate(f, rd, Activation::Sigmoid, p, q, gate_index(gate, index, 1), r.forget)
            &&& is_gate(f, rd, Activation::Tanh, p, q, gate_index(gate, index, 2), r.cell)
            &&& is_gate(f, rd, Activation::Sigmoid, p, q, gate_index(gate, index, 3), r.output)
            &&& rounding::is_product(rd, r.forget, cs.at(dims::narrowed_index(cs.shape@, index)), r.kept)
            &&& rounding::is_product(rd, r.input, r.cell, r.taken)
            &&& float_bits::is_finite(r.kept) && float_bits::is_finite(r.taken) ==> !float_bits::is_nan(cell)
                && rounding::value(cell) == rd(rounding::value(r.kept) + rounding::value(r.taken), 1)
            &&& fpu::tanhs(f, cell, r.squashed)
            &&& rounding::is_product(rd, r.output, r.squashed, elements::element(steps.last().tensor, index))
        }),
{
    let g = steps.len() - 14;
    let wide = steps.last().tensor.spec_shape();
    let gate = layer.gate_shape(x.spec_shape(), h.spec_shape());
    let (p, q) = choose|a: Seq<Node>, b: Seq<Node>| #[trigger] layer.sums(f, x, h, mode, a, b, steps.take(g + 1));
    let gates = steps[g].tensor;
    assert(steps.take(g + 1)[g].tensor == gates);
    lemma_one_layer(f, layer.w_x, layer.w_x, x, mode, a, p);
    lemma_one_layer(f, layer.w_h, layer.w_h, h, mode, b, q);
    lemma_layer_extents(f, layer.w_x, x, mode, p);
    lemma_layer_extents(f, layer.w_h, h, mode, q);
    lemma_layer_is_sound(f, layer.w_h, h, mode, q);
    lemma_gates_extents(layer, x.spec_shape(), h.spec_shape());
    elements::lemma_own_stretches(gates.spec_shape());
    lemma_wide_extents(layer, f, c, mode, g, steps, gate);
    lemma_single_sum(f, p.last().tensor, q.last().tensor, mode, gates);
    lemma_gate(f, rd, layer, mode, g, 0, Activation::Sigmoid, a.last().tensor, b.last().tensor, p, q, steps, wide, index);
    lemma_gate(f, rd, layer, mode, g, 1, Activation::Sigmoid, a.last().tensor, b.last().tensor, p, q, steps, wide, index);
    lemma_gate(f, rd, layer, mode, g, 2, Activation::Tanh, a.last().tensor, b.last().tensor, p, q, steps, wide, index);
    lemma_gate(f, rd, layer, mode, g, 3, Activation::Sigmoid, a.last().tensor, b.last().tensor, p, q, steps, wide, index);
    lemma_update(f, layer, c, cs, mode, g, gate, steps, wide, index);
    Gated {
        input: elements::element(steps[g + 5].tensor, index),
        forget: elements::element(steps[g + 6].tensor, index),
        cell: elements::element(steps[g + 7].tensor, index),
        output: elements::element(steps[g + 8].tensor, index),
        kept: elements::element(steps[g + 9].tensor, index),
        taken: elements::element(steps[g + 10].tensor, index),
        squashed: elements::element(steps[g + 12].tensor, index),
    }
}

/// The state is as wide as a gate stretches.
proof fn lemma_wide_extents<F: Fpu>(layer: LSTM, f: &F, c: Tensor, mode: GradMode, g: int, steps: Seq<Node>, gate: Seq<usize>)
    requires
        layer.updates(f, c, mode, g, steps),
        g >= 0,
        gate == steps[g].tensor.spec_shape().update(steps[g].tensor.spec_shape().len() - 1, layer.hidden_size),
        ({
            let kept = dims::broadcast_shape(gate, c.spec_shape());
            let cell = dims::broadcast_shape(kept, gate);
            dims::compatible(gate, cell)
        }),
    ensures
        dims::stretches_to(gate, steps[g + 13].tensor.spec_shape()),
{
    let kept = dims::broadcast_shape(gate, c.spec_shape());
    let cell = dims::broadcast_shape(kept, gate);
    let size = layer.hidden_size as int;
    assert((0 + 1) * size - 0 * size == size && (1 + 1) * size - 1 * size == size && (2 + 1) * size - 2 * size == size && (3 + 1)
        * size - 3 * size == size) by (nonlinear_arith);
    assert(dims::broadcast_shape(gate, gate) =~= gate);
    dims::lemma_broadcast_stretches(gate, cell);
}

/// What follows the gates, by elements.
proof fn lemma_update<F: Fpu>(
    f: &F,
    layer: LSTM,
    c: Tensor,
    cs: NdArray<u32>,
    mode: GradMode,
    g: int,
    gate: Seq<usize>,
    steps: Seq<Node>,
    wide: Seq<usize>,
    index: Seq<usize>,
)
    requires
        fpu::fixed_answers(f),
        layer.updates(f, c, mode, g, steps),
        autograd::reads_as(f, c.storage, cs),
        g >= 0,
        wide == steps[g + 13].tensor.spec_shape(),
        dims::valid_index(wide, index),
        ({
            let kept = dims::broadcast_shape(gate, c.spec_shape());
            let cell = dims::broadcast_shape(kept, gate);
            &&& dims::compatible(gate, c.spec_shape())
            &&& dims::compatible(kept, gate)
            &&& dims::compatible(gate, cell)
        }),
        forall|j: int|
            5 <= j < 9 ==> (#[trigger] steps[g + j]).tensor.storage is F32 && steps[g + j].tensor.wf()
                && steps[g + j].tensor.spec_shape() == gate,
    ensures
        steps[g + 11].tensor.storage is F32,
        fpu::muls(
            f,
            elements::element(steps[g + 6].tensor, index),
            cs.at(dims::narrowed_index(cs.shape@, index)),
            elements::element(steps[g + 9].tensor, index),
        ),
        fpu::muls(
            f,
            elements::element(steps[g + 5].tensor, index),
            elements::element(steps[g + 7].tensor, index),
            elements::element(steps[g + 10].tensor, index),
        ),
        fpu::adds(
            f,
            elements::element(steps[g + 9].tensor, index),
            elements::element(steps[g + 10].tensor, index),
            elements::element(steps[g + 11].tensor, index),
        ),
        fpu::tanhs(f, elements::element(steps[g + 11].tensor, index), elements::element(steps[g + 12].tensor, index)),
        fpu::muls(
            f,
            elements::element(steps[g + 8].tensor, index),
            elements::element(steps[g + 12].tensor, index),
            elements::element(steps[g + 13].tensor, index),
        ),
{
    let kept = dims::broadcast_shape(gate, c.spec_shape());
    let cell = dims::broadcast_shape(kept, gate);
    elements::lemma_own_stretches(wide);
    dims::lemma_broadcast_stretches(gate, c.spec_shape());
    dims::lemma_broadcast_stretches(kept, gate);
    dims::lemma_broadcast_stretches(gate, cell);
    assert(dims::broadcast_shape(gate, gate) =~= gate);
    assert(dims::compatible(gate, gate));
    elements::lemma_stretches_on(kept, cell, wide);
    elements::lemma_combined_with(f, BinaryOp::Mul, steps[g + 6].tensor, c, mode, steps[g + 9].tensor, &cs, wide, index);
    assert(dims::broadcast_shape(gate, gate) =~= gate);
    elements::lemma_combined_element(f, BinaryOp::Mul, steps[g + 5].tensor, steps[g + 7].tensor, mode, steps[g + 10].tensor, wide, index);
    elements::lemma_combined_element(f, BinaryOp::Add, steps[g + 9].tensor, steps[g + 10].tensor, mode, steps[g + 11].tensor, wide, index);
    elements::lemma_activated_element(f, Activation::Tanh, steps[g + 11].tensor, mode, steps[g + 12].tensor, wide, index);
    elements::lemma_combined_element(f, BinaryOp::Mul, steps[g + 8].tensor, steps[g + 12].tensor, mode, steps[g + 13].tensor, wide, index);
}

/// A sum of tensors of single precision is one.
proof fn lemma_single_sum<F: Fpu>(f: &F, l: Tensor, r: Tensor, mode: GradMode, t: Tensor)
    requires
        arithmetic::combined(f, BinaryOp::Add, l, r, mode, t),
        l.storage is F32,
        r.storage is F32,
    ensures
        t.storage is F32,
{
}

/// The gates are as wide as four states.
proof fn lemma_gates_extents(layer: LSTM, x: Seq<usize>, h: Seq<usize>)
    requires
        layer.wf(),
        x.len() > 0,
        h.len() > 0,
    ensures
        layer.gates_shape(x, h).len() > 0,
        layer.gates_shape(x, h).last() == 4 * layer.hidden_size,
{
    let (k, l) = (layer.w_x.output_shape(x), layer.w_h.output_shape(h));
    let n = dims::max_ndim(k, l) as int;
    assert(dims::aligned(k, n, n - 1) == k.last());
    assert(dims::aligned(l, n, n - 1) == l.last());
}

/// A gate, in numbers.
proof fn lemma_gate<F: Fpu>(
    f: &F,
    rd: spec_fn(int, int) -> int,
    layer: LSTM,
    mode: GradMode,
    g: int,
    j: int,
    kind: Activation,
    a: Tensor,
    b: Tensor,
    p: Seq<Node>,
    q: Seq<Node>,
    steps: Seq<Node>,
    wide: Seq<usize>,
    index: Seq<usize>,
)
    requires
        rounding::rounds_by(f, rd),
        fpu::fixed_answers(f),
        0 <= j < 4,
        layer.gate_steps(f, mode, g, j, kind, steps),
        arithmetic::combined(f, BinaryOp::Add, p.last().tensor, q.last().tensor, mode, steps[g].tensor),
        p.last().tensor.storage is F32,
        q.last().tensor.storage is F32,
        a.storage is F32,
        b.storage is F32,
        a.storage->F32_0.same(&*p.last().tensor.storage->F32_0),
        b.storage->F32_0.same(&*q.last().tensor.storage->F32_0),
        q.last().tensor.wf(),
        dims::compatible(p.last().tensor.spec_shape(), q.last().tensor.spec_shape()),
        steps[g].tensor.storage is F32,
        steps[g].tensor.spec_shape().len() > 0,
        steps[g].tensor.spec_shape().last() == 4 * layer.hidden_size,
        dims::stretches_to(
            steps[g].tensor.spec_shape().update(steps[g].tensor.spec_shape().len() - 1, layer.hidden_size),
            wide,
        ),
        dims::valid_index(wide, index),
    ensures
        steps[g + 5 + j].tensor.storage is F32,
        steps[g + 5 + j].tensor.wf(),
        steps[g + 5 + j].tensor.spec_shape() == steps[g].tensor.spec_shape().update(
            steps[g].tensor.spec_shape().len() - 1,
            layer.hidden_size,
        ),
        is_gate(
            f,
            rd,
            kind,
            a,
            b,
            gate_index(steps[g + 5 + j].tensor.spec_shape(), index, j),
            elements::element(steps[g + 5 + j].tensor, index),
        ),
{
    let gates = steps[g].tensor;
    let one = steps[g + 1 + j].tensor;
    let size = layer.hidden_size as int;
    assert((j + 1) * size - j * size == size) by (nonlinear_arith);
    lemma_slice_element(f, gates, j, layer.hidden_size, mode, one, wide, index);
    elements::lemma_activated_element(f, kind, one, mode, steps[g + 5 + j].tensor, wide, index);
    let at = gate_index(one.spec_shape(), index, j);
    elements::lemma_own_stretches(gates.spec_shape());
    elements::lemma_combined_element(f, BinaryOp::Add, p.last().tensor, q.last().tensor, mode, gates, gates.spec_shape(), at);
    assert(activation::activates(f, kind, elements::element(gates, at), elements::element(steps[g + 5 + j].tensor, index)));
}

} // verus!
