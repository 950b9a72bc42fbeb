use crate::array::NdArray;
use crate::autograd;
use crate::autograd::{GradMode, Tensor, TensorStorage};
use crate::dims;
use crate::fixed;
use crate::fpu;
use crate::fpu::Fpu;
use crate::layers::activation;
use crate::layers::activation::Activation;
use crate::ops::arithmetic;
use crate::ops::arithmetic::BinaryOp;
use crate::ops::matmul;
use crate::ops::matvec;
use crate::precision::DType;
use crate::rounding;
use vstd::prelude::*;

verus! {

/// The element that an index stands for, of what is held in single precision; extents of one
/// are stretched.
pub open spec fn element(t: Tensor, index: Seq<usize>) -> u32 {
    t.storage->F32_0.at(dims::narrowed_index(t.spec_shape(), index))
}

/// Arrays with the same element at every index are the same.
pub proof fn lemma_same_elements(r: &NdArray<u32>, s: &NdArray<u32>)
    requires
        r.wf(),
        s.wf(),
        r.shape@ == s.shape@,
        forall|index: Seq<usize>| dims::valid_index(r.shape@, index) ==> #[trigger] r.at(index) == s.at(index),
    ensures
        r.data@ == s.data@,
{
    assert forall|p: int| 0 <= p < r.data@.len() implies #[trigger] r.data@[p] == s.data@[p] by {
        let index = dims::unravel(r.shape@, p);
        dims::lemma_ravel_unravel(r.shape@, p);
        assert(r.at(index) == s.at(index));
    }
    assert(r.data@ =~= s.data@);
}

/// Elements that are combined alike come out alike.
pub proof fn lemma_one_zipped<F: Fpu>(
    f: &F,
    op: BinaryOp,
    a: &NdArray<u32>,
    b: &NdArray<u32>,
    r: &NdArray<u32>,
    c: &NdArray<u32>,
    d: &NdArray<u32>,
    s: &NdArray<u32>,
)
    requires
        fpu::fixed_answers(f),
        a.same(c),
        b.same(d),
        arithmetic::zipped(f, op, *a, *b, *r),
        arithmetic::zipped(f, op, *c, *d, *s),
    ensures
        r.same(s),
{
    assert forall|index: Seq<usize>| dims::valid_index(r.shape@, index) implies #[trigger] r.at(index) == s.at(index) by {
        let (x, y) = (a.at(dims::narrowed_index(a.shape@, index)), b.at(dims::narrowed_index(b.shape@, index)));
        assert(arithmetic::applies(f, op, x, y, r.at(index)));
        assert(arithmetic::applies(f, op, x, y, s.at(index)));
    }
    lemma_same_elements(r, s);
}

/// A product of matrices has one value.
pub proof fn lemma_one_multiplied<F: Fpu>(
    f: &F,
    x: &NdArray<u32>,
    w: &NdArray<u32>,
    r: &NdArray<u32>,
    y: &NdArray<u32>,
    v: &NdArray<u32>,
    s: &NdArray<u32>,
)
    requires
        fpu::fixed_answers(f),
        x.same(y),
        w.same(v),
        matmul::multiplied(f, *x, *w, *r),
        matmul::multiplied(f, *y, *v, *s),
    ensures
        r.same(s),
{
    let k = w.shape@[1] as int;
    let n = w.shape@[0] as int;
    let m = x.data@.len() as int / k;
    assert forall|p: int| 0 <= p < r.data@.len() implies #[trigger] r.data@[p] == s.data@[p] by {
        assert(n > 0) by (nonlinear_arith)
            requires
                0 <= p < m * n,
                n >= 0,
        ;
        let i = p / n;
        let j = p % n;
        assert(0 <= i < m && 0 <= j < n && p == i * n + j) by (nonlinear_arith)
            requires
                0 <= p < m * n,
                0 < n,
                i == p / n,
                j == p % n,
        ;
        let (a, b) = (matmul::flat_row(x.data@, i, k), matmul::flat_row(w.data@, j, k));
        assert(matmul::row_product(f, m, n, a, b, r.data@[i * n + j]));
        assert(matmul::row_product(f, m, n, a, b, s.data@[i * n + j]));
        if m == 1 {
            fixed::lemma_one_sum(f, a, b, matvec::row_tree(n, a.len() as int), r.data@[p], s.data@[p]);
        }
    }
    assert(r.data@ =~= s.data@);
}

/// What a combination of a tensor of single precision with another holds, by elements, at an
/// index of what it may be stretched to.
pub proof fn lemma_combined_with<F: Fpu>(
    f: &F,
    op: BinaryOp,
    l: Tensor,
    r: Tensor,
    mode: GradMode,
    t: Tensor,
    rs: &NdArray<u32>,
    wide: Seq<usize>,
    index: Seq<usize>,
)
    requires
        fpu::fixed_answers(f),
        arithmetic::combined(f, op, l, r, mode, t),
        l.storage is F32,
        autograd::reads_as(f, r.storage, *rs),
        dims::compatible(l.spec_shape(), r.spec_shape()),
        dims::stretches_to(t.spec_shape(), wide),
        dims::valid_index(wide, index),
    ensures
        t.storage is F32,
        arithmetic::applies(f, op, element(l, index), rs.at(dims::narrowed_index(rs.shape@, index)), element(t, index)),
{
    let dtype = t.spec_dtype();
    let (a, b, c) = choose|a: NdArray<u32>, b: NdArray<u32>, c: NdArray<u32>|
        autograd::reads_as(f, l.storage, a) && autograd::reads_as(f, r.storage, b) && #[trigger] arithmetic::zipped(f, op, a, b, c)
            && autograd::stored_as(f, c, dtype, t.storage);
    fixed::lemma_one_reading(f, r.storage, &b, rs);
    let own = dims::narrowed_index(t.spec_shape(), index);
    dims::lemma_narrowed_index(t.spec_shape(), wide, index);
    dims::lemma_broadcast_stretches(l.spec_shape(), r.spec_shape());
    lemma_narrowed_twice(l.spec_shape(), t.spec_shape(), index);
    lemma_narrowed_twice(r.spec_shape(), t.spec_shape(), index);
    assert(arithmetic::applies(
        f,
        op,
        a.at(dims::narrowed_index(a.shape@, own)),
        b.at(dims::narrowed_index(b.shape@, own)),
        c.at(own),
    ));
}

/// Narrowing an index in two steps is narrowing it at once.
pub proof fn lemma_narrowed_twice(small: Seq<usize>, mid: Seq<usize>, index: Seq<usize>)
    requires
        dims::stretches_to(small, mid),
        mid.len() <= index.len(),
    ensures
        dims::narrowed_index(small, dims::narrowed_index(mid, index)) == dims::narrowed_index(small, index),
{
    let twice = dims::narrowed_index(small, dims::narrowed_index(mid, index));
    assert forall|i: int| 0 <= i < small.len() implies #[trigger] twice[i] == dims::narrowed_index(small, index)[i] by {
        assert(small[i] == 1 || small[i] == mid[i + (mid.len() - small.len())]);
    }
    assert(twice =~= dims::narrowed_index(small, index));
}

/// What a combination of tensors of single precision holds, by elements.
pub proof fn lemma_combined_element<F: Fpu>(
    f: &F,
    op: BinaryOp,
    l: Tensor,
    r: Tensor,
    mode: GradMode,
    t: Tensor,
    wide: Seq<usize>,
    index: Seq<usize>,
)
    requires
        fpu::fixed_answers(f),
        arithmetic::combined(f, op, l, r, mode, t),
        l.storage is F32,
        r.storage is F32,
        r.wf(),
        dims::compatible(l.spec_shape(), r.spec_shape()),
        dims::stretches_to(t.spec_shape(), wide),
        dims::valid_index(wide, index),
    ensures
        t.storage is F32,
        arithmetic::applies(f, op, element(l, index), element(r, index), element(t, index)),
{
    let rs = *r.storage->F32_0;
    assert(autograd::reads_as(f, r.storage, rs));
    lemma_combined_with(f, op, l, r, mode, t, &rs, wide, index);
}

/// What a function of a tensor of single precision holds, by elements.
pub proof fn lemma_activated_element<F: Fpu>(
    f: &F,
    kind: Activation,
    input: Tensor,
    mode: GradMode,
    t: Tensor,
    wide: Seq<usize>,
    index: Seq<usize>,
)
    requires
        activation::activated(f, kind, input, mode, t),
        input.storage is F32,
        input.wf(),
        dims::stretches_to(t.spec_shape(), wide),
        dims::valid_index(wide, index),
    ensures
        t.storage is F32,
        activation::activates(f, kind, element(input, index), element(t, index)),
{
    let dtype = t.spec_dtype();
    let (a, b) = choose|a: NdArray<u32>, b: NdArray<u32>|
        autograd::reads_as(f, input.storage, a) && #[trigger] activation::all_activated(f, kind, a, b) && autograd::stored_as(
            f,
            b,
            dtype,
            t.storage,
        );
    let own = dims::narrowed_index(t.spec_shape(), index);
    let p = dims::ravel(t.spec_shape(), own);
    dims::lemma_narrowed_index(t.spec_shape(), wide, index);
    dims::lemma_ravel_bound(t.spec_shape(), own);
    assert(activation::activates(f, kind, a.data@[p], b.data@[p]));
}

/// Extents stretch to themselves.
pub proof fn lemma_own_stretches(shape: Seq<usize>)
    ensures
        dims::stretches_to(shape, shape),
{
}

/// What stretches to extents that stretch further, stretches as far.
pub proof fn lemma_stretches_on(small: Seq<usize>, mid: Seq<usize>, wide: Seq<usize>)
    requires
        dims::stretches_to(small, mid),
        dims::stretches_to(mid, wide),
    ensures
        dims::stretches_to(small, wide),
{
    assert forall|i: int| 0 <= i < small.len() implies #[trigger] small[i] == 1 || small[i] == wide[i + (wide.len()
        - small.len())] by {
        let k = i + (mid.len() - small.len());
        assert(small[i] == 1 || small[i] == mid[k]);
        assert(mid[k] == 1 || mid[k] == wide[k + (wide.len() - mid.len())]);
    }
}

/// Sums, differences and products of tensors are those of the numbers at corresponding
/// places, rounded; a number on an axis of extent one stands for all places along it.
pub proof fn law_tensors_combine_in_numbers<F: Fpu>(
    f: &F,
    rd: spec_fn(int, int) -> int,
    op: BinaryOp,
    l: Tensor,
    r: Tensor,
    mode: GradMode,
    t: Tensor,
    index: Seq<usize>,
)
    requires
        rounding::rounds_by(f, rd),
        fpu::fixed_answers(f),
        arithmetic::combined(f, op, l, r, mode, t),
        l.storage is F32,
        r.storage is F32,
        r.wf(),
        dims::compatible(l.spec_shape(), r.spec_shape()),
        dims::valid_index(t.spec_shape(), index),
    ensures
        t.storage is F32,
        match op {
            BinaryOp::Add => rounding::is_sum(rd, element(l, index), element(r, index), element(t, index)),
            BinaryOp::Sub => rounding::is_difference(rd, element(l, index), element(r, index), element(t, index)),
            BinaryOp::Mul => rounding::is_product(rd, element(l, index), element(r, index), element(t, index)),
        },
{
    lemma_own_stretches(t.spec_shape());
    lemma_combined_element(f, op, l, r, mode, t, t.spec_shape(), index);
}

/// A byte stands for its number of steps, and reads as that.
pub proof fn law_bytes_read_in_steps<F: Fpu>(
    f: &F,
    rd: spec_fn(int, int) -> int,
    s: TensorStorage,
    a: NdArray<u32>,
    i: int,
) -> (v: u32)
    requires
        rounding::rounds_by(f, rd),
        autograd::reads_as(f, s, a),
        s is I8,
        0 <= i < a.data@.len(),
    ensures
        fpu::bytes_as(f, s->I8_0.data@[i], v),
        rounding::is_product(rd, v, s->I8_1, a.data@[i]),
{
    assert(autograd::byte_reads_as(f, s->I8_0.data@[i], s->I8_1, a.data@[i]));
    choose|v: u32| fpu::bytes_as(f, s->I8_0.data@[i], v) && #[trigger] fpu::muls(f, v, s->I8_1, a.data@[i])
}

/// A number is held as the byte nearest to its quotient by the step, where the step is above
/// zero: the processor's rounding of the quotient.
pub proof fn law_bytes_hold_quotients<F: Fpu>(
    f: &F,
    rd: spec_fn(int, int) -> int,
    a: NdArray<u32>,
    s: TensorStorage,
    i: int,
) -> (u: u32)
    requires
        rounding::rounds_by(f, rd),
        autograd::stored_as(f, a, DType::I8, s),
        0 <= i < a.data@.len(),
    ensures
        s is I8,
        fpu::steps_by(f, a.data@, s->I8_1),
        rounding::is_quotient(rd, a.data@[i], s->I8_1, u),
        fpu::rounds_to(f, u, s->I8_0.data@[i]),
{
    assert(autograd::byte_stores(f, a.data@[i], s->I8_1, s->I8_0.data@[i]));
    choose|u: u32| fpu::divs(f, a.data@[i], s->I8_1, u) && #[trigger] fpu::rounds_to(f, u, s->I8_0.data@[i])
}

} // verus!
