use crate::array;
use crate::array::NdArray;
use crate::autograd;
use crate::autograd::{is_no_grad, BackwardOp, GradMode, Tensor, TensorStorage};
use crate::dims;
use crate::dims::{broadcast_extents, element_count, narrow_index, ravel_index, unravel_index};
use crate::fpu;
use crate::fpu::{negate, Fpu};
use crate::precision::DType;
use std::sync::Arc;
use vstd::prelude::*;

verus! {

/// The elementwise operations of two operands.
#[derive(Clone, Copy, Debug, PartialEq, Eq, Structural)]
pub enum BinaryOp {
    Add,
    Sub,
    Mul,
}

/// `z` is a result of the operation on two values.
pub open spec fn applies<F: Fpu>(f: &F, op: BinaryOp, x: u32, y: u32, z: u32) -> bool {
    match op {
        BinaryOp::Add => fpu::adds(f, x, y, z),
        BinaryOp::Sub => fpu::subs(f, x, y, z),
        BinaryOp::Mul => fpu::muls(f, x, y, z),
    }
}

fn apply_binary<F: Fpu>(f: &F, op: BinaryOp, x: u32, y: u32) -> (z: u32)
    ensures
        applies(f, op, x, y, z),
{
    match op {
        BinaryOp::Add => f.add(x, y),
        BinaryOp::Sub => f.sub(x, y),
        BinaryOp::Mul => f.mul(x, y),
    }
}

/// Each element of `r` is a result of the operation on the elements of `a` and `b`
/// that its index stands for.
pub open spec fn zipped<F: Fpu>(f: &F, op: BinaryOp, a: NdArray<u32>, b: NdArray<u32>, r: NdArray<u32>) -> bool {
    &&& r.wf()
    &&& r.shape@ == dims::broadcast_shape(a.shape@, b.shape@)
    &&& forall|index: Seq<usize>| dims::valid_index(r.shape@, index) ==> applies(
        f,
        op,
        a.at(dims::narrowed_index(a.shape@, index)),
        b.at(dims::narrowed_index(b.shape@, index)),
        #[trigger] r.at(index),
    )
}

/// The operation on corresponding elements, with extents of one stretched.
pub fn apply_binary_views<F: Fpu>(lhs: &NdArray<u32>, rhs: &NdArray<u32>, op: BinaryOp, f: &F) -> (r: NdArray<u32>)
    requires
        lhs.wf(),
        rhs.wf(),
        dims::compatible(lhs.shape@, rhs.shape@),
        dims::fits(dims::broadcast_shape(lhs.shape@, rhs.shape@)),
    ensures
        zipped(f, op, *lhs, *rhs, r),
{
    let shape: Vec<usize> = match broadcast_extents(&lhs.shape, &rhs.shape) {
        Some(shape) => shape,
        None => Vec::new(),
    };
    let n: usize = element_count(&shape);
    proof {
        dims::lemma_broadcast_stretches(lhs.shape@, rhs.shape@);
    }
    let mut data: Vec<u32> = Vec::with_capacity(n);
    for k in 0..n
        invariant
            lhs.wf(),
            rhs.wf(),
            n == dims::product(shape@),
            dims::stretches_to(lhs.shape@, shape@),
            dims::stretches_to(rhs.shape@, shape@),
            data@.len() == k,
            forall|j: int| 0 <= j < k ==> applies(
                f,
                op,
                lhs.at(dims::narrowed_index(lhs.shape@, dims::unravel(shape@, j))),
                rhs.at(dims::narrowed_index(rhs.shape@, dims::unravel(shape@, j))),
                #[trigger] data@[j],
            ),
    {
        let index: Vec<usize> = unravel_index(&shape, k);
        let li: Vec<usize> = narrow_index(&lhs.shape, &index);
        let ri: Vec<usize> = narrow_index(&rhs.shape, &index);
        proof {
            dims::lemma_narrowed_index(lhs.shape@, shape@, index@);
            dims::lemma_narrowed_index(rhs.shape@, shape@, index@);
            dims::lemma_product_bounded_by_volume(lhs.shape@);
            dims::lemma_product_bounded_by_volume(rhs.shape@);
        }
        let x: u32 = lhs.data[ravel_index(&lhs.shape, &li)];
        let y: u32 = rhs.data[ravel_index(&rhs.shape, &ri)];
        data.push(apply_binary(f, op, x, y));
    }
    let r = NdArray { shape, data };
    proof {
        assert forall|index: Seq<usize>| dims::valid_index(r.shape@, index) implies applies(
            f,
            op,
            lhs.at(dims::narrowed_index(lhs.shape@, index)),
            rhs.at(dims::narrowed_index(rhs.shape@, index)),
            #[trigger] r.at(index),
        ) by {
            dims::lemma_ravel_bound(r.shape@, index);
            dims::lemma_unravel_ravel(r.shape@, index);
            assert(r.data@[dims::ravel(r.shape@, index)] == r.at(index));
        }
    }
    r
}

/// The elements of `a` along an axis, at the coordinates `rest` on the others.
pub open spec fn lane(a: NdArray<u32>, axis: int, rest: Seq<usize>) -> Seq<u32> {
    Seq::new(a.shape@[axis] as nat, |c: int| a.at(rest.insert(axis, c as usize)))
}

/// `r` holds the sums over an axis of `a`.
pub open spec fn axis_summed<F: Fpu>(f: &F, a: NdArray<u32>, axis: int, r: NdArray<u32>) -> bool {
    &&& r.wf()
    &&& r.shape@ == a.shape@.remove(axis)
    &&& forall|rest: Seq<usize>| dims::valid_index(r.shape@, rest) ==> fpu::sums(f, lane(a, axis, rest), #[trigger] r.at(rest))
}

/// Sums over an axis.
pub fn sum_axis<F: Fpu>(a: &NdArray<u32>, axis: usize, f: &F) -> (r: NdArray<u32>)
    requires
        a.wf(),
        axis < a.shape@.len(),
    ensures
        axis_summed(f, *a, axis as int, r),
{
    let ghost ax = axis as int;
    let len: usize = a.shape[axis];
    let mut shape: Vec<usize> = a.shape.clone();
    let removed: usize = shape.remove(axis);
    proof {
        lemma_without_axis_fits(a.shape@, ax);
        dims::lemma_product_bounded_by_volume(a.shape@);
    }
    let n: usize = element_count(&shape);
    let mut data: Vec<u32> = Vec::with_capacity(n);
    for k in 0..n
        invariant
            ax == axis,
            a.wf(),
            dims::product(a.shape@) <= usize::MAX,
            0 <= ax < a.shape@.len(),
            len == a.shape@[ax],
            shape@ == a.shape@.remove(ax),
            n == dims::product(shape@),
            data@.len() == k,
            forall|j: int| 0 <= j < k ==> fpu::sums(f, lane(*a, ax, dims::unravel(shape@, j)), #[trigger] data@[j]),
    {
        let rest: Vec<usize> = unravel_index(&shape, k);
        let mut values: Vec<u32> = Vec::with_capacity(len);
        for c in 0..len
            invariant
                ax == axis,
                a.wf(),
                dims::product(a.shape@) <= usize::MAX,
                0 <= ax < a.shape@.len(),
                len == a.shape@[ax],
                shape@ == a.shape@.remove(ax),
                dims::valid_index(shape@, rest@),
                values@ == lane(*a, ax, rest@).take(c as int),
        {
            let mut index: Vec<usize> = rest.clone();
            index.insert(axis, c);
            proof {
                assert forall|i: int| 0 <= i < a.shape@.len() implies #[trigger] index@[i] < a.shape@[i] by {
                    if i < ax {
                        assert(rest@[i] < shape@[i]);
                    } else if i > ax {
                        assert(rest@[i - 1] < shape@[i - 1]);
                    }
                }
                dims::lemma_ravel_bound(a.shape@, index@);
            }
            values.push(a.data[ravel_index(&a.shape, &index)]);
            assert(values@ =~= lane(*a, ax, rest@).take(c + 1));
        }
        assert(values@ =~= lane(*a, ax, rest@));
        data.push(f.sum(values.as_slice()));
    }
    let r = NdArray { shape, data };
    proof {
        assert forall|rest: Seq<usize>| dims::valid_index(r.shape@, rest) implies fpu::sums(
            f,
            lane(*a, ax, rest),
            #[trigger] r.at(rest),
        ) by {
            dims::lemma_ravel_bound(r.shape@, rest);
            dims::lemma_unravel_ravel(r.shape@, rest);
            assert(r.data@[dims::ravel(r.shape@, rest)] == r.at(rest));
        }
    }
    r
}

/// Dropping an axis keeps the extents fitting.
proof fn lemma_without_axis_fits(shape: Seq<usize>, axis: int)
    requires
        0 <= axis < shape.len(),
        dims::fits(shape),
    ensures
        dims::fits(shape.remove(axis)),
{
    let full = dims::nonzero_extents(shape);
    assert(dims::nonzero_extents(shape.remove(axis)) =~= full.remove(axis));
    dims::lemma_product_remove(full, axis);
    let p = dims::product(full.remove(axis)) as int;
    let d = full[axis] as int;
    assert(p <= p * d) by (nonlinear_arith)
        requires
            p >= 0,
            d >= 1,
    ;
}

/// `r` is `g` with its leading `n` axes summed over, one after the other.
pub open spec fn leading_summed<F: Fpu>(f: &F, g: NdArray<u32>, n: int, r: NdArray<u32>) -> bool
    decreases n,
{
    if n <= 0 {
        r.same(&g)
    } else {
        exists|m: NdArray<u32>| leading_summed(f, g, n - 1, m) && #[trigger] axis_summed(f, m, 0, r)
    }
}

/// `r` is `m` with an axis summed over and kept with extent one, where the target
/// asks for that.
pub open spec fn axis_collapsed<F: Fpu>(f: &F, m: NdArray<u32>, target: Seq<usize>, axis: int, r: NdArray<u32>) -> bool {
    if target[axis] == 1 && m.shape@[axis] > 1 {
        exists|s: NdArray<u32>| #[trigger] axis_summed(f, m, axis, s) && array::is_reshaped(&s, s.shape@.insert(axis, 1), &r)
    } else {
        r.same(&m)
    }
}

/// The leading `n` axes of `h`, collapsed one after the other.
pub open spec fn axes_collapsed<F: Fpu>(f: &F, h: NdArray<u32>, target: Seq<usize>, n: int, r: NdArray<u32>) -> bool
    decreases n,
{
    if n <= 0 {
        r.same(&h)
    } else {
        exists|m: NdArray<u32>| axes_collapsed(f, h, target, n - 1, m) && #[trigger] axis_collapsed(f, m, target, n - 1, r)
    }
}

/// `r` is the gradient `g` of a stretched operand, summed over what was stretched.
pub open spec fn reduced<F: Fpu>(f: &F, g: NdArray<u32>, target: Seq<usize>, r: NdArray<u32>) -> bool {
    &&& r.wf()
    &&& r.shape@ == target
    &&& exists|h: NdArray<u32>| #[trigger] leading_summed(f, g, g.shape@.len() - target.len(), h) && axes_collapsed(
        f,
        h,
        target,
        target.len() as int,
        r,
    )
}

/// An extra axis of extent one changes neither the product nor whether it fits.
proof fn lemma_unit_axis(shape: Seq<usize>, axis: int)
    requires
        0 <= axis <= shape.len(),
    ensures
        dims::product(shape.insert(axis, 1)) == dims::product(shape),
        dims::volume(shape.insert(axis, 1)) == dims::volume(shape),
{
    let wide = shape.insert(axis, 1);
    assert(wide.remove(axis) =~= shape);
    dims::lemma_product_remove(wide, axis);
    let full = dims::nonzero_extents(wide);
    assert(full.remove(axis) =~= dims::nonzero_extents(shape));
    assert(full[axis] == 1);
    dims::lemma_product_remove(full, axis);
}

/// Sums a gradient over the axes along which an operand was stretched.
pub fn reduce_gradient<F: Fpu>(grad: &NdArray<u32>, target: &Vec<usize>, f: &F) -> (r: NdArray<u32>)
    requires
        grad.wf(),
        dims::collapses_to(grad.shape@, target@),
    ensures
        reduced(f, *grad, target@, r),
{
    let extra: usize = grad.shape.len() - target.len();
    let mut res: NdArray<u32> = grad.copy();
    for i in 0..extra
        invariant
            extra == grad.shape@.len() - target@.len(),
            res.wf(),
            leading_summed(f, *grad, i as int, res),
            res.shape@ == grad.shape@.skip(i as int),
    {
        let next = sum_axis(&res, 0, f);
        proof {
            assert(axis_summed(f, res, 0, next));
            assert(next.shape@ =~= grad.shape@.skip(i + 1));
        }
        res = next;
    }
    let ghost head = res;
    for i in 0..target.len()
        invariant
            dims::collapses_to(grad.shape@, target@),
            head.shape@ == grad.shape@.skip(grad.shape@.len() - target@.len()),
            res.wf(),
            res.shape@.len() == target@.len(),
            axes_collapsed(f, head, target@, i as int, res),
            forall|j: int| 0 <= j < i ==> #[trigger] res.shape@[j] == target@[j],
            forall|j: int| i <= j < target@.len() ==> #[trigger] res.shape@[j] == head.shape@[j],
    {
        assert(target@[i as int] == grad.shape@[i + (grad.shape@.len() - target@.len())] || target@[i as int] == 1);
        assert(head.shape@[i as int] == grad.shape@[i + (grad.shape@.len() - target@.len())]);
        assert(res.shape@[i as int] == head.shape@[i as int]);
        if target[i] == 1 && res.shape[i] > 1 {
            let summed = sum_axis(&res, i, f);
            let mut shape: Vec<usize> = summed.shape.clone();
            shape.insert(i, 1);
            proof {
                lemma_unit_axis(summed.shape@, i as int);
            }
            let next = summed.reshaped(shape);
            proof {
                assert(axis_summed(f, res, i as int, summed));
                assert(axis_collapsed(f, res, target@, (i + 1) - 1, next));
                assert(axes_collapsed(f, head, target@, i + 1, next));
                assert forall|j: int| 0 <= j < i + 1 implies #[trigger] next.shape@[j] == target@[j] by {
                    if j < i {
                        assert(res.shape@[j] == target@[j]);
                    }
                }
                assert forall|j: int| i + 1 <= j < target@.len() implies #[trigger] next.shape@[j] == head.shape@[j] by {
                    assert(res.shape@[j] == head.shape@[j]);
                }
            }
            res = next;
        } else {
            assert(axis_collapsed(f, res, target@, (i + 1) - 1, res));
            assert(axes_collapsed(f, head, target@, i + 1, res));
        }
    }
    assert(res.shape@ =~= target@);
    assert(leading_summed(f, *grad, grad.shape@.len() - target@.len(), head));
    res
}

/// Sends the gradient of a sum to both operands.
pub struct AddBackward {
    pub l_shape: Vec<usize>,
    pub r_shape: Vec<usize>,
}

impl AddBackward {
    pub open spec fn suits(&self, out: Seq<usize>, operands: Seq<Seq<usize>>) -> bool {
        &&& operands == seq![self.l_shape@, self.r_shape@]
        &&& dims::collapses_to(out, self.l_shape@)
        &&& dims::collapses_to(out, self.r_shape@)
    }

    pub open spec fn sends<F: Fpu>(&self, f: &F, g: NdArray<u32>, p: int, r: NdArray<u32>) -> bool {
        if p == 0 {
            reduced(f, g, self.l_shape@, r)
        } else {
            reduced(f, g, self.r_shape@, r)
        }
    }

    pub fn gradients<F: Fpu>(&self, g: &NdArray<u32>, f: &F) -> (r: (NdArray<u32>, NdArray<u32>))
        requires
            g.wf(),
            self.suits(g.shape@, seq![self.l_shape@, self.r_shape@]),
        ensures
            self.sends(f, *g, 0, r.0),
            self.sends(f, *g, 1, r.1),
    {
        (reduce_gradient(g, &self.l_shape, f), reduce_gradient(g, &self.r_shape, f))
    }
}

/// `r` is `g` with every sign turned.
pub open spec fn all_negated(g: NdArray<u32>, r: NdArray<u32>) -> bool {
    &&& r.wf()
    &&& r.shape@ == g.shape@
    &&& forall|i: int| 0 <= i < g.data@.len() ==> #[trigger] r.data@[i] == fpu::negated(g.data@[i])
}

fn negate_all(g: &NdArray<u32>) -> (r: NdArray<u32>)
    requires
        g.wf(),
    ensures
        all_negated(*g, r),
{
    let mut data: Vec<u32> = Vec::with_capacity(g.data.len());
    for i in 0..g.data.len()
        invariant
            data@.len() == i,
            forall|j: int| 0 <= j < i ==> #[trigger] data@[j] == fpu::negated(g.data@[j]),
    {
        data.push(negate(g.data[i]));
    }
    NdArray { shape: g.shape.clone(), data }
}

/// Sends the gradient of a difference to both operands, with its sign turned to
/// the second.
pub struct SubBackward {
    pub l_shape: Vec<usize>,
    pub r_shape: Vec<usize>,
}

impl SubBackward {
    pub open spec fn suits(&self, out: Seq<usize>, operands: Seq<Seq<usize>>) -> bool {
        &&& operands == seq![self.l_shape@, self.r_shape@]
        &&& dims::collapses_to(out, self.l_shape@)
        &&& dims::collapses_to(out, self.r_shape@)
    }

    pub open spec fn sends<F: Fpu>(&self, f: &F, g: NdArray<u32>, p: int, r: NdArray<u32>) -> bool {
        if p == 0 {
            reduced(f, g, self.l_shape@, r)
        } else {
            exists|n: NdArray<u32>| #[trigger] all_negated(g, n) && reduced(f, n, self.r_shape@, r)
        }
    }

    pub fn gradients<F: Fpu>(&self, g: &NdArray<u32>, f: &F) -> (r: (NdArray<u32>, NdArray<u32>))
        requires
            g.wf(),
            self.suits(g.shape@, seq![self.l_shape@, self.r_shape@]),
        ensures
            self.sends(f, *g, 0, r.0),
            self.sends(f, *g, 1, r.1),
    {
        let turned = negate_all(g);
        let l = reduce_gradient(g, &self.l_shape, f);
        let r = reduce_gradient(&turned, &self.r_shape, f);
        (l, r)
    }
}

/// Sends the gradient of a product, times the other factor, to both operands.
pub struct MulBackward {
    pub lhs: Arc<NdArray<u32>>,
    pub rhs: Arc<NdArray<u32>>,
}

impl MulBackward {
    pub open spec fn suits(&self, out: Seq<usize>, operands: Seq<Seq<usize>>) -> bool {
        &&& self.lhs.wf()
        &&& self.rhs.wf()
        &&& operands == seq![self.lhs.shape@, self.rhs.shape@]
        &&& dims::fits(out)
        &&& dims::collapses_to(out, self.lhs.shape@)
        &&& dims::collapses_to(out, self.rhs.shape@)
    }

    pub open spec fn sends<F: Fpu>(&self, f: &F, g: NdArray<u32>, p: int, r: NdArray<u32>) -> bool {
        if p == 0 {
            exists|m: NdArray<u32>| #[trigger] zipped(f, BinaryOp::Mul, g, *self.rhs, m) && reduced(f, m, self.lhs.shape@, r)
        } else {
            exists|m: NdArray<u32>| #[trigger] zipped(f, BinaryOp::Mul, g, *self.lhs, m) && reduced(f, m, self.rhs.shape@, r)
        }
    }

    pub fn gradients<F: Fpu>(&self, g: &NdArray<u32>, f: &F) -> (r: (NdArray<u32>, NdArray<u32>))
        requires
            g.wf(),
            self.suits(g.shape@, seq![self.lhs.shape@, self.rhs.shape@]),
        ensures
            self.sends(f, *g, 0, r.0),
            self.sends(f, *g, 1, r.1),
    {
        proof {
            lemma_collapsing_is_compatible(g.shape@, self.lhs.shape@);
            lemma_collapsing_is_compatible(g.shape@, self.rhs.shape@);
        }
        let to_lhs = apply_binary_views(g, &self.rhs, BinaryOp::Mul, f);
        let to_rhs = apply_binary_views(g, &self.lhs, BinaryOp::Mul, f);
        let l = reduce_gradient(&to_lhs, &self.lhs.shape, f);
        let r = reduce_gradient(&to_rhs, &self.rhs.shape, f);
        (l, r)
    }
}

/// Stretching an operand to the extents of a gradient that collapses to it gives
/// back those of the gradient.
pub proof fn lemma_collapsing_is_compatible(wide: Seq<usize>, narrow: Seq<usize>)
    requires
        dims::collapses_to(wide, narrow),
    ensures
        dims::compatible(wide, narrow),
        dims::broadcast_shape(wide, narrow) == wide,
{
    let n = wide.len() as int;
    assert forall|i: int| 0 <= i < n implies #[trigger] dims::aligned(wide, n, i) == dims::aligned(narrow, n, i)
        || dims::aligned(wide, n, i) == 1 || dims::aligned(narrow, n, i) == 1 by {
        let j = i - (n - narrow.len());
        if j >= 0 {
            assert(narrow[j] == wide[j + (wide.len() - narrow.len())] || narrow[j] == 1);
        }
    }
    assert(dims::broadcast_shape(wide, narrow) =~= wide) by {
        assert forall|i: int| 0 <= i < n implies dims::broadcast_shape(wide, narrow)[i] == wide[i] by {
            let j = i - (n - narrow.len());
            if j >= 0 {
                assert(narrow[j] == wide[j + (wide.len() - narrow.len())] || narrow[j] == 1);
            }
        }
    }
}

/// The precision of a result that is not recorded: that of the operands, where they
/// have one in common.
pub open spec fn common_dtype(l: Tensor, r: Tensor) -> DType {
    if l.spec_dtype() == r.spec_dtype() {
        l.spec_dtype()
    } else {
        DType::F32
    }
}

/// `t` is the operation on two tensors, computed in single precision and held in
/// their common precision.
pub open spec fn computed<F: Fpu>(f: &F, op: BinaryOp, l: Tensor, r: Tensor, dtype: DType, s: TensorStorage) -> bool {
    exists|a: NdArray<u32>, b: NdArray<u32>, c: NdArray<u32>|
        autograd::reads_as(f, l.storage, a) && autograd::reads_as(f, r.storage, b) && #[trigger] zipped(f, op, a, b, c)
            && autograd::stored_as(f, c, dtype, s)
}

/// The operands can be combined.
pub open spec fn combinable(l: Tensor, r: Tensor) -> bool {
    &&& l.wf()
    &&& r.wf()
    &&& dims::compatible(l.spec_shape(), r.spec_shape())
    &&& dims::fits(dims::broadcast_shape(l.spec_shape(), r.spec_shape()))
}

fn binary_no_grad<F: Fpu>(lhs: &Tensor, rhs: &Tensor, op: BinaryOp, f: &F) -> (t: Tensor)
    requires
        combinable(*lhs, *rhs),
    ensures
        t.wf(),
        t.is_leaf(t.storage, false),
        computed(f, op, *lhs, *rhs, common_dtype(*lhs, *rhs), t.storage),
{
    let dtype: DType = if lhs.dtype() == rhs.dtype() { lhs.dtype() } else { DType::F32 };
    let a = lhs.data_arc(f);
    let b = rhs.data_arc(f);
    let c = Arc::new(apply_binary_views(&a, &b, op, f));
    let t = Tensor::from_single_no_grad(f, c, dtype);
    assert(zipped(f, op, *a, *b, *c));
    t
}

/// What every elementwise operation does: it keeps the common precision where
/// nothing is recorded, and is a single-precision result otherwise.
pub open spec fn combined<F: Fpu>(f: &F, op: BinaryOp, l: Tensor, r: Tensor, mode: GradMode, t: Tensor) -> bool {
    &&& t.wf()
    &&& t.spec_shape() == dims::broadcast_shape(l.spec_shape(), r.spec_shape())
    &&& t.grad is None
    &&& if mode.no_grad() || !(l.requires_grad || r.requires_grad) {
        t.is_leaf(t.storage, false) && computed(f, op, l, r, common_dtype(l, r), t.storage)
    } else {
        t.requires_grad && computed(f, op, l, r, DType::F32, t.storage)
    }
}

/// Extents that can be combined, with a record that sends gradients back.
pub open spec fn shapes_combine(a: Seq<usize>, b: Seq<usize>) -> bool {
    let wide = dims::broadcast_shape(a, b);
    &&& dims::compatible(a, b)
    &&& dims::fits(wide)
    &&& dims::collapses_to(wide, a)
    &&& dims::collapses_to(wide, b)
}

/// The elementwise sum.
pub fn add_tensors<F: Fpu>(lhs: &Tensor, rhs: &Tensor, mode: &GradMode, f: &F) -> (t: Tensor)
    requires
        combinable(*lhs, *rhs),
    ensures
        combined(f, BinaryOp::Add, *lhs, *rhs, *mode, t),
        !mode.no_grad() && (lhs.requires_grad || rhs.requires_grad) ==> (t.op matches Some(op)
            && *op matches BackwardOp::Add(back) && back.l_shape@ == lhs.spec_shape() && back.r_shape@ == rhs.spec_shape()),
{
    if is_no_grad(mode) || !(lhs.requires_grad() || rhs.requires_grad()) {
        return binary_no_grad(lhs, rhs, BinaryOp::Add, f);
    }
    let a = lhs.data_arc(f);
    let b = rhs.data_arc(f);
    let c = apply_binary_views(&a, &b, BinaryOp::Add, f);
    assert(zipped(f, BinaryOp::Add, *a, *b, c));
    let l_shape: Vec<usize> = lhs.shape_vec();
    let r_shape: Vec<usize> = rhs.shape_vec();
    Tensor::recorded(c, BackwardOp::Add(AddBackward { l_shape, r_shape }))
}

/// The elementwise difference.
pub fn sub_tensors<F: Fpu>(lhs: &Tensor, rhs: &Tensor, mode: &GradMode, f: &F) -> (t: Tensor)
    requires
        combinable(*lhs, *rhs),
    ensures
        combined(f, BinaryOp::Sub, *lhs, *rhs, *mode, t),
        !mode.no_grad() && (lhs.requires_grad || rhs.requires_grad) ==> (t.op matches Some(op)
            && *op matches BackwardOp::Sub(back) && back.l_shape@ == lhs.spec_shape() && back.r_shape@ == rhs.spec_shape()),
{
    if is_no_grad(mode) || !(lhs.requires_grad() || rhs.requires_grad()) {
        return binary_no_grad(lhs, rhs, BinaryOp::Sub, f);
    }
    let a = lhs.data_arc(f);
    let b = rhs.data_arc(f);
    let c = apply_binary_views(&a, &b, BinaryOp::Sub, f);
    assert(zipped(f, BinaryOp::Sub, *a, *b, c));
    let l_shape: Vec<usize> = lhs.shape_vec();
    let r_shape: Vec<usize> = rhs.shape_vec();
    Tensor::recorded(c, BackwardOp::Sub(SubBackward { l_shape, r_shape }))
}

/// The elementwise product.
pub fn mul_tensors<F: Fpu>(lhs: &Tensor, rhs: &Tensor, mode: &GradMode, f: &F) -> (t: Tensor)
    requires
        combinable(*lhs, *rhs),
    ensures
        combined(f, BinaryOp::Mul, *lhs, *rhs, *mode, t),
        !mode.no_grad() && (lhs.requires_grad || rhs.requires_grad) ==> (t.op matches Some(op)
            && *op matches BackwardOp::Mul(back) && autograd::reads_as(f, lhs.storage, *back.lhs) && autograd::reads_as(
            f,
            rhs.storage,
            *back.rhs,
        )),
{
    if is_no_grad(mode) || !(lhs.requires_grad() || rhs.requires_grad()) {
        return binary_no_grad(lhs, rhs, BinaryOp::Mul, f);
    }
    let a = lhs.data_arc(f);
    let b = rhs.data_arc(f);
    let c = apply_binary_views(&a, &b, BinaryOp::Mul, f);
    assert(zipped(f, BinaryOp::Mul, *a, *b, c));
    Tensor::recorded(c, BackwardOp::Mul(MulBackward { lhs: a, rhs: b }))
}

/// Spreads the gradient of a sum over all elements.
pub struct SumBackward {
    pub shape: Vec<usize>,
}

impl SumBackward {
    pub open spec fn suits(&self, out: Seq<usize>, operands: Seq<Seq<usize>>) -> bool {
        &&& operands == seq![self.shape@]
        &&& out == Seq::<usize>::empty()
        &&& dims::fits(self.shape@)
    }

    pub open spec fn sends(&self, g: NdArray<u32>, r: NdArray<u32>) -> bool {
        &&& r.wf()
        &&& r.shape@ == self.shape@
        &&& forall|i: int| 0 <= i < r.data@.len() ==> #[trigger] r.data@[i] == g.data@[0]
    }

    pub fn gradient(&self, g: &NdArray<u32>) -> (r: NdArray<u32>)
        requires
            g.wf(),
            self.suits(g.shape@, seq![self.shape@]),
        ensures
            self.sends(*g, r),
    {
        NdArray::filled(self.shape.clone(), g.data[0])
    }
}

/// The sum of all elements, recorded if it is to be differentiated.
pub open spec fn sum_result<F: Fpu>(f: &F, input: Tensor, mode: GradMode, t: Tensor) -> bool {
    &&& t.wf()
    &&& t.grad is None
    &&& t.storage matches TensorStorage::F32(b) && b.shape@.len() == 0 && total_of(f, input.storage, b.data@[0])
    &&& if mode.no_grad() || !input.requires_grad {
        t.is_leaf(t.storage, false)
    } else {
        &&& t.requires_grad
        &&& t.op matches Some(op) && *op matches BackwardOp::Sum(back) && back.suits(
            Seq::empty(),
            seq![input.spec_shape()],
        )
    }
}

/// `r` is the sum of what is stored, in single precision.
pub open spec fn total_of<F: Fpu>(f: &F, s: TensorStorage, r: u32) -> bool {
    exists|a: NdArray<u32>| #[trigger] autograd::reads_as(f, s, a) && fpu::sums(f, a.data@, r)
}

/// The sum of all elements, in single precision and without axes.
pub fn sum<F: Fpu>(input: &Tensor, mode: &GradMode, f: &F) -> (t: Tensor)
    requires
        input.wf(),
    ensures
        sum_result(f, *input, *mode, t),
{
    let data = input.data_arc(f);
    let total: u32 = f.sum(data.data.as_slice());
    let values: Vec<u32> = vec![total];
    let scalar = NdArray { shape: Vec::new(), data: values };
    proof {
        assert(scalar.shape@ =~= Seq::<usize>::empty());
        assert(dims::nonzero_extents(scalar.shape@) =~= Seq::<usize>::empty());
    }
    if is_no_grad(mode) || !input.requires_grad() {
        return Tensor::from_array_no_grad(scalar);
    }
    let shape: Vec<usize> = input.shape_vec();
    assert(seq![input.spec_shape()] =~= seq![shape@]);
    Tensor::recorded(scalar, BackwardOp::Sum(SumBackward { shape }))
}

} // verus!
