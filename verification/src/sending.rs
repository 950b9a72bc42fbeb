use crate::array::NdArray;
use crate::autograd;
use crate::dims;
use crate::fpu;
use crate::fpu::Fpu;
use crate::graph;
use crate::graph::Node;
use crate::layers::basic::embedding;
use crate::layers::basic::embedding::EmbeddingBackward;
use crate::layers::portions;
use crate::ops::arithmetic;
use crate::ops::arithmetic::{AddBackward, BinaryOp, MulBackward, SubBackward};
use crate::ops::matmul;
use crate::ops::matmul::MatmulBackward;
use crate::ops::rows;
use crate::ops::scatter;
use crate::rounding;
use vstd::prelude::*;

verus! {

/// A gradient that arrives at a node is added to the one that is there, element by element;
/// the first one is taken as it is.
pub proof fn law_gradients_add_up<F: Fpu>(
    f: &F,
    rd: spec_fn(int, int) -> int,
    before: Seq<Node>,
    id: int,
    g: NdArray<u32>,
    after: Seq<Node>,
    i: int,
)
    requires
        rounding::rounds_by(f, rd),
        0 <= id < before.len(),
        graph::contributed(f, before, id, g, after),
        before[id].tensor.grad matches Some(b) ==> b.wf() && b.shape@ == g.shape@,
        g.wf(),
        0 <= i < g.data@.len(),
    ensures
        after[id].tensor.grad is Some,
        match before[id].tensor.grad {
            None => after[id].tensor.grad->0.data@[i] == g.data@[i],
            Some(b) => rounding::is_sum(rd, b.data@[i], g.data@[i], after[id].tensor.grad->0.data@[i]),
        },
{
    if let Some(b) = before[id].tensor.grad {
        let r = after[id].tensor.grad->0;
        assert(autograd::summed(f, *b, g, *r));
    }
}

/// The gradient of a product of matrices `a` and the rows of `b`: the left operand receives at
/// row `i` and column `j` the product of row `i` of the gradient with column `j` of `b`; the
/// right operand receives at row `i` and column `j` the product of column `i` of the gradient
/// with column `j` of `a`.
pub proof fn law_products_send_products<F: Fpu>(
    f: &F,
    back: MatmulBackward,
    g: NdArray<u32>,
    p: int,
    r: NdArray<u32>,
    i: int,
    j: int,
)
    requires
        back.sends(f, g, p, r),
        0 <= j < back.b.shape@[1],
        0 <= i < (if p == 0 {
            back.a.data@.len() as int / back.b.shape@[1] as int
        } else {
            back.b.shape@[0] as int
        }),
    ensures
        ({
            let (n, k) = (back.b.shape@[0] as int, back.b.shape@[1] as int);
            let m = back.a.data@.len() as int / k;
            if p == 0 {
                fpu::dots(
                    f,
                    g.data@.subrange(i * n, i * n + n),
                    Seq::new(n as nat, |c: int| back.b.data@[c * k + j]),
                    r.data@[i * k + j],
                )
            } else {
                fpu::dots(
                    f,
                    Seq::new(m as nat, |c: int| g.data@[c * n + i]),
                    Seq::new(m as nat, |c: int| back.a.data@[c * k + j]),
                    r.data@[i * k + j],
                )
            }
        }),
{
    let (n, k) = (back.b.shape@[0] as int, back.b.shape@[1] as int);
    let m = back.a.data@.len() as int / k;
    if p == 0 {
        assert(matmul::flat_col(back.b.data@, j, n, k) =~= Seq::new(n as nat, |c: int| back.b.data@[c * k + j]));
        assert(fpu::dots(
            f,
            matmul::flat_row(g.data@, i, n),
            matmul::flat_col(back.b.data@, j, n, k),
            r.data@[i * k + j],
        ));
    } else {
        assert(matmul::flat_col(g.data@, i, m, n) =~= Seq::new(m as nat, |c: int| g.data@[c * n + i]));
        assert(matmul::flat_col(back.a.data@, j, m, k) =~= Seq::new(m as nat, |c: int| back.a.data@[c * k + j]));
        assert(fpu::dots(
            f,
            matmul::flat_col(g.data@, i, m, n),
            matmul::flat_col(back.a.data@, j, m, k),
            r.data@[i * k + j],
        ));
    }
}

/// Element `t` of the gradient of a lookup belongs to a cell of the table: to that of the row
/// whose token stands at its place, in its own column.
pub open spec fn belongs(back: EmbeddingBackward, t: int, row: int, col: int) -> bool {
    back.ids@[t / back.embed_dim as int] == row && t % (back.embed_dim as int) == col
}

/// The elements of a gradient that belong to a cell of the table, in order, from the first `n`.
pub open spec fn belonging(back: EmbeddingBackward, g: Seq<u32>, n: int, row: int, col: int) -> Seq<u32>
    decreases n,
{
    if n <= 0 {
        Seq::empty()
    } else if belongs(back, n - 1, row, col) {
        belonging(back, g, n - 1, row, col).push(g[n - 1])
    } else {
        belonging(back, g, n - 1, row, col)
    }
}

proof fn lemma_belonging(back: EmbeddingBackward, g: Seq<u32>, n: int, row: int, col: int)
    requires
        0 < back.embed_dim,
        0 <= col < back.embed_dim,
        0 <= row,
        row * back.embed_dim + col <= usize::MAX,
        0 <= n <= back.ids@.len() * back.embed_dim,
        forall|k: int| 0 <= k < back.ids@.len() ==> (#[trigger] back.ids@[k] + 1) * back.embed_dim <= usize::MAX,
    ensures
        scatter::hits(
            embedding::row_targets(back.ids@, back.embed_dim as int),
            g,
            n,
            row * back.embed_dim + col,
        ) == belonging(back, g, n, row, col),
    decreases n,
{
    if n > 0 {
        lemma_belonging(back, g, n - 1, row, col);
        let dim = back.embed_dim as int;
        let targets = embedding::row_targets(back.ids@, dim);
        let t = n - 1;
        assert(0 <= t / dim < back.ids@.len() && 0 <= t % dim < dim) by (nonlinear_arith)
            requires
                0 <= t < back.ids@.len() * dim,
                dim > 0,
        ;
        let (a, b) = (back.ids@[t / dim] as int, t % dim);
        assert(0 <= a * dim + b < (a + 1) * dim) by (nonlinear_arith)
            requires
                0 <= b < dim,
                0 <= a,
        ;
        assert(targets[t] == a * dim + b);
        assert((a * dim + b == row * dim + col) <==> (a == row && b == col)) by (nonlinear_arith)
            requires
                0 <= b < dim,
                0 <= col < dim,
        ;
    }
}

/// A cell of the table receives the sum of the gradients of all places at which its row was
/// looked up, in order. The partial sums are the result.
pub proof fn law_rows_receive_their_uses<F: Fpu>(
    f: &F,
    rd: spec_fn(int, int) -> int,
    back: EmbeddingBackward,
    g: NdArray<u32>,
    r: NdArray<u32>,
    row: int,
    col: int,
) -> (sums: Seq<u32>)
    requires
        rounding::rounds_by(f, rd),
        back.sends(f, g, r),
        g.data@.len() == back.ids@.len() * back.embed_dim,
        0 <= row < back.vocab_size,
        0 <= col < back.embed_dim,
        forall|k: int| 0 <= k < back.ids@.len() ==> #[trigger] back.ids@[k] < back.vocab_size,
        r.data@.len() == back.vocab_size * back.embed_dim,
        back.vocab_size * back.embed_dim <= usize::MAX,
    ensures
        rounding::partial_sums(rd, belonging(back, g.data@, g.data@.len() as int, row, col), sums),
        sums.last() == r.data@[row * back.embed_dim + col],
{
    let dim = back.embed_dim as int;
    let cell = row * dim + col;
    assert(0 <= cell < back.vocab_size * dim) by (nonlinear_arith)
        requires
            0 <= row < back.vocab_size,
            0 <= col < dim,
            cell == row * dim + col,
    ;
    assert forall|k: int| 0 <= k < back.ids@.len() implies (#[trigger] back.ids@[k] + 1) * back.embed_dim <= usize::MAX by {
        let a = back.ids@[k] as int;
        assert((a + 1) * dim <= back.vocab_size * dim) by (nonlinear_arith)
            requires
                a + 1 <= back.vocab_size,
                dim >= 0,
        ;
    }
    lemma_belonging(back, g.data@, g.data@.len() as int, row, col);
    let targets = embedding::row_targets(back.ids@, dim);
    let hits = scatter::hits(targets, g.data@, targets.len() as int, cell);
    assert(rows::left_sum(f, fpu::ZERO, hits, r.data@[cell]));
    portions::lemma_partial_sums(f, rd, hits, r.data@[cell])
}

/// Nothing is collapsed where the extents are already those that are asked for.
proof fn lemma_nothing_collapses<F: Fpu>(f: &F, h: &NdArray<u32>, target: Seq<usize>, n: int, r: &NdArray<u32>)
    requires
        h.shape@ == target,
        0 <= n <= target.len(),
        arithmetic::axes_collapsed(f, *h, target, n, *r),
    ensures
        r.same(h),
    decreases n,
{
    if n > 0 {
        let m = choose|m: NdArray<u32>|
            arithmetic::axes_collapsed(f, *h, target, n - 1, m) && #[trigger] arithmetic::axis_collapsed(f, m, target, n - 1, *r);
        lemma_nothing_collapses(f, h, target, n - 1, &m);
    }
}

/// A summand that was stretched over a leading axis receives the sum of the gradients along
/// this axis; one that was not stretched receives the gradient as it is.
pub proof fn law_stretched_operands_receive_sums<F: Fpu>(
    f: &F,
    back: AddBackward,
    g: NdArray<u32>,
    r: NdArray<u32>,
    rest: Seq<usize>,
)
    requires
        g.wf(),
        back.sends(f, g, 1, r),
        g.shape@.len() == back.r_shape@.len() + 1,
        g.shape@.remove(0) == back.r_shape@,
        dims::valid_index(back.r_shape@, rest),
    ensures
        r.shape@ == back.r_shape@,
        fpu::sums(f, Seq::new(g.shape@[0] as nat, |c: int| g.at(seq![c as usize] + rest)), r.at(rest)),
{
    let target = back.r_shape@;
    let h = choose|h: NdArray<u32>| #[trigger]
        arithmetic::leading_summed(f, g, g.shape@.len() - target.len(), h) && arithmetic::axes_collapsed(
            f,
            h,
            target,
            target.len() as int,
            r,
        );
    let m = choose|m: NdArray<u32>| arithmetic::leading_summed(f, g, 0, m) && #[trigger] arithmetic::axis_summed(f, m, 0, h);
    assert(m.same(&g));
    lemma_nothing_collapses(f, &h, target, target.len() as int, &r);
    let lane = arithmetic::lane(m, 0, rest);
    let along = Seq::new(g.shape@[0] as nat, |c: int| g.at(seq![c as usize] + rest));
    assert forall|c: int| 0 <= c < along.len() implies #[trigger] lane[c] == along[c] by {
        assert(rest.insert(0, c as usize) =~= seq![c as usize] + rest);
    }
    assert(lane =~= along);
    assert(fpu::sums(f, lane, h.at(rest)));
}

/// The same for one that was not stretched.
pub proof fn law_whole_operands_receive_the_gradient<F: Fpu>(f: &F, back: AddBackward, g: NdArray<u32>, r: NdArray<u32>)
    requires
        g.wf(),
        back.sends(f, g, 0, r),
        g.shape@ == back.l_shape@,
    ensures
        r.same(&g),
{
    let target = back.l_shape@;
    let h = choose|h: NdArray<u32>| #[trigger]
        arithmetic::leading_summed(f, g, g.shape@.len() - target.len(), h) && arithmetic::axes_collapsed(
            f,
            h,
            target,
            target.len() as int,
            r,
        );
    lemma_nothing_collapses(f, &h, target, target.len() as int, &r);
}

/// Each factor of a product of tensors with the same extents receives the gradient times the
/// other factor, element by element.
pub proof fn law_factors_receive_each_other<F: Fpu>(
    f: &F,
    rd: spec_fn(int, int) -> int,
    back: MulBackward,
    g: NdArray<u32>,
    p: int,
    r: NdArray<u32>,
    index: Seq<usize>,
)
    requires
        rounding::rounds_by(f, rd),
        back.sends(f, g, p, r),
        g.shape@ == back.lhs.shape@,
        g.shape@ == back.rhs.shape@,
        dims::valid_index(g.shape@, index),
    ensures
        r.shape@ == g.shape@,
        p == 0 ==> rounding::is_product(rd, g.at(index), back.rhs.at(index), r.at(index)),
        p != 0 ==> rounding::is_product(rd, g.at(index), back.lhs.at(index), r.at(index)),
{
    if p == 0 {
        lemma_factor(f, rd, &g, &*back.rhs, &r, index);
    } else {
        lemma_factor(f, rd, &g, &*back.lhs, &r, index);
    }
}

/// A gradient times a factor, of the same extents.
proof fn lemma_factor<F: Fpu>(
    f: &F,
    rd: spec_fn(int, int) -> int,
    g: &NdArray<u32>,
    other: &NdArray<u32>,
    r: &NdArray<u32>,
    index: Seq<usize>,
)
    requires
        rounding::rounds_by(f, rd),
        exists|m: NdArray<u32>| #[trigger]
            arithmetic::zipped(f, BinaryOp::Mul, *g, *other, m) && arithmetic::reduced(f, m, g.shape@, *r),
        g.shape@ == other.shape@,
        dims::valid_index(g.shape@, index),
    ensures
        r.shape@ == g.shape@,
        rounding::is_product(rd, g.at(index), other.at(index), r.at(index)),
{
    let shape = g.shape@;
    let m = choose|m: NdArray<u32>| #[trigger]
        arithmetic::zipped(f, BinaryOp::Mul, *g, *other, m) && arithmetic::reduced(f, m, shape, *r);
    assert(dims::broadcast_shape(shape, shape) =~= shape);
    let h = choose|h: NdArray<u32>| #[trigger]
        arithmetic::leading_summed(f, m, m.shape@.len() - shape.len(), h) && arithmetic::axes_collapsed(
            f,
            h,
            shape,
            shape.len() as int,
            *r,
        );
    lemma_nothing_collapses(f, &h, shape, shape.len() as int, r);
    assert forall|i: int| 0 <= i < shape.len() implies #[trigger] dims::narrowed_index(shape, index)[i] == index[i] by {
        assert(index[i] < shape[i]);
    }
    assert(dims::narrowed_index(shape, index) =~= index);
    assert(arithmetic::applies(f, BinaryOp::Mul, g.at(index), other.at(index), m.at(index)));
}

/// What is taken off a tensor of the same extents receives the gradient with the other sign.
pub proof fn law_subtrahends_receive_the_opposite<F: Fpu>(f: &F, back: SubBackward, g: NdArray<u32>, r: NdArray<u32>, i: int)
    requires
        g.wf(),
        back.sends(f, g, 1, r),
        g.shape@ == back.r_shape@,
        0 <= i < g.data@.len(),
    ensures
        r.shape@ == g.shape@,
        rounding::value(r.data@[i]) == -rounding::value(g.data@[i]),
{
    let shape = g.shape@;
    let n = choose|n: NdArray<u32>| #[trigger] arithmetic::all_negated(g, n) && arithmetic::reduced(f, n, shape, r);
    let h = choose|h: NdArray<u32>| #[trigger]
        arithmetic::leading_summed(f, n, n.shape@.len() - shape.len(), h) && arithmetic::axes_collapsed(
            f,
            h,
            shape,
            shape.len() as int,
            r,
        );
    lemma_nothing_collapses(f, &h, shape, shape.len() as int, &r);
    let b = rounding::lemma_negated(g.data@[i]);
    assert(n.data@[i] == fpu::negated(g.data@[i]));
}

} // verus!
