use crate::array::NdArray;
use crate::autograd;
use crate::autograd::{GradMode, Tensor, TensorStorage};
use crate::fixed;
use crate::fpu;
use crate::fpu::Fpu;
use crate::ops::mat;
use crate::ops::matmul;
use crate::ops::matmul::{BatchMatmulBackward, Layout};
use crate::ops::windows;
use std::sync::Arc;
use vstd::prelude::*;

verus! {

/// Row `i` of a matrix in an array of matrices.
pub open spec fn row_in(x: NdArray<u32>, b: usize, h: usize, i: usize) -> Seq<u32> {
    Seq::new(x.shape@[3] as nat, |k: int| x.at(seq![b, h, i, k as usize]))
}

/// Column `j` of a matrix in an array of matrices.
pub open spec fn col_in(x: NdArray<u32>, b: usize, h: usize, j: usize) -> Seq<u32> {
    Seq::new(x.shape@[2] as nat, |k: int| x.at(seq![b, h, k as usize, j]))
}

/// Rows and columns of one of many matrices.
proof fn lemma_rows_and_columns(x: &NdArray<u32>, b: usize, h: usize, i: usize, j: usize)
    requires
        x.wf(),
        x.shape@.len() == 4,
        b < x.shape@[0],
        h < x.shape@[1],
        i < x.shape@[2],
        j < x.shape@[3],
    ensures
        ({
            let q = b * x.shape@[1] + h;
            let part = matmul::flat_row(x.data@, q, x.shape@[2] * x.shape@[3]);
            &&& matmul::flat_row(part, i as int, x.shape@[3] as int) == row_in(*x, b, h, i)
            &&& matmul::flat_col(part, j as int, x.shape@[2] as int, x.shape@[3] as int) == col_in(*x, b, h, j)
        }),
{
    let q = b * x.shape@[1] + h;
    let (rows, cols) = (x.shape@[2] as int, x.shape@[3] as int);
    let part = matmul::flat_row(x.data@, q, rows * cols);
    windows::lemma_plane_cell(x, q, b, h, i, j);
    mat::lemma_row_major(i as int, 0, rows, cols);
    lemma_part_inside(x, q, b, h);
    assert forall|k: int| 0 <= k < cols implies #[trigger] matmul::flat_row(part, i as int, cols)[k] == row_in(*x, b, h, i)[k] by {
        windows::lemma_plane_cell(x, q, b, h, i, k as usize);
    }
    assert(matmul::flat_row(part, i as int, cols) =~= row_in(*x, b, h, i));
    assert forall|k: int| 0 <= k < rows implies #[trigger] matmul::flat_col(part, j as int, rows, cols)[k] == col_in(
        *x,
        b,
        h,
        j,
    )[k] by {
        windows::lemma_plane_cell(x, q, b, h, k as usize, j);
    }
    assert(matmul::flat_col(part, j as int, rows, cols) =~= col_in(*x, b, h, j));
}

/// One of many matrices lies inside.
proof fn lemma_part_inside(x: &NdArray<u32>, q: int, b: usize, h: usize)
    requires
        x.wf(),
        x.shape@.len() == 4,
        b < x.shape@[0],
        h < x.shape@[1],
        q == b * x.shape@[1] + h,
    ensures
        0 <= q < x.shape@[0] * x.shape@[1],
        0 <= q * (x.shape@[2] * x.shape@[3]),
        q * (x.shape@[2] * x.shape@[3]) + x.shape@[2] * x.shape@[3] <= x.data@.len(),
{
    let (n, m) = (x.shape@[0] * x.shape@[1], x.shape@[2] * x.shape@[3]);
    mat::lemma_row_major(b as int, h as int, x.shape@[0] as int, x.shape@[1] as int);
    matmul::lemma_product4(x.shape@);
    assert(0 <= m) by (nonlinear_arith)
        requires
            m == x.shape@[2] * x.shape@[3],
    ;
    assert(0 <= q * m && q * m + m <= n * m) by (nonlinear_arith)
        requires
            0 <= q < n,
            0 <= m,
    ;
}

/// An element of the product of two of many matrices.
proof fn lemma_block_element<F: Fpu>(
    f: &F,
    count: int,
    la: Layout,
    a: Seq<u32>,
    lb: Layout,
    b: Seq<u32>,
    c: Seq<u32>,
    q: int,
    i: int,
    j: int,
)
    requires
        matmul::batch_product(f, count, la, a, lb, b, c),
        0 <= q < count,
        0 <= i < la.used_rows(),
        0 <= j < lb.used_cols(),
    ensures
        fpu::dots(
            f,
            la.used_row(matmul::flat_row(a, q, la.size()), i),
            lb.used_col(matmul::flat_row(b, q, lb.size()), j),
            matmul::flat_row(c, q, la.used_rows() * lb.used_cols())[i * lb.used_cols() + j],
        ),
{
    assert(matmul::block_product(
        f,
        la,
        matmul::flat_row(a, q, la.size()),
        lb,
        matmul::flat_row(b, q, lb.size()),
        matmul::flat_row(c, q, la.used_rows() * lb.used_cols()),
    ));
}

/// Many matrices are multiplied one by one: the element at row `i` and column `j` of one of
/// the products is that of row `i` and column `j` of the matrices at the same place.
pub proof fn law_matrices_multiply_one_by_one<F: Fpu>(
    f: &F,
    lhs: Tensor,
    rhs: Tensor,
    mode: GradMode,
    t: Tensor,
    x: NdArray<u32>,
    y: NdArray<u32>,
    b: usize,
    h: usize,
    i: usize,
    j: usize,
)
    requires
        fpu::fixed_answers(f),
        lhs.spec_shape().len() == 4,
        rhs.spec_shape().len() == 4,
        lhs.spec_shape()[0] == rhs.spec_shape()[0],
        lhs.spec_shape()[1] == rhs.spec_shape()[1],
        lhs.spec_shape()[3] == rhs.spec_shape()[2],
        0 < lhs.spec_shape()[3],
        matmul::batch_matmul_result(f, lhs, rhs, mode, t),
        autograd::reads_as(f, lhs.storage, x),
        autograd::reads_as(f, rhs.storage, y),
        b < lhs.spec_shape()[0],
        h < lhs.spec_shape()[1],
        i < lhs.spec_shape()[2],
        j < rhs.spec_shape()[3],
    ensures
        t.storage is F32,
        fpu::dots(f, row_in(x, b, h, i), col_in(y, b, h, j), t.storage->F32_0.at(seq![b, h, i, j])),
{
    let (p, q, z) = choose|x: NdArray<u32>, y: NdArray<u32>, z: NdArray<u32>|
        autograd::reads_as(f, lhs.storage, x) && autograd::reads_as(f, rhs.storage, y) && #[trigger] matmul::batch_multiplied(
            f,
            x,
            y,
            z,
        ) && t.storage == TensorStorage::F32(Arc::new(z));
    fixed::lemma_one_reading(f, lhs.storage, &p, &x);
    fixed::lemma_one_reading(f, rhs.storage, &q, &y);
    let k = b * x.shape@[1] + h;
    lemma_part_inside(&x, k, b, h);
    lemma_rows_and_columns(&x, b, h, i, 0);
    lemma_rows_and_columns(&y, b, h, 0, j);
    windows::lemma_plane_cell(&z, k, b, h, i, j);
    lemma_block_element(
        f,
        x.shape@[0] * x.shape@[1],
        matmul::trailing(x.shape@, false),
        x.data@,
        matmul::trailing(y.shape@, false),
        y.data@,
        z.data@,
        k,
        i as int,
        j as int,
    );
}

/// The gradients of many products: the left operand receives at row `i` and column `k` the
/// product of row `i` of the gradient with row `k` of the right operand; the right operand
/// receives at row `k` and column `j` the product of column `k` of the left operand with
/// column `j` of the gradient.
pub proof fn law_many_products_send_products<F: Fpu>(
    f: &F,
    back: BatchMatmulBackward,
    g: NdArray<u32>,
    p: int,
    r: NdArray<u32>,
    b: usize,
    h: usize,
    i: usize,
    k: usize,
    j: usize,
)
    requires
        g.wf(),
        back.suits(g.shape@, seq![back.lhs.shape@, back.rhs.shape@]),
        back.sends(f, g, p, r),
        back.lhs.shape@.len() == 4,
        back.rhs.shape@.len() == 4,
        back.lhs.shape@[0] == back.rhs.shape@[0],
        back.lhs.shape@[1] == back.rhs.shape@[1],
        back.lhs.shape@[3] == back.rhs.shape@[2],
        g.shape@ == seq![back.lhs.shape@[0], back.lhs.shape@[1], back.lhs.shape@[2], back.rhs.shape@[3]],
        b < back.lhs.shape@[0],
        h < back.lhs.shape@[1],
        i < back.lhs.shape@[2],
        k < back.lhs.shape@[3],
        j < back.rhs.shape@[3],
    ensures
        p == 0 ==> fpu::dots(f, row_in(g, b, h, i), row_in(*back.rhs, b, h, k), r.at(seq![b, h, i, k])),
        p != 0 ==> fpu::dots(f, col_in(*back.lhs, b, h, k), col_in(g, b, h, j), r.at(seq![b, h, k, j])),
{
    let l = back.lhs.shape@;
    let q = b * l[1] + h;
    lemma_part_inside(&*back.lhs, q, b, h);
    lemma_rows_and_columns(&g, b, h, i, j);
    lemma_rows_and_columns(&*back.lhs, b, h, i, k);
    lemma_rows_and_columns(&*back.rhs, b, h, k, j);
    if p == 0 {
        windows::lemma_plane_cell(&r, q, b, h, i, k);
        lemma_block_element(
            f,
            l[0] * l[1],
            matmul::trailing(g.shape@, false),
            g.data@,
            matmul::trailing(back.rhs.shape@, true),
            back.rhs.data@,
            r.data@,
            q,
            i as int,
            k as int,
        );
    } else {
        windows::lemma_plane_cell(&r, q, b, h, k, j);
        lemma_block_element(
            f,
            l[0] * l[1],
            matmul::trailing(l, true),
            back.lhs.data@,
            matmul::trailing(g.shape@, false),
            g.data@,
            r.data@,
            q,
            k as int,
            j as int,
        );
    }
}

} // verus!
