use crate::array::NdArray;
use crate::autograd;
use crate::autograd::{is_no_grad, BackwardOp, GradMode, Tensor, TensorStorage};
use crate::dims;
use crate::fpu;
use crate::fpu::Fpu;
use crate::ops::mat;
use crate::ops::mat::{mat_mul, Mat};
use crate::ops::matvec;
use std::sync::Arc;
use vstd::prelude::*;

pub use crate::ops::matvec::{
    dual_matvec_rowmajor_parallel, dual_matvec_silu_mul_rowmajor_parallel, matvec_argmax_rowmajor_parallel,
    matvec_rowmajor_parallel, MatvecError,
};

verus! {

/// Why two tensors cannot be multiplied.
#[derive(Clone, Copy, Debug, PartialEq, Eq, Structural)]
pub enum MatmulError {
    RhsNotMatrix,
    InnerMismatch,
}

/// What is wrong with the extents of a product `a[.., K] * b[N, K]^T`.
pub open spec fn matmul_error(a: Seq<usize>, b: Seq<usize>) -> Option<MatmulError> {
    if b.len() != 2 {
        Some(MatmulError::RhsNotMatrix)
    } else if a.last() != b[1] {
        Some(MatmulError::InnerMismatch)
    } else {
        None
    }
}

/// Extents of the product.
pub open spec fn matmul_shape(a: Seq<usize>, b: Seq<usize>) -> Seq<usize> {
    a.update(a.len() - 1, b[0])
}

/// Row `i` of the elements, read as a matrix with `k` columns; or one out of a list of
/// equal parts of `k` elements.
pub open spec fn flat_row(data: Seq<u32>, i: int, k: int) -> Seq<u32> {
    data.subrange(i * k, i * k + k)
}

/// Each element of `r` is the product of a row of `a` with a row of `b`: for a single
/// row of `a` by the library's own summation, otherwise by the processor's.
pub open spec fn multiplied<F: Fpu>(f: &F, a: NdArray<u32>, b: NdArray<u32>, r: NdArray<u32>) -> bool {
    let k = b.shape@[1] as int;
    let n = b.shape@[0] as int;
    let m = a.data@.len() as int / k;
    &&& r.wf()
    &&& r.shape@ == matmul_shape(a.shape@, b.shape@)
    &&& r.data@.len() == m * n
    &&& forall|i: int, j: int|
        0 <= i < m && 0 <= j < n ==> row_product(f, m, n, flat_row(a.data@, i, k), flat_row(b.data@, j, k), #[trigger] r.data@[i
            * n + j])
}

/// The product of a row with one of `n` rows; there are `m` of the first kind.
pub open spec fn row_product<F: Fpu>(f: &F, m: int, n: int, x: Seq<u32>, row: Seq<u32>, r: u32) -> bool {
    if m == 1 {
        matvec::row_sum(f, n, x, row, r)
    } else {
        fpu::dots(f, x, row, r)
    }
}

/// The last extent divides the number of elements.
proof fn lemma_last_divides(shape: Seq<usize>, n: usize)
    requires
        shape.len() > 0,
        shape.last() > 0,
    ensures
        dims::product(shape) == dims::product(shape.drop_last()) * shape.last(),
        dims::product(shape) as int / (shape.last() as int) == dims::product(shape.drop_last()),
        dims::product(shape.update(shape.len() - 1, n)) == dims::product(shape.drop_last()) * n,
{
    let p = dims::product(shape.drop_last()) as int;
    let k = shape.last() as int;
    assert((p * k) / k == p) by (nonlinear_arith)
        requires
            k > 0,
    ;
    assert(shape.update(shape.len() - 1, n).drop_last() =~= shape.drop_last());
}

/// Rows and columns of dense matrices, as parts of the list.
pub proof fn lemma_dense_row(m: Mat, offset: int, i: int)
    requires
        m.wf(),
        0 <= i < m.rows,
        forall|p: int, q: int| #[trigger] m.position(p, q) == offset + p * m.cols + q,
        offset >= 0,
        offset + m.rows * m.cols <= m.data@.len(),
    ensures
        m.row(i) == m.data@.subrange(offset + i * m.cols, offset + i * m.cols + m.cols),
{
    if m.cols > 0 {
        mat::lemma_row_major(i, 0, m.rows as int, m.cols as int);
    } else {
        assert(i * m.cols == 0) by (nonlinear_arith)
            requires
                m.cols == 0,
        ;
    }
    assert(m.row(i) =~= m.data@.subrange(offset + i * m.cols, offset + i * m.cols + m.cols)) by {
        assert forall|j: int| 0 <= j < m.cols implies m.row(i)[j] == m.data@.subrange(
            offset + i * m.cols,
            offset + i * m.cols + m.cols,
        )[j] by {
            assert(m.position(i, j) == offset + i * m.cols + j);
        }
    }
}

/// A column of the transposed matrix is a row of the matrix.
pub proof fn lemma_transposed(m: Mat, t: Mat, j: int)
    requires
        t.rows == m.cols,
        t.cols == m.rows,
        t.data == m.data,
        forall|p: int, q: int| #[trigger] t.position(p, q) == m.position(q, p),
    ensures
        t.col(j) == m.row(j),
        t.row(j) == m.col(j),
{
    assert(t.col(j) =~= m.row(j)) by {
        assert forall|p: int| 0 <= p < m.cols implies t.col(j)[p] == m.row(j)[p] by {
            assert(t.position(p, j) == m.position(j, p));
        }
    }
    assert(t.row(j) =~= m.col(j)) by {
        assert forall|p: int| 0 <= p < m.rows implies t.row(j)[p] == m.col(j)[p] by {
            assert(t.position(j, p) == m.position(p, j));
        }
    }
}

/// The elements of the product, in row-major order.
fn multiply<F: Fpu>(a: &NdArray<u32>, b: &NdArray<u32>, f: &F) -> (r: NdArray<u32>)
    requires
        a.wf(),
        b.wf(),
        a.shape@.len() > 0,
        a.shape@.last() > 0,
        matmul_error(a.shape@, b.shape@) is None,
        dims::fits(matmul_shape(a.shape@, b.shape@)),
    ensures
        multiplied(f, *a, *b, r),
{
    let k: usize = b.shape[1];
    let n: usize = b.shape[0];
    let m: usize = a.data.len() / k;
    let mut shape: Vec<usize> = a.shape.clone();
    let last: usize = shape.len() - 1;
    shape.set(last, n);
    proof {
        lemma_last_divides(a.shape@, n);
        assert(b.data@.len() == n * k) by {
            reveal_with_fuel(dims::product, 3);
            assert(b.shape@ =~= seq![n, k]);
            assert(b.shape@.drop_last() =~= seq![n]);
            assert(b.shape@.drop_last().drop_last() =~= Seq::<usize>::empty());
        }
        dims::lemma_product_bounded_by_volume(shape@);
        assert(dims::product(shape@) == m * n);
        assert(m * k == a.data@.len());
    }
    if m == 1 {
        proof {
            assert(m * k == k && m * n == n && 0 * k == 0) by (nonlinear_arith)
                requires
                    m == 1,
            ;
        }
        let mut out: Vec<u32> = vec![fpu::ZERO; n];
        let _ = matvec_rowmajor_parallel(a.data.as_slice(), b.data.as_slice(), n, k, &mut out, f);
        let r = NdArray { shape, data: out };
        proof {
            assert(flat_row(a.data@, 0, k as int) =~= a.data@);
            assert forall|i: int, j: int| 0 <= i < m && 0 <= j < n implies row_product(
                f,
                m as int,
                n as int,
                flat_row(a.data@, i, k as int),
                flat_row(b.data@, j, k as int),
                #[trigger] r.data@[i * n + j],
            ) by {
                assert(i == 0);
                assert(0 * n == 0) by (nonlinear_arith);
                assert(r.data@[j] == r.data@[i * n + j]);
                assert(matvec::row_of(b.data@, j, k as int) == flat_row(b.data@, j, k as int));
            }
        }
        r
    } else {
        let am = Mat::dense(&a.data, 0, m, k);
        let bm = Mat::dense(&b.data, 0, n, k);
        let bt = bm.t();
        let out: Vec<u32> = mat_mul(&am, &bt, f);
        let r = NdArray { shape, data: out };
        proof {
            assert forall|i: int, j: int| 0 <= i < m && 0 <= j < n implies row_product(
                f,
                m as int,
                n as int,
                flat_row(a.data@, i, k as int),
                flat_row(b.data@, j, k as int),
                #[trigger] r.data@[i * n + j],
            ) by {
                lemma_dense_row(am, 0, i);
                lemma_dense_row(bm, 0, j);
                lemma_transposed(bm, bt, j);
                assert(fpu::dots(f, am.row(i), bt.col(j), out@[i * bt.cols + j]));
            }
        }
        r
    }
}

/// The operands of a recorded product.
pub struct MatmulBackward {
    pub a: Arc<NdArray<u32>>,
    pub b: Arc<NdArray<u32>>,
}

/// Column `j` of the elements, read as a matrix with `rows` rows and `cols` columns.
pub open spec fn flat_col(data: Seq<u32>, j: int, rows: int, cols: int) -> Seq<u32> {
    Seq::new(rows as nat, |i: int| data[i * cols + j])
}

impl MatmulBackward {
    pub open spec fn suits(&self, out: Seq<usize>, operands: Seq<Seq<usize>>) -> bool {
        &&& self.a.wf()
        &&& self.b.wf()
        &&& operands == seq![self.a.shape@, self.b.shape@]
        &&& self.a.shape@.len() > 0
        &&& self.a.shape@.last() > 0
        &&& matmul_error(self.a.shape@, self.b.shape@) is None
        &&& out == matmul_shape(self.a.shape@, self.b.shape@)
    }

    /// The left operand receives `g * b`, the right one `g^T * a`.
    pub open spec fn sends<F: Fpu>(&self, f: &F, g: NdArray<u32>, p: int, r: NdArray<u32>) -> bool {
        let k = self.b.shape@[1] as int;
        let n = self.b.shape@[0] as int;
        let m = self.a.data@.len() as int / k;
        &&& r.wf()
        &&& if p == 0 {
            &&& r.shape@ == self.a.shape@
            &&& forall|i: int, j: int|
                0 <= i < m && 0 <= j < k ==> fpu::dots(
                    f,
                    flat_row(g.data@, i, n),
                    flat_col(self.b.data@, j, n, k),
                    #[trigger] r.data@[i * k + j],
                )
        } else {
            &&& r.shape@ == self.b.shape@
            &&& forall|i: int, j: int|
                0 <= i < n && 0 <= j < k ==> fpu::dots(
                    f,
                    flat_col(g.data@, i, m, n),
                    flat_col(self.a.data@, j, m, k),
                    #[trigger] r.data@[i * k + j],
                )
        }
    }

    pub fn gradients<F: Fpu>(&self, g: &NdArray<u32>, f: &F) -> (r: (NdArray<u32>, NdArray<u32>))
        requires
            g.wf(),
            self.suits(g.shape@, seq![self.a.shape@, self.b.shape@]),
        ensures
            self.sends(f, *g, 0, r.0),
            self.sends(f, *g, 1, r.1),
    {
        let k: usize = self.b.shape[1];
        let n: usize = self.b.shape[0];
        let m: usize = self.a.data.len() / k;
        proof {
            lemma_last_divides(self.a.shape@, n);
            assert(self.b.data@.len() == n * k) by {
                reveal_with_fuel(dims::product, 3);
                assert(self.b.shape@ =~= seq![n, k]);
                assert(self.b.shape@.drop_last() =~= seq![n]);
                assert(self.b.shape@.drop_last().drop_last() =~= Seq::<usize>::empty());
            }
        }
        let gm = Mat::dense(&g.data, 0, m, n);
        let am = Mat::dense(&self.a.data, 0, m, k);
        let bm = Mat::dense(&self.b.data, 0, n, k);
        let gt = gm.t();
        let da: Vec<u32> = mat_mul(&gm, &bm, f);
        let db: Vec<u32> = mat_mul(&gt, &am, f);
        proof {
            assert forall|i: int, j: int| 0 <= i < m && 0 <= j < k implies fpu::dots(
                f,
                flat_row(g.data@, i, n as int),
                flat_col(self.b.data@, j, n as int, k as int),
                #[trigger] da@[i * k + j],
            ) by {
                lemma_dense_row(gm, 0, i);
                assert(bm.col(j) =~= flat_col(self.b.data@, j, n as int, k as int)) by {
                    assert forall|p: int| 0 <= p < n implies bm.col(j)[p] == self.b.data@[p * k + j] by {
                        assert(bm.position(p, j) == 0 + p * k + j);
                    }
                }
                assert(fpu::dots(f, gm.row(i), bm.col(j), da@[i * bm.cols + j]));
            }
            assert forall|i: int, j: int| 0 <= i < n && 0 <= j < k implies fpu::dots(
                f,
                flat_col(g.data@, i, m as int, n as int),
                flat_col(self.a.data@, j, m as int, k as int),
                #[trigger] db@[i * k + j],
            ) by {
                lemma_transposed(gm, gt, i);
                assert(gm.col(i) =~= flat_col(g.data@, i, m as int, n as int)) by {
                    assert forall|p: int| 0 <= p < m implies gm.col(i)[p] == g.data@[p * n + i] by {
                        assert(gm.position(p, i) == 0 + p * n + i);
                    }
                }
                assert(am.col(j) =~= flat_col(self.a.data@, j, m as int, k as int)) by {
                    assert forall|p: int| 0 <= p < m implies am.col(j)[p] == self.a.data@[p * k + j] by {
                        assert(am.position(p, j) == 0 + p * k + j);
                    }
                }
                assert(fpu::dots(f, gt.row(i), am.col(j), db@[i * am.cols + j]));
            }
        }
        let da = NdArray { shape: self.a.shape.clone(), data: da };
        let db = NdArray { shape: self.b.shape.clone(), data: db };
        (da, db)
    }
}

/// `a[.., K]` times the transpose of `b[N, K]`.
pub fn matmul<F: Fpu>(a: &Tensor, b: &Tensor, mode: &GradMode, f: &F) -> (r: Result<Tensor, MatmulError>)
    requires
        a.wf(),
        b.wf(),
        a.spec_shape().len() > 0,
        a.spec_shape().last() > 0,
        b.spec_shape().len() == 2 ==> dims::fits(matmul_shape(a.spec_shape(), b.spec_shape())),
    ensures
        match matmul_error(a.spec_shape(), b.spec_shape()) {
            Some(e) => r == Err::<Tensor, MatmulError>(e),
            None => r matches Ok(t) && matmul_result(f, *a, *b, *mode, t),
        },
{
    let b_shape: Vec<usize> = b.shape_vec();
    let a_shape: Vec<usize> = a.shape_vec();
    if b_shape.len() != 2 {
        return Err(MatmulError::RhsNotMatrix);
    }
    if a_shape[a_shape.len() - 1] != b_shape[1] {
        return Err(MatmulError::InnerMismatch);
    }
    let ad = a.data_arc(f);
    let bd = b.data_arc(f);
    let result = multiply(&ad, &bd, f);
    assert(multiplied(f, *ad, *bd, result));
    if is_no_grad(mode) || !(a.requires_grad() || b.requires_grad()) {
        return Ok(Tensor::from_array_no_grad(result));
    }
    assert(seq![a.spec_shape(), b.spec_shape()] =~= seq![ad.shape@, bd.shape@]);
    Ok(Tensor::recorded(result, BackwardOp::Matmul(MatmulBackward { a: ad, b: bd })))
}

/// The product of two tensors, recorded if it is to be differentiated.
pub open spec fn matmul_result<F: Fpu>(f: &F, a: Tensor, b: Tensor, mode: GradMode, t: Tensor) -> bool {
    &&& t.wf()
    &&& t.grad is None
    &&& is_matmul(f, a, b, t)
    &&& if mode.no_grad() || !(a.requires_grad || b.requires_grad) {
        t.is_leaf(t.storage, false)
    } else {
        &&& t.requires_grad
        &&& t.op matches Some(op) && *op matches BackwardOp::Matmul(back) && autograd::reads_as(f, a.storage, *back.a)
            && autograd::reads_as(f, b.storage, *back.b) && back.suits(t.spec_shape(), seq![a.spec_shape(), b.spec_shape()])
    }
}

/// `t` holds the product of two tensors, computed in single precision.
pub open spec fn is_matmul<F: Fpu>(f: &F, a: Tensor, b: Tensor, t: Tensor) -> bool {
    exists|x: NdArray<u32>, y: NdArray<u32>, z: NdArray<u32>|
        autograd::reads_as(f, a.storage, x) && autograd::reads_as(f, b.storage, y) && #[trigger] multiplied(f, x, y, z)
            && t.storage == TensorStorage::F32(Arc::new(z))
}

/// A matrix in row-major order, used as it is or with rows and columns exchanged.
pub struct Layout {
    pub rows: usize,
    pub cols: usize,
    pub transposed: bool,
}

impl Layout {
    pub open spec fn size(&self) -> int {
        self.rows * self.cols
    }

    pub open spec fn used_rows(&self) -> usize {
        if self.transposed {
            self.cols
        } else {
            self.rows
        }
    }

    pub open spec fn used_cols(&self) -> usize {
        if self.transposed {
            self.rows
        } else {
            self.cols
        }
    }

    pub open spec fn used_row(&self, data: Seq<u32>, i: int) -> Seq<u32> {
        if self.transposed {
            flat_col(data, i, self.rows as int, self.cols as int)
        } else {
            flat_row(data, i, self.cols as int)
        }
    }

    pub open spec fn used_col(&self, data: Seq<u32>, j: int) -> Seq<u32> {
        if self.transposed {
            flat_row(data, j, self.cols as int)
        } else {
            flat_col(data, j, self.rows as int, self.cols as int)
        }
    }

    /// The matrix at an offset.
    fn matrix<'a>(&self, data: &'a Vec<u32>, offset: usize) -> (m: Mat<'a>)
        requires
            offset + self.size() <= data@.len(),
        ensures
            m.wf(),
            m.rows == self.used_rows(),
            m.cols == self.used_cols(),
            forall|i: int|
                0 <= i < m.rows ==> #[trigger] m.row(i) == self.used_row(
                    data@.subrange(offset as int, offset + self.size()),
                    i,
                ),
            forall|j: int|
                0 <= j < m.cols ==> #[trigger] m.col(j) == self.used_col(
                    data@.subrange(offset as int, offset + self.size()),
                    j,
                ),
    {
        let dense = Mat::dense(data, offset, self.rows, self.cols);
        let ghost part = data@.subrange(offset as int, offset + self.size());
        proof {
            assert forall|i: int| 0 <= i < self.rows implies #[trigger] dense.row(i) == flat_row(
                part,
                i,
                self.cols as int,
            ) by {
                lemma_dense_row(dense, offset as int, i);
                if self.cols > 0 {
                    mat::lemma_row_major(i, 0, self.rows as int, self.cols as int);
                } else {
                    assert(i * self.cols == 0) by (nonlinear_arith)
                        requires
                            self.cols == 0,
                    ;
                }
                assert(dense.row(i) =~= flat_row(part, i, self.cols as int));
            }
            assert forall|j: int| 0 <= j < self.cols implies #[trigger] dense.col(j) == flat_col(
                part,
                j,
                self.rows as int,
                self.cols as int,
            ) by {
                assert forall|i: int| 0 <= i < self.rows implies dense.col(j)[i] == part[i * self.cols + j] by {
                    assert(dense.position(i, j) == offset + i * self.cols + j);
                    mat::lemma_row_major(i, j, self.rows as int, self.cols as int);
                }
                assert(dense.col(j) =~= flat_col(part, j, self.rows as int, self.cols as int));
            }
        }
        if self.transposed {
            let t = dense.t();
            proof {
                assert forall|i: int| 0 <= i < t.rows implies #[trigger] t.row(i) == self.used_row(part, i) by {
                    lemma_transposed(dense, t, i);
                    assert(dense.col(i) == flat_col(part, i, self.rows as int, self.cols as int));
                }
                assert forall|j: int| 0 <= j < t.cols implies #[trigger] t.col(j) == self.used_col(part, j) by {
                    lemma_transposed(dense, t, j);
                    assert(dense.row(j) == flat_row(part, j, self.cols as int));
                }
            }
            t
        } else {
            dense
        }
    }
}

/// `c` is the product of two matrices, in row-major order.
pub open spec fn block_product<F: Fpu>(f: &F, la: Layout, a: Seq<u32>, lb: Layout, b: Seq<u32>, c: Seq<u32>) -> bool {
    forall|i: int, j: int|
        0 <= i < la.used_rows() && 0 <= j < lb.used_cols() ==> fpu::dots(
            f,
            la.used_row(a, i),
            lb.used_col(b, j),
            #[trigger] c[i * lb.used_cols() + j],
        )
}

/// `c` lists the products of corresponding matrices of two lists.
pub open spec fn batch_product<F: Fpu>(
    f: &F,
    count: int,
    la: Layout,
    a: Seq<u32>,
    lb: Layout,
    b: Seq<u32>,
    c: Seq<u32>,
) -> bool {
    let size = la.used_rows() * lb.used_cols();
    &&& c.len() == count * size
    &&& forall|p: int|
        0 <= p < count ==> block_product(f, la, flat_row(a, p, la.size()), lb, flat_row(b, p, lb.size()), #[trigger] flat_row(c, p, size))
}

/// The products of corresponding matrices of two lists.
fn batched<F: Fpu>(count: usize, la: &Layout, a: &Vec<u32>, lb: &Layout, b: &Vec<u32>, f: &F) -> (c: Vec<u32>)
    requires
        la.used_cols() == lb.used_rows(),
        a@.len() == count * la.size(),
        b@.len() == count * lb.size(),
        la.size() <= usize::MAX,
        lb.size() <= usize::MAX,
    ensures
        batch_product(f, count as int, *la, a@, *lb, b@, c@),
{
    let mut c: Vec<u32> = Vec::new();
    let a_len: usize = a.len();
    let b_len: usize = b.len();
    let ghost size = la.used_rows() * lb.used_cols();
    proof {
        assert(0 <= la.size() && 0 <= lb.size() && 0 <= size) by (nonlinear_arith)
            requires
                size == la.used_rows() * lb.used_cols(),
                la.size() == la.rows * la.cols,
                lb.size() == lb.rows * lb.cols,
        ;
    }
    assert(0 * size == 0) by (nonlinear_arith);
    let a_size: usize = la.rows * la.cols;
    let b_size: usize = lb.rows * lb.cols;
    for p in 0..count
        invariant
            la.used_cols() == lb.used_rows(),
            a_len == a@.len() == count * a_size,
            b_len == b@.len() == count * b_size,
            a_size == la.size(),
            b_size == lb.size(),
            size == la.used_rows() * lb.used_cols(),
            size >= 0,
            c@.len() == p * size,
            forall|q: int|
                0 <= q < p ==> block_product(
                    f,
                    *la,
                    flat_row(a@, q, la.size()),
                    *lb,
                    flat_row(b@, q, lb.size()),
                    #[trigger] flat_row(c@, q, size),
                ),
    {
        proof {
            assert(0 <= p * a_size && p * a_size + a_size <= count * a_size) by (nonlinear_arith)
                requires
                    0 <= p < count,
                    a_size >= 0,
            ;
            assert(0 <= p * b_size && p * b_size + b_size <= count * b_size) by (nonlinear_arith)
                requires
                    0 <= p < count,
                    b_size >= 0,
            ;
        }
        let am = la.matrix(a, p * a_size);
        let bm = lb.matrix(b, p * b_size);
        let mut part: Vec<u32> = mat_mul(&am, &bm, f);
        let ghost before = c@;
        let ghost product = part@;
        c.append(&mut part);
        proof {
            assert((p + 1) * size == p * size + size) by (nonlinear_arith);
            assert forall|q: int| 0 <= q < p + 1 implies block_product(
                f,
                *la,
                flat_row(a@, q, la.size()),
                *lb,
                flat_row(b@, q, lb.size()),
                #[trigger] flat_row(c@, q, size),
            ) by {
                if q < p {
                    assert(0 <= q * size && q * size + size <= p * size) by (nonlinear_arith)
                        requires
                            0 <= q < p,
                            size >= 0,
                    ;
                    assert(flat_row(c@, q, size) =~= flat_row(before, q, size));
                } else {
                    assert(flat_row(c@, q, size) =~= product);
                    assert forall|i: int, j: int| 0 <= i < la.used_rows() && 0 <= j < lb.used_cols() implies fpu::dots(
                        f,
                        la.used_row(flat_row(a@, q, la.size()), i),
                        lb.used_col(flat_row(b@, q, lb.size()), j),
                        #[trigger] product[i * lb.used_cols() + j],
                    ) by {
                        assert(am.row(i) == la.used_row(flat_row(a@, q, la.size()), i));
                        assert(bm.col(j) == lb.used_col(flat_row(b@, q, lb.size()), j));
                        assert(fpu::dots(f, am.row(i), bm.col(j), product[i * bm.cols + j]));
                    }
                }
            }
        }
    }
    c
}

/// Why lists of matrices cannot be multiplied.
#[derive(Clone, Copy, Debug, PartialEq, Eq, Structural)]
pub enum BatchMatmulError {
    BatchMismatch,
    HeadMismatch,
    InnerMismatch,
}

/// What is wrong with the extents of a product `[B, H, M, K] * [B, H, K, N]`.
pub open spec fn batch_matmul_error(l: Seq<usize>, r: Seq<usize>) -> Option<BatchMatmulError> {
    if l[0] != r[0] {
        Some(BatchMatmulError::BatchMismatch)
    } else if l[1] != r[1] {
        Some(BatchMatmulError::HeadMismatch)
    } else if l[3] != r[2] {
        Some(BatchMatmulError::InnerMismatch)
    } else {
        None
    }
}

pub open spec fn batch_matmul_shape(l: Seq<usize>, r: Seq<usize>) -> Seq<usize> {
    seq![l[0], l[1], l[2], r[3]]
}

/// The two trailing extents.
pub open spec fn trailing(shape: Seq<usize>, transposed: bool) -> Layout {
    Layout { rows: shape[2], cols: shape[3], transposed }
}

/// Number of elements of four extents.
pub proof fn lemma_product4(shape: Seq<usize>)
    requires
        shape.len() == 4,
    ensures
        dims::product(shape) == ((shape[0] * shape[1]) * shape[2]) * shape[3],
        dims::product(shape) == (shape[0] * shape[1]) * (shape[2] * shape[3]),
{
    let a = shape[0] as int;
    let b = shape[1] as int;
    let c = shape[2] as int;
    let d = shape[3] as int;
    let s3 = shape.drop_last();
    let s2 = s3.drop_last();
    let s1 = s2.drop_last();
    let one = dims::product(s1.drop_last()) as int;
    assert(one * a == a) by (nonlinear_arith)
        requires
            one == 1,
    ;
    assert(dims::product(s1) == a);
    assert(dims::product(s2) == a * b);
    assert(dims::product(s3) == (a * b) * c);
    assert(((a * b) * c) * d == (a * b) * (c * d)) by (nonlinear_arith);
}

/// Of four extents that fit, any two neighbours have a product that fits.
pub proof fn lemma_fits4(shape: Seq<usize>)
    requires
        shape.len() == 4,
        dims::fits(shape),
    ensures
        shape[0] * shape[1] <= usize::MAX,
        shape[1] * shape[2] <= usize::MAX,
        shape[2] * shape[3] <= usize::MAX,
        (shape[0] * shape[1]) * shape[2] <= usize::MAX,
        (shape[0] * shape[1]) * (shape[2] * shape[3]) <= usize::MAX,
{
    let full = dims::nonzero_extents(shape);
    lemma_product4(full);
    let a = full[0] as int;
    let b = full[1] as int;
    let c = full[2] as int;
    let d = full[3] as int;
    let p = shape[0] as int;
    let q = shape[1] as int;
    let r = shape[2] as int;
    let s = shape[3] as int;
    assert(((a * b) * c) * d == dims::volume(shape));
    assert(a * b <= ((a * b) * c) * d && b * c <= ((a * b) * c) * d && c * d <= ((a * b) * c) * d && (a * b) * c <= ((a
        * b) * c) * d) by (nonlinear_arith)
        requires
            a >= 1,
            b >= 1,
            c >= 1,
            d >= 1,
    ;
    assert(p * q <= a * b && q * r <= b * c && r * s <= c * d) by (nonlinear_arith)
        requires
            0 <= p <= a,
            0 <= q <= b,
            0 <= r <= c,
            0 <= s <= d,
    ;
    assert((p * q) * r <= (a * b) * c) by (nonlinear_arith)
        requires
            0 <= p * q <= a * b,
            0 <= r <= c,
    ;
    assert(((a * b) * c) * d == (a * b) * (c * d)) by (nonlinear_arith);
    assert((p * q) * (r * s) <= (a * b) * (c * d)) by (nonlinear_arith)
        requires
            0 <= p * q <= a * b,
            0 <= r * s <= c * d,
    ;
}

/// The operands of a recorded product of lists of matrices.
pub struct BatchMatmulBackward {
    pub lhs: Arc<NdArray<u32>>,
    pub rhs: Arc<NdArray<u32>>,
}

impl BatchMatmulBackward {
    pub open spec fn suits(&self, out: Seq<usize>, operands: Seq<Seq<usize>>) -> bool {
        &&& self.lhs.wf()
        &&& self.rhs.wf()
        &&& operands == seq![self.lhs.shape@, self.rhs.shape@]
        &&& self.lhs.shape@.len() == 4
        &&& self.rhs.shape@.len() == 4
        &&& batch_matmul_error(self.lhs.shape@, self.rhs.shape@) is None
        &&& out == batch_matmul_shape(self.lhs.shape@, self.rhs.shape@)
        &&& dims::fits(out)
    }

    /// The left operand receives `g * rhs^T`, the right one `lhs^T * g`.
    pub open spec fn sends<F: Fpu>(&self, f: &F, g: NdArray<u32>, p: int, r: NdArray<u32>) -> bool {
        let l = self.lhs.shape@;
        let count = l[0] * l[1];
        &&& r.wf()
        &&& if p == 0 {
            &&& r.shape@ == l
            &&& batch_product(
                f,
                count,
                trailing(g.shape@, false),
                g.data@,
                trailing(self.rhs.shape@, true),
                self.rhs.data@,
                r.data@,
            )
        } else {
            &&& r.shape@ == self.rhs.shape@
            &&& batch_product(f, count, trailing(l, true), self.lhs.data@, trailing(g.shape@, false), g.data@, r.data@)
        }
    }

    pub fn gradients<F: Fpu>(&self, g: &NdArray<u32>, f: &F) -> (r: (NdArray<u32>, NdArray<u32>))
        requires
            g.wf(),
            self.suits(g.shape@, seq![self.lhs.shape@, self.rhs.shape@]),
        ensures
            self.sends(f, *g, 0, r.0),
            self.sends(f, *g, 1, r.1),
    {
        proof {
            lemma_product4(self.lhs.shape@);
            lemma_product4(self.rhs.shape@);
            lemma_product4(g.shape@);
            lemma_fits4(self.lhs.shape@);
            lemma_fits4(self.rhs.shape@);
            lemma_fits4(g.shape@);
        }
        let count: usize = self.lhs.shape[0] * self.lhs.shape[1];
        let ll = Layout { rows: self.lhs.shape[2], cols: self.lhs.shape[3], transposed: true };
        let lr = Layout { rows: self.rhs.shape[2], cols: self.rhs.shape[3], transposed: true };
        let lg = Layout { rows: g.shape[2], cols: g.shape[3], transposed: false };
        let dl: Vec<u32> = batched(count, &lg, &g.data, &lr, &self.rhs.data, f);
        let dr: Vec<u32> = batched(count, &ll, &self.lhs.data, &lg, &g.data, f);
        let dl = NdArray { shape: self.lhs.shape.clone(), data: dl };
        let dr = NdArray { shape: self.rhs.shape.clone(), data: dr };
        (dl, dr)
    }
}

/// `z` holds the products of corresponding matrices.
pub open spec fn batch_multiplied<F: Fpu>(f: &F, x: NdArray<u32>, y: NdArray<u32>, z: NdArray<u32>) -> bool {
    &&& z.wf()
    &&& z.shape@ == batch_matmul_shape(x.shape@, y.shape@)
    &&& batch_product(
        f,
        x.shape@[0] * x.shape@[1],
        trailing(x.shape@, false),
        x.data@,
        trailing(y.shape@, false),
        y.data@,
        z.data@,
    )
}

pub open spec fn is_batch_matmul<F: Fpu>(f: &F, l: Tensor, r: Tensor, t: Tensor) -> bool {
    exists|x: NdArray<u32>, y: NdArray<u32>, z: NdArray<u32>|
        autograd::reads_as(f, l.storage, x) && autograd::reads_as(f, r.storage, y) && #[trigger] batch_multiplied(f, x, y, z)
            && t.storage == TensorStorage::F32(Arc::new(z))
}

/// The products of corresponding matrices, recorded if they are to be differentiated.
pub open spec fn batch_matmul_result<F: Fpu>(f: &F, lhs: Tensor, rhs: Tensor, mode: GradMode, t: Tensor) -> bool {
    &&& t.wf()
    &&& t.spec_shape() == batch_matmul_shape(lhs.spec_shape(), rhs.spec_shape())
    &&& t.grad is None
    &&& is_batch_matmul(f, lhs, rhs, t)
    &&& if mode.no_grad() || !(lhs.requires_grad || rhs.requires_grad) {
        t.is_leaf(t.storage, false)
    } else {
        &&& t.requires_grad
        &&& t.op matches Some(op) && *op matches BackwardOp::BatchMatmul(back) && autograd::reads_as(
            f,
            lhs.storage,
            *back.lhs,
        ) && autograd::reads_as(f, rhs.storage, *back.rhs) && back.suits(
            t.spec_shape(),
            seq![lhs.spec_shape(), rhs.spec_shape()],
        )
    }
}

/// `lhs[B, H, M, K]` times `rhs[B, H, K, N]`, matrix by matrix.
pub fn batch_matmul<F: Fpu>(lhs: &Tensor, rhs: &Tensor, mode: &GradMode, f: &F) -> (r: Result<Tensor, BatchMatmulError>)
    requires
        lhs.wf(),
        rhs.wf(),
        lhs.spec_shape().len() == 4,
        rhs.spec_shape().len() == 4,
        dims::fits(batch_matmul_shape(lhs.spec_shape(), rhs.spec_shape())),
    ensures
        match batch_matmul_error(lhs.spec_shape(), rhs.spec_shape()) {
            Some(e) => r == Err::<Tensor, BatchMatmulError>(e),
            None => r matches Ok(t) && batch_matmul_result(f, *lhs, *rhs, *mode, t),
        },
{
    let l: Vec<usize> = lhs.shape_vec();
    let r: Vec<usize> = rhs.shape_vec();
    if l[0] != r[0] {
        return Err(BatchMatmulError::BatchMismatch);
    }
    if l[1] != r[1] {
        return Err(BatchMatmulError::HeadMismatch);
    }
    if l[3] != r[2] {
        return Err(BatchMatmulError::InnerMismatch);
    }
    let ld = lhs.data_arc(f);
    let rd = rhs.data_arc(f);
    let shape: Vec<usize> = vec![l[0], l[1], l[2], r[3]];
    proof {
        assert(shape@ =~= batch_matmul_shape(l@, r@));
        lemma_product4(l@);
        lemma_product4(r@);
        lemma_product4(shape@);
        lemma_fits4(l@);
        lemma_fits4(r@);
        lemma_fits4(shape@);
    }
    let count: usize = l[0] * l[1];
    let la = Layout { rows: l[2], cols: l[3], transposed: false };
    let lb = Layout { rows: r[2], cols: r[3], transposed: false };
    let data: Vec<u32> = batched(count, &la, &ld.data, &lb, &rd.data, f);
    let result = NdArray { shape, data };
    assert(batch_multiplied(f, *ld, *rd, result));
    if is_no_grad(mode) || !(lhs.requires_grad() || rhs.requires_grad()) {
        return Ok(Tensor::from_array_no_grad(result));
    }
    assert(seq![lhs.spec_shape(), rhs.spec_shape()] =~= seq![ld.shape@, rd.shape@]);
    Ok(Tensor::recorded(result, BackwardOp::BatchMatmul(BatchMatmulBackward { lhs: ld, rhs: rd })))
}

} // verus!
