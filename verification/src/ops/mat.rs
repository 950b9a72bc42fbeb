use crate::fpu;
use crate::fpu::Fpu;
use vstd::prelude::*;

verus! {

/// A matrix whose elements lie at regular steps in a list.
pub struct Mat<'a> {
    pub data: &'a Vec<u32>,
    pub offset: usize,
    pub rows: usize,
    pub cols: usize,
    pub row_step: usize,
    pub col_step: usize,
}

impl<'a> Mat<'a> {
    pub open spec fn position(&self, i: int, j: int) -> int {
        self.offset + i * self.row_step + j * self.col_step
    }

    /// Every element lies in the list.
    pub open spec fn wf(&self) -> bool {
        forall|i: int, j: int|
            0 <= i < self.rows && 0 <= j < self.cols ==> 0 <= #[trigger] self.position(i, j) < self.data@.len()
    }

    pub open spec fn elem(&self, i: int, j: int) -> u32 {
        self.data@[self.position(i, j)]
    }

    pub open spec fn row(&self, i: int) -> Seq<u32> {
        Seq::new(self.cols as nat, |j: int| self.elem(i, j))
    }

    pub open spec fn col(&self, j: int) -> Seq<u32> {
        Seq::new(self.rows as nat, |i: int| self.elem(i, j))
    }

    /// A matrix in row-major order, from an offset on.
    pub fn dense(data: &'a Vec<u32>, offset: usize, rows: usize, cols: usize) -> (m: Mat<'a>)
        requires
            offset + rows * cols <= data@.len(),
        ensures
            m.wf(),
            m.rows == rows,
            m.cols == cols,
            m.data == data,
            forall|i: int, j: int| #[trigger] m.position(i, j) == offset + i * cols + j,
    {
        let m = Mat { data, offset, rows, cols, row_step: cols, col_step: 1 };
        assert forall|i: int, j: int| 0 <= i < rows && 0 <= j < cols implies 0 <= #[trigger] m.position(i, j)
            < data@.len() by {
            assert(0 <= i * cols && i * cols + cols <= rows * cols) by (nonlinear_arith)
                requires
                    0 <= i < rows,
                    0 <= cols,
            ;
        }
        m
    }

    /// The matrix with rows and columns exchanged.
    pub fn t(&self) -> (m: Mat<'a>)
        requires
            self.wf(),
        ensures
            m.wf(),
            m.rows == self.cols,
            m.cols == self.rows,
            m.data == self.data,
            forall|i: int, j: int| #[trigger] m.position(i, j) == self.position(j, i),
    {
        let m = Mat {
            data: self.data,
            offset: self.offset,
            rows: self.cols,
            cols: self.rows,
            row_step: self.col_step,
            col_step: self.row_step,
        };
        assert forall|i: int, j: int| 0 <= i < m.rows && 0 <= j < m.cols implies 0 <= #[trigger] m.position(i, j)
            < m.data@.len() by {
            assert(m.position(i, j) == self.position(j, i));
        }
        m
    }

    /// The element in a row and a column.
    pub fn get(&self, i: usize, j: usize) -> (x: u32)
        requires
            self.wf(),
            i < self.rows,
            j < self.cols,
        ensures
            x == self.elem(i as int, j as int),
    {
        let len: usize = self.data.len();
        proof {
            let rs = self.row_step as int;
            let cs = self.col_step as int;
            assert(self.position(i as int, j as int) < len);
            assert(0 <= i * rs && 0 <= j * cs) by (nonlinear_arith)
                requires
                    i >= 0,
                    j >= 0,
                    rs >= 0,
                    cs >= 0,
            ;
        }
        self.data[self.offset + i * self.row_step + j * self.col_step]
    }
}

/// `c` is the product of two matrices, in row-major order.
pub open spec fn is_product<F: Fpu>(f: &F, a: Mat, b: Mat, c: Seq<u32>) -> bool {
    &&& c.len() == a.rows * b.cols
    &&& forall|i: int, j: int|
        0 <= i < a.rows && 0 <= j < b.cols ==> fpu::dots(f, a.row(i), b.col(j), #[trigger] c[i * b.cols + j])
}

/// Positions in row-major order stay below the number of elements.
pub proof fn lemma_row_major(i: int, j: int, rows: int, cols: int)
    requires
        0 <= i < rows,
        0 <= j < cols,
    ensures
        0 <= i * cols + j < rows * cols,
        0 <= i * cols,
        i * cols + cols <= rows * cols,
{
    assert(0 <= i * cols && i * cols + cols <= rows * cols) by (nonlinear_arith)
        requires
            0 <= i < rows,
            0 <= cols,
    ;
}

/// The product of two matrices, in row-major order.
pub fn mat_mul<F: Fpu>(a: &Mat, b: &Mat, f: &F) -> (c: Vec<u32>)
    requires
        a.wf(),
        b.wf(),
        a.cols == b.rows,
    ensures
        is_product(f, *a, *b, c@),
{
    let mut c: Vec<u32> = Vec::new();
    assert(0 * b.cols == 0) by (nonlinear_arith);
    for i in 0..a.rows
        invariant
            a.wf(),
            b.wf(),
            a.cols == b.rows,
            c@.len() == i * b.cols,
            forall|p: int, q: int|
                0 <= p < i && 0 <= q < b.cols ==> fpu::dots(f, a.row(p), b.col(q), #[trigger] c@[p * b.cols + q]),
    {
        let mut row: Vec<u32> = Vec::with_capacity(a.cols);
        for p in 0..a.cols
            invariant
                a.wf(),
                i < a.rows,
                row@ == a.row(i as int).take(p as int),
        {
            row.push(a.get(i, p));
            assert(row@ =~= a.row(i as int).take(p + 1));
        }
        assert(row@ =~= a.row(i as int));
        for j in 0..b.cols
            invariant
                a.wf(),
                b.wf(),
                a.cols == b.rows,
                i < a.rows,
                row@ == a.row(i as int),
                c@.len() == i * b.cols + j,
                forall|p: int, q: int|
                    0 <= p < i && 0 <= q < b.cols ==> fpu::dots(f, a.row(p), b.col(q), #[trigger] c@[p * b.cols + q]),
                forall|q: int| 0 <= q < j ==> fpu::dots(f, a.row(i as int), b.col(q), #[trigger] c@[i * b.cols + q]),
        {
            let mut col: Vec<u32> = Vec::with_capacity(b.rows);
            for p in 0..b.rows
                invariant
                    b.wf(),
                    j < b.cols,
                    col@ == b.col(j as int).take(p as int),
            {
                col.push(b.get(p, j));
                assert(col@ =~= b.col(j as int).take(p + 1));
            }
            assert(col@ =~= b.col(j as int));
            let ghost before = c@;
            c.push(f.dot(row.as_slice(), col.as_slice()));
            proof {
                assert forall|p: int, q: int| 0 <= p < i && 0 <= q < b.cols implies fpu::dots(
                    f,
                    a.row(p),
                    b.col(q),
                    #[trigger] c@[p * b.cols + q],
                ) by {
                    lemma_row_major(p, q, i as int, b.cols as int);
                    assert(c@[p * b.cols + q] == before[p * b.cols + q]);
                }
                assert forall|q: int| 0 <= q < j + 1 implies fpu::dots(
                    f,
                    a.row(i as int),
                    b.col(q),
                    #[trigger] c@[i * b.cols + q],
                ) by {
                    if q < j {
                        assert(c@[i * b.cols + q] == before[i * b.cols + q]);
                    }
                }
            }
        }
        proof {
            assert((i + 1) * b.cols == i * b.cols + b.cols) by (nonlinear_arith);
            assert forall|p: int, q: int| 0 <= p < i + 1 && 0 <= q < b.cols implies fpu::dots(
                f,
                a.row(p),
                b.col(q),
                #[trigger] c@[p * b.cols + q],
            ) by {
                if p == i {
                    assert(c@[i * b.cols + q] == c@[p * b.cols + q]);
                }
            }
        }
    }
    c
}

} // verus!
