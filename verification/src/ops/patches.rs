use crate::ops::mat;
use vstd::prelude::*;

verus! {

/// Windows of `kh * kw` cells, taken at regular steps from an image of several
/// channels.
#[derive(Clone, Copy)]
pub struct Patches {
    pub channels: usize,
    pub height: usize,
    pub width: usize,
    pub kh: usize,
    pub kw: usize,
    pub sh: usize,
    pub sw: usize,
    pub out_h: usize,
    pub out_w: usize,
}

impl Patches {
    /// Number of cells of the image.
    pub open spec fn cells(&self) -> int {
        (self.channels * self.height) * self.width
    }

    /// Number of elements of a window.
    pub open spec fn window(&self) -> int {
        (self.channels * self.kh) * self.kw
    }

    /// Number of windows.
    pub open spec fn count(&self) -> int {
        self.out_h * self.out_w
    }

    /// The windows lie in the image, and the numbers of cells fit.
    pub open spec fn wf(&self) -> bool {
        &&& self.kh <= self.height
        &&& self.kw <= self.width
        &&& self.sh > 0
        &&& self.sw > 0
        &&& self.out_h == (self.height - self.kh) / self.sh as int + 1
        &&& self.out_w == (self.width - self.kw) / self.sw as int + 1
        &&& self.cells() <= usize::MAX
        &&& self.window() <= usize::MAX
        &&& self.channels * self.height <= usize::MAX
        &&& self.channels * self.kh <= usize::MAX
        &&& self.count() <= usize::MAX
    }

    /// The cell of the image that is element `r` of window `p`.
    pub open spec fn cell(&self, p: int, r: int) -> int {
        let y = p / self.out_w as int;
        let x = p % self.out_w as int;
        let ic = (r / self.kw as int) / self.kh as int;
        let ky = (r / self.kw as int) % self.kh as int;
        let kx = r % self.kw as int;
        self.cell_at(y, x, ic, ky, kx)
    }

    /// The cell at an offset in the window of a row and a column.
    pub open spec fn cell_at(&self, y: int, x: int, ic: int, ky: int, kx: int) -> int {
        (ic * self.height + (y * self.sh + ky)) * self.width + (x * self.sw + kx)
    }

    pub proof fn lemma_cell_at(&self, y: int, x: int, ic: int, ky: int, kx: int)
        requires
            self.wf(),
            0 <= y < self.out_h,
            0 <= x < self.out_w,
            0 <= ic < self.channels,
            0 <= ky < self.kh,
            0 <= kx < self.kw,
        ensures
            0 <= y * self.sh,
            0 <= x * self.sw,
            y * self.sh + ky < self.height,
            x * self.sw + kx < self.width,
            0 <= ic * self.height + (y * self.sh + ky) < self.channels * self.height,
            0 <= ic * self.height,
            0 <= (ic * self.height + (y * self.sh + ky)) * self.width,
            0 <= self.cell_at(y, x, ic, ky, kx) < self.cells(),
    {
        lemma_step_inside(y, self.sh as int, self.height as int, self.kh as int, self.out_h as int);
        lemma_step_inside(x, self.sw as int, self.width as int, self.kw as int, self.out_w as int);
        mat::lemma_row_major(ic, y * self.sh + ky, self.channels as int, self.height as int);
        mat::lemma_row_major(
            ic * self.height + (y * self.sh + ky),
            x * self.sw + kx,
            self.channels * self.height,
            self.width as int,
        );
    }

    /// Every element of a window is a cell of the image.
    pub proof fn lemma_cell(&self, p: int, r: int)
        requires
            self.wf(),
            0 <= p < self.count(),
            0 <= r < self.window(),
        ensures
            0 <= self.cell(p, r) < self.cells(),
    {
        lemma_position(p, self.out_h as int, self.out_w as int);
        assert(0 <= self.channels * self.kh) by (nonlinear_arith);
        lemma_position(r, self.channels * self.kh, self.kw as int);
        lemma_position(r / self.kw as int, self.channels as int, self.kh as int);
        self.lemma_cell_at(
            p / self.out_w as int,
            p % self.out_w as int,
            (r / self.kw as int) / self.kh as int,
            (r / self.kw as int) % self.kh as int,
            r % self.kw as int,
        );
    }

    /// The cells of all windows, window by window.
    pub fn table(&self) -> (t: Vec<usize>)
        requires
            self.wf(),
            self.count() * self.window() <= usize::MAX,
        ensures
            t@.len() == self.count() * self.window(),
            forall|p: int, r: int|
                0 <= p < self.count() && 0 <= r < self.window() ==> #[trigger] t@[p * self.window() + r] == self.cell(p, r),
            forall|i: int| 0 <= i < t@.len() ==> #[trigger] t@[i] < self.cells(),
    {
        let mut t: Vec<usize> = Vec::new();
        let ghost k = self.window();
        proof {
            assert(0 * k == 0) by (nonlinear_arith);
            assert(0 * self.out_w == 0) by (nonlinear_arith);
            assert(0 <= k) by (nonlinear_arith)
                requires
                    k == (self.channels * self.kh) * self.kw,
            ;
        }
        for y in 0..self.out_h
            invariant
                self.wf(),
                k == self.window(),
                k >= 0,
                t@.len() == (y * self.out_w) * k,
                forall|p: int, r: int|
                    0 <= p < y * self.out_w && 0 <= r < k ==> #[trigger] t@[p * k + r] == self.cell(p, r),
                forall|i: int| 0 <= i < t@.len() ==> #[trigger] t@[i] < self.cells(),
        {
            for x in 0..self.out_w
                invariant
                    self.wf(),
                    y < self.out_h,
                    k == self.window(),
                    k >= 0,
                    t@.len() == (y * self.out_w + x) * k,
                    forall|p: int, r: int|
                        0 <= p < y * self.out_w + x && 0 <= r < k ==> #[trigger] t@[p * k + r] == self.cell(p, r),
                    forall|i: int| 0 <= i < t@.len() ==> #[trigger] t@[i] < self.cells(),
            {
                let ghost p0 = y * self.out_w + x;
                let ghost before = t@;
                proof {
                    lemma_split(p0, y as int, x as int, self.out_w as int);
                    assert(0 <= y * self.out_w) by (nonlinear_arith);
                }
                self.window_cells(y, x, &mut t);
                proof {
                    assert((p0 + 1) * k == p0 * k + k) by (nonlinear_arith);
                    assert forall|p: int, r: int| 0 <= p < p0 + 1 && 0 <= r < k implies #[trigger] t@[p * k + r]
                        == self.cell(p, r) by {
                        if p < p0 {
                            mat::lemma_row_major(p, r, p0, k);
                            assert(t@[p * k + r] == before[p * k + r]);
                        } else {
                            assert(t@[p0 * k + r] == self.cell(p0, r));
                        }
                    }
                }
            }
            proof {
                assert((y + 1) * self.out_w == y * self.out_w + self.out_w) by (nonlinear_arith);
            }
        }
        t
    }

    /// Appends the cells of one window.
    fn window_cells(&self, y: usize, x: usize, t: &mut Vec<usize>)
        requires
            self.wf(),
            y < self.out_h,
            x < self.out_w,
            forall|i: int| 0 <= i < old(t)@.len() ==> #[trigger] old(t)@[i] < self.cells(),
        ensures
            final(t)@.len() == old(t)@.len() + self.window(),
            forall|i: int| 0 <= i < old(t)@.len() ==> #[trigger] final(t)@[i] == old(t)@[i],
            forall|r: int|
                0 <= r < self.window() ==> #[trigger] final(t)@[old(t)@.len() + r] == self.cell(y * self.out_w + x, r),
            forall|i: int| 0 <= i < final(t)@.len() ==> #[trigger] final(t)@[i] < self.cells(),
    {
        let ghost start = t@;
        let ghost p0 = y * self.out_w + x;
        proof {
            lemma_split(p0, y as int, x as int, self.out_w as int);
            assert(0 * self.kh == 0) by (nonlinear_arith);
            assert(0 * self.kw == 0) by (nonlinear_arith);
        }
        for ic in 0..self.channels
            invariant
                self.wf(),
                y < self.out_h,
                x < self.out_w,
                p0 == y * self.out_w + x,
                p0 / self.out_w as int == y,
                p0 % self.out_w as int == x,
                t@.len() == start.len() + (ic * self.kh) * self.kw,
                forall|i: int| 0 <= i < start.len() ==> #[trigger] t@[i] == start[i],
                forall|r: int| 0 <= r < (ic * self.kh) * self.kw ==> #[trigger] t@[start.len() + r] == self.cell(p0, r),
                forall|i: int| 0 <= i < t@.len() ==> #[trigger] t@[i] < self.cells(),
        {
            for ky in 0..self.kh
                invariant
                    self.wf(),
                    y < self.out_h,
                    x < self.out_w,
                    ic < self.channels,
                    p0 == y * self.out_w + x,
                    p0 / self.out_w as int == y,
                    p0 % self.out_w as int == x,
                    t@.len() == start.len() + (ic * self.kh + ky) * self.kw,
                    forall|i: int| 0 <= i < start.len() ==> #[trigger] t@[i] == start[i],
                    forall|r: int|
                        0 <= r < (ic * self.kh + ky) * self.kw ==> #[trigger] t@[start.len() + r] == self.cell(p0, r),
                    forall|i: int| 0 <= i < t@.len() ==> #[trigger] t@[i] < self.cells(),
            {
                for kx in 0..self.kw
                    invariant
                        self.wf(),
                        y < self.out_h,
                        x < self.out_w,
                        ic < self.channels,
                        ky < self.kh,
                        p0 == y * self.out_w + x,
                        p0 / self.out_w as int == y,
                        p0 % self.out_w as int == x,
                        t@.len() == start.len() + (ic * self.kh + ky) * self.kw + kx,
                        forall|i: int| 0 <= i < start.len() ==> #[trigger] t@[i] == start[i],
                        forall|r: int|
                            0 <= r < (ic * self.kh + ky) * self.kw + kx ==> #[trigger] t@[start.len() + r] == self.cell(
                                p0,
                                r,
                            ),
                        forall|i: int| 0 <= i < t@.len() ==> #[trigger] t@[i] < self.cells(),
                {
                    proof {
                        self.lemma_cell_at(y as int, x as int, ic as int, ky as int, kx as int);
                        let q = ic * self.kh + ky;
                        let r0 = q * self.kw + kx;
                        lemma_split(q, ic as int, ky as int, self.kh as int);
                        lemma_split(r0, q, kx as int, self.kw as int);
                        assert(self.cell(p0, r0) == self.cell_at(y as int, x as int, ic as int, ky as int, kx as int));
                        assert(0 <= ic * self.kh && 0 <= q * self.kw) by (nonlinear_arith)
                            requires
                                q >= 0,
                                ic >= 0,
                        ;
                    }
                    let c: usize = (ic * self.height + (y * self.sh + ky)) * self.width + (x * self.sw + kx);
                    t.push(c);
                }
                proof {
                    assert((ic * self.kh + ky + 1) * self.kw == (ic * self.kh + ky) * self.kw + self.kw) by (nonlinear_arith);
                }
            }
            proof {
                assert((ic + 1) * self.kh == ic * self.kh + self.kh) by (nonlinear_arith);
            }
        }
    }
}

/// A position in a list of equal parts, split into the part and the place in it.
pub proof fn lemma_position(t: int, n: int, k: int)
    requires
        0 <= t < n * k,
        0 <= k,
        0 <= n,
    ensures
        k > 0,
        0 <= t / k < n,
        0 <= t % k < k,
        (t / k) * k + t % k == t,
{
    assert(k > 0) by (nonlinear_arith)
        requires
            0 <= t < n * k,
            0 <= k,
    ;
    assert(0 <= t / k < n && 0 <= t % k < k && (t / k) * k + t % k == t) by (nonlinear_arith)
        requires
            0 <= t < n * k,
            k > 0,
    ;
}

/// Quotient and remainder of a position in row-major order.
pub proof fn lemma_split(p: int, i: int, j: int, cols: int)
    requires
        p == i * cols + j,
        0 <= j < cols,
    ensures
        p / cols == i,
        p % cols == j,
{
    assert(i * cols == cols * i) by (nonlinear_arith);
    vstd::arithmetic::div_mod::lemma_fundamental_div_mod_converse(p, cols, i, j);
}

/// A window that starts at a step ends inside the image.
proof fn lemma_step_inside(i: int, step: int, len: int, k: int, n: int)
    requires
        0 <= i < n,
        step > 0,
        0 <= k <= len,
        n == (len - k) / step + 1,
    ensures
        0 <= i * step <= len - k,
{
    let q = (len - k) / step;
    assert(0 <= i * step <= q * step) by (nonlinear_arith)
        requires
            0 <= i <= q,
            step > 0,
    ;
    assert(q * step <= len - k) by (nonlinear_arith)
        requires
            q == (len - k) / step,
            step > 0,
            len - k >= 0,
    ;
}

} // verus!
