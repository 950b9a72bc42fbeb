use crate::array::NdArray;
use crate::autograd;
use crate::autograd::{is_no_grad, BackwardOp, GradMode, Tensor, TensorStorage};
use crate::dims;
use crate::float_bits::is_above;
use crate::fpu;
use crate::fpu::Fpu;
use crate::layers::activation;
use crate::ops::arithmetic;
use crate::ops::arithmetic::sum_axis;
use crate::ops::mat;
use crate::ops::mat::{mat_mul, Mat};
use crate::ops::matmul;
use crate::ops::matvec;
use crate::ops::patches;
use crate::ops::patches::Patches;
use crate::ops::scatter;
use crate::ops::scatter::scatter_add;
use std::sync::Arc;
use vstd::prelude::*;

verus! {

/// Extents of a batch of images with a margin on all sides.
pub open spec fn padded_shape(x: Seq<usize>, pad: (usize, usize)) -> Seq<usize> {
    seq![x[0], x[1], (x[2] + 2 * pad.0) as usize, (x[3] + 2 * pad.1) as usize]
}

/// `r` is `x` with a margin of zeros.
pub open spec fn is_padded(x: NdArray<u32>, pad: (usize, usize), r: NdArray<u32>) -> bool {
    &&& r.wf()
    &&& r.shape@ == padded_shape(x.shape@, pad)
    &&& forall|index: Seq<usize>|
        dims::valid_index(r.shape@, index) ==> #[trigger] r.at(index) == (if pad.0 <= index[2] < pad.0 + x.shape@[2] && pad.1
            <= index[3] < pad.1 + x.shape@[3] {
            x.at(seq![index[0], index[1], (index[2] - pad.0) as usize, (index[3] - pad.1) as usize])
        } else {
            fpu::ZERO
        })
}

/// The images with a margin of zeros.
fn padding_array(x: &NdArray<u32>, pad: (usize, usize)) -> (r: NdArray<u32>)
    requires
        x.wf(),
        x.shape@.len() == 4,
        x.shape@[2] + 2 * pad.0 <= usize::MAX,
        x.shape@[3] + 2 * pad.1 <= usize::MAX,
        dims::fits(padded_shape(x.shape@, pad)),
    ensures
        is_padded(*x, pad, r),
{
    let hp: usize = x.shape[2] + 2 * pad.0;
    let wp: usize = x.shape[3] + 2 * pad.1;
    let tall: Vec<usize> = vec![x.shape[0], x.shape[1], hp, x.shape[3]];
    let full: Vec<usize> = vec![x.shape[0], x.shape[1], hp, wp];
    proof {
        assert(full@ =~= padded_shape(x.shape@, pad));
        assert(tall@ =~= full@.update(3, x.shape@[3]));
        dims::lemma_shorter_axis_fits(full@, 3, x.shape@[3]);
        assert(x.shape@ =~= tall@.update(2, x.shape@[2]));
    }
    let m = x.scattered(tall, 2, pad.0, fpu::ZERO);
    let r = m.scattered(full, 3, pad.1, fpu::ZERO);
    proof {
        assert forall|index: Seq<usize>| dims::valid_index(r.shape@, index) implies #[trigger] r.at(index) == (if pad.0
            <= index[2] < pad.0 + x.shape@[2] && pad.1 <= index[3] < pad.1 + x.shape@[3] {
            x.at(seq![index[0], index[1], (index[2] - pad.0) as usize, (index[3] - pad.1) as usize])
        } else {
            fpu::ZERO
        }) by {
            assert(index[0] < r.shape@[0] && index[1] < r.shape@[1] && index[2] < r.shape@[2] && index[3] < r.shape@[3]);
            if pad.1 <= index[3] < pad.1 + x.shape@[3] {
                let inner = index.update(3, (index[3] - pad.1) as usize);
                assert(dims::valid_index(m.shape@, inner));
                assert(r.at(index) == m.at(inner));
                assert(inner.update(2, (index[2] - pad.0) as usize) =~= seq![
                    index[0],
                    index[1],
                    (index[2] - pad.0) as usize,
                    (index[3] - pad.1) as usize,
                ]);
            }
        }
    }
    r
}

/// Window `p` of an image.
pub open spec fn patch(image: Seq<u32>, g: Patches, p: int) -> Seq<u32> {
    Seq::new(g.window() as nat, |r: int| image[g.cell(p, r)])
}

/// An element of the result: the product of a filter with a window, and the bias.
pub open spec fn filtered<F: Fpu>(f: &F, filter: Seq<u32>, window: Seq<u32>, bias: Option<u32>, r: u32) -> bool {
    match bias {
        None => fpu::dots(f, filter, window, r),
        Some(b) => filtered_and_shifted(f, filter, window, b, r),
    }
}

pub open spec fn filtered_and_shifted<F: Fpu>(f: &F, filter: Seq<u32>, window: Seq<u32>, bias: u32, r: u32) -> bool {
    exists|v: u32| fpu::dots(f, filter, window, v) && #[trigger] fpu::adds(f, v, bias, r)
}

pub open spec fn bias_of(bias: Option<Arc<NdArray<u32>>>, o: int) -> Option<u32> {
    match bias {
        None => None,
        Some(b) => Some(b.data@[o]),
    }
}

/// `c` holds, filter by filter, the products with all windows of an image.
pub open spec fn sample_convolved<F: Fpu>(
    f: &F,
    image: Seq<u32>,
    w: Seq<u32>,
    bias: Option<Arc<NdArray<u32>>>,
    g: Patches,
    filters: int,
    c: Seq<u32>,
) -> bool {
    forall|o: int, p: int|
        0 <= o < filters && 0 <= p < g.count() ==> filtered(
            f,
            matmul::flat_row(w, o, g.window()),
            patch(image, g, p),
            bias_of(bias, o),
            #[trigger] c[o * g.count() + p],
        )
}

/// The windows of one image out of a batch, one after the other.
fn im2col(padded: &Vec<u32>, b: usize, batch: usize, g: &Patches, table: &Vec<usize>) -> (cols: Vec<u32>)
    requires
        g.wf(),
        b < batch,
        padded@.len() == batch * g.cells(),
        table@.len() == g.count() * g.window(),
        forall|i: int| 0 <= i < table@.len() ==> #[trigger] table@[i] < g.cells(),
    ensures
        cols@.len() == table@.len(),
        forall|i: int| 0 <= i < cols@.len() ==> #[trigger] cols@[i] == matmul::flat_row(padded@, b as int, g.cells())[table@[i] as int],
{
    let len: usize = padded.len();
    let ghost cells = g.cells();
    proof {
        assert(0 <= cells) by (nonlinear_arith)
            requires
                cells == (g.channels * g.height) * g.width,
        ;
        assert(0 <= b * cells && b * cells + cells <= batch * cells) by (nonlinear_arith)
            requires
                0 <= b < batch,
                cells >= 0,
        ;
    }
    let size: usize = (g.channels * g.height) * g.width;
    let start: usize = b * size;
    let mut cols: Vec<u32> = Vec::with_capacity(table.len());
    for i in 0..table.len()
        invariant
            cells == g.cells(),
            len == padded@.len() == batch * cells,
            start == b * cells,
            start + cells <= len,
            forall|i: int| 0 <= i < table@.len() ==> #[trigger] table@[i] < cells,
            cols@.len() == i,
            forall|j: int|
                0 <= j < i ==> #[trigger] cols@[j] == matmul::flat_row(padded@, b as int, cells)[table@[j] as int],
    {
        assert(table@[i as int] < cells);
        cols.push(padded[start + table[i]]);
    }
    cols
}

/// A window is a row of the list of windows.
proof fn lemma_patch_row(image: Seq<u32>, g: Patches, table: Seq<usize>, cols: Seq<u32>, p: int)
    requires
        g.window() >= 0,
        0 <= p < g.count(),
        table.len() == g.count() * g.window(),
        cols.len() == table.len(),
        forall|q: int, r: int|
            0 <= q < g.count() && 0 <= r < g.window() ==> #[trigger] table[q * g.window() + r] == g.cell(q, r),
        forall|i: int| 0 <= i < cols.len() ==> #[trigger] cols[i] == image[table[i] as int],
    ensures
        matmul::flat_row(cols, p, g.window()) == patch(image, g, p),
{
    let k = g.window();
    assert(0 <= p * k && p * k + k <= g.count() * k) by (nonlinear_arith)
        requires
            0 <= p < g.count(),
            k >= 0,
    ;
    assert(matmul::flat_row(cols, p, k) =~= patch(image, g, p)) by {
        assert forall|r: int| 0 <= r < k implies matmul::flat_row(cols, p, k)[r] == patch(image, g, p)[r] by {
            assert(table[p * k + r] == g.cell(p, r));
            assert(cols[p * k + r] == image[table[p * k + r] as int]);
        }
    }
}

/// The products of all filters with the windows of one image.
fn conv_sample<F: Fpu>(
    cols: &Vec<u32>,
    w: &Vec<u32>,
    bias: &Option<Arc<NdArray<u32>>>,
    filters: usize,
    window: usize,
    count: usize,
    f: &F,
) -> (c: Vec<u32>)
    requires
        cols@.len() == count * window,
        w@.len() == filters * window,
        bias matches Some(b) ==> b.data@.len() >= filters,
    ensures
        c@.len() == filters * count,
        forall|o: int, p: int|
            0 <= o < filters && 0 <= p < count ==> filtered(
                f,
                matmul::flat_row(w@, o, window as int),
                matmul::flat_row(cols@, p, window as int),
                bias_of(*bias, o),
                #[trigger] c@[o * count + p],
            ),
{
    let wm = Mat::dense(w, 0, filters, window);
    let cm = Mat::dense(cols, 0, count, window);
    let ct = cm.t();
    let product: Vec<u32> = mat_mul(&wm, &ct, f);
    proof {
        assert forall|o: int, p: int| 0 <= o < filters && 0 <= p < count implies fpu::dots(
            f,
            matmul::flat_row(w@, o, window as int),
            matmul::flat_row(cols@, p, window as int),
            #[trigger] product@[o * count + p],
        ) by {
            matmul::lemma_dense_row(wm, 0, o);
            matmul::lemma_dense_row(cm, 0, p);
            matmul::lemma_transposed(cm, ct, p);
            assert(fpu::dots(f, wm.row(o), ct.col(p), product@[o * ct.cols + p]));
        }
    }
    match bias {
        None => product,
        Some(b) => {
            let mut c: Vec<u32> = Vec::with_capacity(product.len());
            assert(0 * count == 0) by (nonlinear_arith);
            for o in 0..filters
                invariant
                    b.data@.len() >= filters,
                    product@.len() == filters * count,
                    c@.len() == o * count,
                    forall|i: int| 0 <= i < o * count ==> fpu::adds(
                        f,
                        product@[i],
                        b.data@[i / count as int],
                        #[trigger] c@[i],
                    ),
            {
                for p in 0..count
                    invariant
                        b.data@.len() >= filters,
                        o < filters,
                        product@.len() == filters * count,
                        c@.len() == o * count + p,
                        forall|i: int| 0 <= i < o * count + p ==> fpu::adds(
                            f,
                            product@[i],
                            b.data@[i / count as int],
                            #[trigger] c@[i],
                        ),
                {
                    proof {
                        mat::lemma_row_major(o as int, p as int, filters as int, count as int);
                        patches::lemma_split(o * count + p, o as int, p as int, count as int);
                    }
                    let i: usize = c.len();
                    c.push(f.add(product[i], b.data[o]));
                }
                assert((o + 1) * count == o * count + count) by (nonlinear_arith);
            }
            proof {
                assert forall|o: int, p: int| 0 <= o < filters && 0 <= p < count implies filtered(
                    f,
                    matmul::flat_row(w@, o, window as int),
                    matmul::flat_row(cols@, p, window as int),
                    bias_of(*bias, o),
                    #[trigger] c@[o * count + p],
                ) by {
                    mat::lemma_row_major(o, p, filters as int, count as int);
                    patches::lemma_split(o * count + p, o, p, count as int);
                    let v = product@[o * count + p];
                    assert(fpu::dots(
                        f,
                        matmul::flat_row(w@, o, window as int),
                        matmul::flat_row(cols@, p, window as int),
                        v,
                    ));
                    let i = o * count + p;
                    assert(fpu::adds(f, product@[i], b.data@[i / count as int], c@[i]));
                    assert(fpu::adds(f, v, b.data@[o], c@[i]));
                    assert(filtered_and_shifted(
                        f,
                        matmul::flat_row(w@, o, window as int),
                        matmul::flat_row(cols@, p, window as int),
                        b.data@[o],
                        c@[i],
                    ));
                    assert(bias_of(*bias, o) == Some(b.data@[o]));
                }
            }
            c
        },
    }
}

/// The windows that a filter of extents `w` takes from images of extents `x`.
pub open spec fn conv_patches(x: Seq<usize>, w: Seq<usize>, stride: (usize, usize), pad: (usize, usize)) -> Patches {
    Patches {
        channels: x[1],
        height: (x[2] + 2 * pad.0) as usize,
        width: (x[3] + 2 * pad.1) as usize,
        kh: w[2],
        kw: w[3],
        sh: stride.0,
        sw: stride.1,
        out_h: ((x[2] + 2 * pad.0 - w[2]) / stride.0 as int + 1) as usize,
        out_w: ((x[3] + 2 * pad.1 - w[3]) / stride.1 as int + 1) as usize,
    }
}

pub open spec fn conv_shape(x: Seq<usize>, w: Seq<usize>, g: Patches) -> Seq<usize> {
    seq![x[0], w[0], g.out_h, g.out_w]
}

/// The filters fit the images: they have as many elements as filters of the channels of
/// the images would have, windows lie inside the margin, there is a bias for each filter,
/// and all that is made of them can be held in memory. Without an image no bias is looked
/// at.
pub open spec fn conv_ready(
    x: Seq<usize>,
    w: Seq<usize>,
    bias: Option<Seq<usize>>,
    stride: (usize, usize),
    pad: (usize, usize),
) -> bool {
    let g = conv_patches(x, w, stride, pad);
    &&& x.len() == 4
    &&& w.len() == 4
    &&& w[1] == x[1] || w[0] == 0 || w[2] == 0 || w[3] == 0
    &&& stride.0 > 0
    &&& stride.1 > 0
    &&& w[2] <= x[2] + 2 * pad.0 <= usize::MAX
    &&& w[3] <= x[3] + 2 * pad.1 <= usize::MAX
    &&& bias matches Some(b) ==> x[0] > 0 ==> b.len() == 1 && b[0] >= w[0]
    &&& g.wf()
    &&& g.count() * g.window() <= usize::MAX
    &&& dims::fits(padded_shape(x, pad))
    &&& dims::fits(conv_shape(x, w, g))
}

/// `r` is the convolution of the padded images with the filters.
pub open spec fn convolved<F: Fpu>(
    f: &F,
    padded: NdArray<u32>,
    w: NdArray<u32>,
    bias: Option<Arc<NdArray<u32>>>,
    g: Patches,
    r: NdArray<u32>,
) -> bool {
    let filters = w.shape@[0] as int;
    &&& r.wf()
    &&& r.shape@ == seq![padded.shape@[0], w.shape@[0], g.out_h, g.out_w]
    &&& forall|b: int|
        0 <= b < padded.shape@[0] ==> sample_convolved(
            f,
            matmul::flat_row(padded.data@, b, g.cells()),
            w.data@,
            bias,
            g,
            filters,
            #[trigger] matmul::flat_row(r.data@, b, filters * g.count()),
        )
}

/// How many elements the arrays of a convolution have.
pub proof fn lemma_conv_sizes(x: Seq<usize>, w: Seq<usize>, stride: (usize, usize), pad: (usize, usize))
    requires
        conv_ready(x, w, None, stride, pad),
        dims::fits(w),
    ensures
        ({
            let g = conv_patches(x, w, stride, pad);
            &&& dims::product(padded_shape(x, pad)) == x[0] * g.cells()
            &&& dims::product(w) == w[0] * g.window()
            &&& dims::product(conv_shape(x, w, g)) == x[0] * (w[0] * g.count())
            &&& 0 <= g.cells()
            &&& 0 <= g.window()
            &&& 0 <= g.count()
            &&& w[0] * g.count() <= usize::MAX || x[0] == 0
        }),
{
    let g = conv_patches(x, w, stride, pad);
    let s = padded_shape(x, pad);
    let c = conv_shape(x, w, g);
    matmul::lemma_product4(s);
    matmul::lemma_product4(w);
    matmul::lemma_product4(c);
    let a = x[0] as int;
    let b = x[1] as int;
    let o = w[0] as int;
    lemma_regroup(a, b, g.height as int, g.width as int);
    lemma_regroup(o, b, g.kh as int, g.kw as int);
    let c1 = w[1] as int;
    lemma_regroup(o, c1, g.kh as int, g.kw as int);
    if c1 != b {
        let (kh, kw) = (g.kh as int, g.kw as int);
        assert(o * ((b * kh) * kw) == 0 && o * ((c1 * kh) * kw) == 0) by (nonlinear_arith)
            requires
                o == 0 || kh == 0 || kw == 0,
        ;
    }
    lemma_regroup(a, o, g.out_h as int, g.out_w as int);
    assert(o * (g.out_h * g.out_w) == (o * g.out_h) * g.out_w) by (nonlinear_arith);
    assert(0 <= (b * g.height) * g.width && 0 <= (b * g.kh) * g.kw && 0 <= g.out_h * g.out_w) by (nonlinear_arith)
        requires
            b >= 0,
    ;
    let n = o * (g.out_h * g.out_w);
    dims::lemma_product_bounded_by_volume(c);
    assert(a == 0 || n <= a * n) by (nonlinear_arith)
        requires
            a >= 0,
            n >= 0,
    ;
    assert(0 <= n) by (nonlinear_arith)
        requires
            n == o * (g.out_h * g.out_w),
            o >= 0,
            0 <= g.out_h * g.out_w,
    ;
}

proof fn lemma_regroup(a: int, b: int, c: int, d: int)
    ensures
        ((a * b) * c) * d == a * ((b * c) * d),
{
    assert(((a * b) * c) * d == a * ((b * c) * d)) by (nonlinear_arith);
}

/// The convolution of padded images with filters.
fn convolve<F: Fpu>(
    padded: &NdArray<u32>,
    w: &NdArray<u32>,
    bias: &Option<Arc<NdArray<u32>>>,
    g: &Patches,
    f: &F,
) -> (r: NdArray<u32>)
    requires
        padded.wf(),
        w.wf(),
        padded.shape@.len() == 4,
        w.shape@.len() == 4,
        g.wf(),
        padded.data@.len() == padded.shape@[0] * g.cells(),
        w.data@.len() == w.shape@[0] * g.window(),
        bias matches Some(b) ==> padded.shape@[0] > 0 ==> b.data@.len() >= w.shape@[0],
        g.count() * g.window() <= usize::MAX,
        dims::fits(seq![padded.shape@[0], w.shape@[0], g.out_h, g.out_w]),
        dims::product(seq![padded.shape@[0], w.shape@[0], g.out_h, g.out_w]) == padded.shape@[0] * (w.shape@[0]
            * g.count()),
    ensures
        convolved(f, *padded, *w, *bias, *g, r),
{
    let batch: usize = padded.shape[0];
    let filters: usize = w.shape[0];
    let table: Vec<usize> = g.table();
    let shape: Vec<usize> = vec![batch, filters, g.out_h, g.out_w];
    let ghost size = filters * g.count();
    let ghost cells = g.cells();
    let window: usize = (g.channels * g.kh) * g.kw;
    let count: usize = g.out_h * g.out_w;
    let mut data: Vec<u32> = Vec::new();
    proof {
        assert(shape@ =~= seq![batch, filters, g.out_h, g.out_w]);
        assert(0 * size == 0) by (nonlinear_arith);
        assert(0 <= size) by (nonlinear_arith)
            requires
                size == filters * count,
        ;
    }
    for b in 0..batch
        invariant
            g.wf(),
            batch == padded.shape@[0],
            filters == w.shape@[0],
            padded.data@.len() == batch * cells,
            w.data@.len() == filters * window,
            bias matches Some(bb) ==> batch > 0 ==> bb.data@.len() >= filters,
            table@.len() == g.count() * g.window(),
            forall|p: int, r: int|
                0 <= p < g.count() && 0 <= r < g.window() ==> #[trigger] table@[p * g.window() + r] == g.cell(p, r),
            forall|i: int| 0 <= i < table@.len() ==> #[trigger] table@[i] < cells,
            cells == g.cells(),
            window == g.window(),
            count == g.count(),
            size == filters * count,
            size >= 0,
            data@.len() == b * size,
            forall|a: int|
                0 <= a < b ==> sample_convolved(
                    f,
                    matmul::flat_row(padded.data@, a, cells),
                    w.data@,
                    *bias,
                    *g,
                    filters as int,
                    #[trigger] matmul::flat_row(data@, a, size),
                ),
    {
        let cols: Vec<u32> = im2col(&padded.data, b, batch, g, &table);
        let mut c: Vec<u32> = conv_sample(&cols, &w.data, bias, filters, window, count, f);
        let ghost image = matmul::flat_row(padded.data@, b as int, cells);
        let ghost before = data@;
        let ghost part = c@;
        proof {
            assert forall|o: int, p: int| 0 <= o < filters && 0 <= p < count implies filtered(
                f,
                matmul::flat_row(w.data@, o, g.window()),
                patch(image, *g, p),
                bias_of(*bias, o),
                #[trigger] part[o * g.count() + p],
            ) by {
                lemma_patch_row(image, *g, table@, cols@, p);
                assert(filtered(
                    f,
                    matmul::flat_row(w.data@, o, window as int),
                    matmul::flat_row(cols@, p, window as int),
                    bias_of(*bias, o),
                    part[o * count + p],
                ));
            }
        }
        data.append(&mut c);
        proof {
            assert((b + 1) * size == b * size + size) by (nonlinear_arith);
            assert forall|a: int| 0 <= a < b + 1 implies sample_convolved(
                f,
                matmul::flat_row(padded.data@, a, cells),
                w.data@,
                *bias,
                *g,
                filters as int,
                #[trigger] matmul::flat_row(data@, a, size),
            ) by {
                if a < b {
                    activation::lemma_rows_stay(before, part, b as int, a, size);
                } else {
                    assert(matmul::flat_row(data@, a, size) =~= part);
                }
            }
        }
    }
    NdArray { shape, data }
}

/// The cells of all windows, window by window.
pub open spec fn cell_table(g: Patches) -> Seq<usize> {
    Seq::new((g.count() * g.window()) as nat, |t: int| g.cell(t / g.window(), t % g.window()) as usize)
}

/// `d` is the gradient of a padded image: the products of filters and gradients,
/// each added to the cell that it came from.
pub open spec fn image_gradient<F: Fpu>(f: &F, w: Seq<u32>, gy: Seq<u32>, g: Patches, filters: int, d: Seq<u32>) -> bool {
    exists|values: Seq<u32>| #[trigger]
        window_gradients(f, w, gy, g, filters, values) && scatter::scattered(f, cell_table(g), values, d)
}

pub open spec fn window_gradients<F: Fpu>(
    f: &F,
    w: Seq<u32>,
    gy: Seq<u32>,
    g: Patches,
    filters: int,
    values: Seq<u32>,
) -> bool {
    &&& values.len() == g.count() * g.window()
    &&& forall|p: int, r: int|
        0 <= p < g.count() && 0 <= r < g.window() ==> fpu::dots(
            f,
            matmul::flat_col(w, r, filters, g.window()),
            matmul::flat_col(gy, p, filters, g.count()),
            #[trigger] values[p * g.window() + r],
        )
}

/// Element `r` of every window.
pub open spec fn patch_column(image: Seq<u32>, g: Patches, r: int) -> Seq<u32> {
    Seq::new(g.count() as nat, |p: int| image[g.cell(p, r)])
}

/// `d` is the gradient of the filters that one image gives.
pub open spec fn filter_gradient<F: Fpu>(f: &F, image: Seq<u32>, gy: Seq<u32>, g: Patches, filters: int, d: Seq<u32>) -> bool {
    &&& d.len() == filters * g.window()
    &&& forall|o: int, r: int|
        0 <= o < filters && 0 <= r < g.window() ==> fpu::dots(
            f,
            matmul::flat_row(gy, o, g.count()),
            patch_column(image, g, r),
            #[trigger] d[o * g.window() + r],
        )
}

/// Element `i` of the parts from `from` on.
pub open spec fn column_from(parts: Seq<Seq<u32>>, from: int, n: int, i: int) -> Seq<u32> {
    Seq::new((n - from) as nat, |b: int| parts[from + b][i])
}

/// `r` is the sum of the first `n` parts, added up from the first on.
pub open spec fn parts_added<F: Fpu>(f: &F, parts: Seq<Seq<u32>>, n: int, r: Seq<u32>) -> bool {
    &&& r.len() == parts[0].len()
    &&& forall|i: int|
        0 <= i < r.len() ==> crate::ops::rows::left_sum(f, parts[0][i], column_from(parts, 1, n, i), #[trigger] r[i])
}

/// `r` is `d` without its margin.
pub open spec fn is_cropped(d: NdArray<u32>, pad: (usize, usize), shape: Seq<usize>, r: NdArray<u32>) -> bool {
    &&& r.wf()
    &&& r.shape@ == shape
    &&& forall|index: Seq<usize>|
        dims::valid_index(shape, index) ==> #[trigger] r.at(index) == d.at(
            seq![index[0], index[1], (index[2] + pad.0) as usize, (index[3] + pad.1) as usize],
        )
}

/// `r` is `g` summed over the images and their cells.
pub open spec fn bias_gradient<F: Fpu>(f: &F, g: NdArray<u32>, r: NdArray<u32>) -> bool {
    exists|a: NdArray<u32>, b: NdArray<u32>| #[trigger]
        arithmetic::axis_summed(f, g, 0, a) && #[trigger] arithmetic::axis_summed(f, a, 1, b) && arithmetic::axis_summed(
            f,
            b,
            1,
            r,
        )
}

/// What a recorded convolution needs to send a gradient back.
pub struct Conv2dBackward {
    pub input: Arc<NdArray<u32>>,
    pub weight: Arc<NdArray<u32>>,
    pub has_bias: bool,
    pub stride: (usize, usize),
    pub padding: (usize, usize),
}

impl Conv2dBackward {
    pub open spec fn bias_extents(&self) -> Option<Seq<usize>> {
        if self.has_bias {
            Some(seq![self.weight.shape@[0]])
        } else {
            None
        }
    }

    pub open spec fn patches(&self) -> Patches {
        conv_patches(self.input.shape@, self.weight.shape@, self.stride, self.padding)
    }

    pub open spec fn suits(&self, out: Seq<usize>, operands: Seq<Seq<usize>>) -> bool {
        &&& self.input.wf()
        &&& self.weight.wf()
        &&& conv_ready(self.input.shape@, self.weight.shape@, self.bias_extents(), self.stride, self.padding)
        &&& self.input.shape@[0] > 0
        &&& out == conv_shape(self.input.shape@, self.weight.shape@, self.patches())
        &&& operands == (match self.bias_extents() {
            None => seq![self.input.shape@, self.weight.shape@],
            Some(b) => seq![self.input.shape@, self.weight.shape@, b],
        })
    }

    /// The gradient of the images.
    pub open spec fn sends_input<F: Fpu>(&self, f: &F, g: NdArray<u32>, r: NdArray<u32>) -> bool {
        exists|d: NdArray<u32>| #[trigger] self.padded_gradient(f, g, d) && is_cropped(d, self.padding, self.input.shape@, r)
    }

    pub open spec fn padded_gradient<F: Fpu>(&self, f: &F, g: NdArray<u32>, d: NdArray<u32>) -> bool {
        let geometry = self.patches();
        let filters = self.weight.shape@[0] as int;
        &&& d.wf()
        &&& d.shape@ == padded_shape(self.input.shape@, self.padding)
        &&& forall|b: int|
            0 <= b < self.input.shape@[0] ==> image_gradient(
                f,
                self.weight.data@,
                matmul::flat_row(g.data@, b, filters * geometry.count()),
                geometry,
                filters,
                #[trigger] matmul::flat_row(d.data@, b, geometry.cells()),
            )
    }

    /// The gradient of the filters.
    pub open spec fn sends_weight<F: Fpu>(&self, f: &F, g: NdArray<u32>, r: NdArray<u32>) -> bool {
        &&& r.wf()
        &&& r.shape@ == self.weight.shape@
        &&& exists|xp: NdArray<u32>, parts: Seq<Seq<u32>>|
            is_padded(*self.input, self.padding, xp) && #[trigger] self.filter_gradients(f, g, xp, parts) && parts_added(
                f,
                parts,
                self.input.shape@[0] as int,
                r.data@,
            )
    }

    pub open spec fn filter_gradients<F: Fpu>(
        &self,
        f: &F,
        g: NdArray<u32>,
        xp: NdArray<u32>,
        parts: Seq<Seq<u32>>,
    ) -> bool {
        let geometry = self.patches();
        let filters = self.weight.shape@[0] as int;
        &&& parts.len() == self.input.shape@[0]
        &&& forall|b: int|
            0 <= b < parts.len() ==> filter_gradient(
                f,
                matmul::flat_row(xp.data@, b, geometry.cells()),
                matmul::flat_row(g.data@, b, filters * geometry.count()),
                geometry,
                filters,
                #[trigger] parts[b],
            )
    }

    pub open spec fn sends<F: Fpu>(&self, f: &F, g: NdArray<u32>, p: int, r: NdArray<u32>) -> bool {
        if p == 0 {
            self.sends_input(f, g, r)
        } else if p == 1 {
            self.sends_weight(f, g, r)
        } else {
            bias_gradient(f, g, r)
        }
    }

    /// The gradient of one padded image.
    fn image<F: Fpu>(&self, g: &NdArray<u32>, b: usize, geometry: &Patches, table: &Vec<usize>, f: &F) -> (d: Vec<u32>)
        requires
            g.wf(),
            self.suits(g.shape@, self.operand_shapes()),
            *geometry == self.patches(),
            b < self.input.shape@[0],
            table@ == cell_table(*geometry),
            forall|i: int| 0 <= i < table@.len() ==> #[trigger] table@[i] < geometry.cells(),
        ensures
            d@.len() == geometry.cells(),
            image_gradient(
                f,
                self.weight.data@,
                matmul::flat_row(g.data@, b as int, self.weight.shape@[0] * geometry.count()),
                *geometry,
                self.weight.shape@[0] as int,
                d@,
            ),
    {
        let filters: usize = self.weight.shape[0];
        let batch: usize = self.input.shape[0];
        let window: usize = (geometry.channels * geometry.kh) * geometry.kw;
        let count: usize = geometry.out_h * geometry.out_w;
        let size: usize = (geometry.channels * geometry.height) * geometry.width;
        let len: usize = g.data.len();
        let ghost gy = matmul::flat_row(g.data@, b as int, filters * count);
        proof {
            lemma_conv_sizes(self.input.shape@, self.weight.shape@, self.stride, self.padding);
            lemma_part(b as int, batch as int, filters * count);
        }
        let offset: usize = b * (filters * count);
        let wm = Mat::dense(&self.weight.data, 0, filters, window);
        let wt = wm.t();
        let gm = Mat::dense(&g.data, offset, filters, count);
        let dcol: Vec<u32> = mat_mul(&wt, &gm, f);
        let mut values: Vec<u32> = Vec::with_capacity(table.len());
        assert(0 * window == 0) by (nonlinear_arith);
        for p in 0..count
            invariant
                dcol@.len() == window * count,
                values@.len() == p * window,
                forall|q: int, r: int|
                    0 <= q < p && 0 <= r < window ==> #[trigger] values@[q * window + r] == dcol@[r * count + q],
        {
            for r in 0..window
                invariant
                    p < count,
                    dcol@.len() == window * count,
                    values@.len() == p * window + r,
                    forall|q: int, s: int|
                        0 <= q < p && 0 <= s < window ==> #[trigger] values@[q * window + s] == dcol@[s * count + q],
                    forall|s: int| 0 <= s < r ==> #[trigger] values@[p * window + s] == dcol@[s * count + p],
            {
                let ghost before = values@;
                let len: usize = dcol.len();
                proof {
                    mat::lemma_row_major(r as int, p as int, window as int, count as int);
                }
                values.push(dcol[r * count + p]);
                proof {
                    assert forall|q: int, s: int| 0 <= q < p && 0 <= s < window implies #[trigger] values@[q * window + s]
                        == dcol@[s * count + q] by {
                        mat::lemma_row_major(q, s, p as int, window as int);
                        assert(values@[q * window + s] == before[q * window + s]);
                    }
                    assert forall|s: int| 0 <= s < r + 1 implies #[trigger] values@[p * window + s] == dcol@[s * count + p] by {
                        if s < r {
                            assert(values@[p * window + s] == before[p * window + s]);
                        }
                    }
                }
            }
            proof {
                assert((p + 1) * window == p * window + window) by (nonlinear_arith);
                assert forall|q: int, s: int| 0 <= q < p + 1 && 0 <= s < window implies #[trigger] values@[q * window + s]
                    == dcol@[s * count + q] by {
                    if q == p {
                        assert(values@[p * window + s] == dcol@[s * count + p]);
                    }
                }
            }
        }
        proof {
            assert forall|p: int, r: int| 0 <= p < count && 0 <= r < window implies fpu::dots(
                f,
                matmul::flat_col(self.weight.data@, r, filters as int, window as int),
                matmul::flat_col(gy, p, filters as int, count as int),
                #[trigger] values@[p * window + r],
            ) by {
                matmul::lemma_transposed(wm, wt, r);
                assert(wm.col(r) =~= matmul::flat_col(self.weight.data@, r, filters as int, window as int)) by {
                    assert forall|o: int| 0 <= o < filters implies wm.col(r)[o] == self.weight.data@[o * window + r] by {
                        assert(wm.position(o, r) == 0 + o * window + r);
                    }
                }
                assert(gm.col(p) =~= matmul::flat_col(gy, p, filters as int, count as int)) by {
                    assert forall|o: int| 0 <= o < filters implies gm.col(p)[o] == gy[o * count + p] by {
                        assert(gm.position(o, p) == offset + o * count + p);
                        mat::lemma_row_major(o, p, filters as int, count as int);
                    }
                }
                assert(fpu::dots(f, wt.row(r), gm.col(p), dcol@[r * gm.cols + p]));
                assert(values@[p * window + r] == dcol@[r * count + p]);
            }
            assert(window_gradients(f, self.weight.data@, gy, *geometry, filters as int, values@));
        }
        scatter_add(table, &values, size, f)
    }

    pub open spec fn operand_shapes(&self) -> Seq<Seq<usize>> {
        match self.bias_extents() {
            None => seq![self.input.shape@, self.weight.shape@],
            Some(b) => seq![self.input.shape@, self.weight.shape@, b],
        }
    }

    /// The gradient of the images.
    fn input_gradient<F: Fpu>(&self, g: &NdArray<u32>, geometry: &Patches, table: &Vec<usize>, f: &F) -> (r: NdArray<u32>)
        requires
            g.wf(),
            self.suits(g.shape@, self.operand_shapes()),
            *geometry == self.patches(),
            table@ == cell_table(*geometry),
            forall|i: int| 0 <= i < table@.len() ==> #[trigger] table@[i] < geometry.cells(),
        ensures
            self.sends_input(f, *g, r),
    {
        let batch: usize = self.input.shape[0];
        let mut data: Vec<u32> = Vec::new();
        let ghost cells = geometry.cells();
        let ghost size = self.weight.shape@[0] * geometry.count();
        proof {
            lemma_conv_sizes(self.input.shape@, self.weight.shape@, self.stride, self.padding);
            assert(0 * cells == 0) by (nonlinear_arith);
        }
        for b in 0..batch
            invariant
                g.wf(),
                self.suits(g.shape@, self.operand_shapes()),
                *geometry == self.patches(),
                batch == self.input.shape@[0],
                table@ == cell_table(*geometry),
                forall|i: int| 0 <= i < table@.len() ==> #[trigger] table@[i] < geometry.cells(),
                cells == geometry.cells(),
                cells >= 0,
                size == self.weight.shape@[0] * geometry.count(),
                data@.len() == b * cells,
                forall|a: int|
                    0 <= a < b ==> image_gradient(
                        f,
                        self.weight.data@,
                        matmul::flat_row(g.data@, a, size),
                        *geometry,
                        self.weight.shape@[0] as int,
                        #[trigger] matmul::flat_row(data@, a, cells),
                    ),
        {
            let mut d: Vec<u32> = self.image(g, b, geometry, table, f);
            let ghost before = data@;
            let ghost part = d@;
            data.append(&mut d);
            proof {
                assert((b + 1) * cells == b * cells + cells) by (nonlinear_arith);
                assert forall|a: int| 0 <= a < b + 1 implies image_gradient(
                    f,
                    self.weight.data@,
                    matmul::flat_row(g.data@, a, size),
                    *geometry,
                    self.weight.shape@[0] as int,
                    #[trigger] matmul::flat_row(data@, a, cells),
                ) by {
                    if a < b {
                        activation::lemma_rows_stay(before, part, b as int, a, cells);
                    } else {
                        assert(matmul::flat_row(data@, a, cells) =~= part);
                    }
                }
            }
        }
        let shape: Vec<usize> = vec![batch, self.input.shape[1], geometry.height, geometry.width];
        proof {
            assert(shape@ =~= padded_shape(self.input.shape@, self.padding));
        }
        let d = NdArray { shape, data };
        assert(self.padded_gradient(f, *g, d));
        let h: usize = self.input.shape[2];
        let w: usize = self.input.shape[3];
        let tall = d.slice_axis(2, self.padding.0, self.padding.0 + h);
        let r = tall.slice_axis(3, self.padding.1, self.padding.1 + w);
        proof {
            assert(r.shape@ =~= self.input.shape@);
            assert forall|index: Seq<usize>| dims::valid_index(r.shape@, index) implies #[trigger] r.at(index) == d.at(
                seq![
                    index[0],
                    index[1],
                    (index[2] + self.padding.0) as usize,
                    (index[3] + self.padding.1) as usize,
                ],
            ) by {
                assert(index[0] < r.shape@[0] && index[1] < r.shape@[1] && index[2] < r.shape@[2] && index[3] < r.shape@[3]);
                let mid = index.update(3, (index[3] + self.padding.1) as usize);
                assert(dims::valid_index(tall.shape@, mid));
                assert(tall.at(mid) == d.at(mid.update(2, (mid[2] + self.padding.0) as usize)));
                assert(mid.update(2, (mid[2] + self.padding.0) as usize) =~= seq![
                    index[0],
                    index[1],
                    (index[2] + self.padding.0) as usize,
                    (index[3] + self.padding.1) as usize,
                ]);
            }
        }
        r
    }

    /// The gradient of the filters that one image gives.
    fn filter<F: Fpu>(
        &self,
        g: &NdArray<u32>,
        padded: &NdArray<u32>,
        b: usize,
        geometry: &Patches,
        table: &Vec<usize>,
        f: &F,
    ) -> (d: Vec<u32>)
        requires
            g.wf(),
            self.suits(g.shape@, self.operand_shapes()),
            *geometry == self.patches(),
            b < self.input.shape@[0],
            is_padded(*self.input, self.padding, *padded),
            table@ == cell_table(*geometry),
            forall|i: int| 0 <= i < table@.len() ==> #[trigger] table@[i] < geometry.cells(),
        ensures
            filter_gradient(
                f,
                matmul::flat_row(padded.data@, b as int, geometry.cells()),
                matmul::flat_row(g.data@, b as int, self.weight.shape@[0] * geometry.count()),
                *geometry,
                self.weight.shape@[0] as int,
                d@,
            ),
    {
        let filters: usize = self.weight.shape[0];
        let batch: usize = self.input.shape[0];
        let window: usize = (geometry.channels * geometry.kh) * geometry.kw;
        let count: usize = geometry.out_h * geometry.out_w;
        let len: usize = g.data.len();
        let ghost gy = matmul::flat_row(g.data@, b as int, filters * count);
        let ghost image = matmul::flat_row(padded.data@, b as int, geometry.cells());
        proof {
            lemma_conv_sizes(self.input.shape@, self.weight.shape@, self.stride, self.padding);
            lemma_part(b as int, batch as int, filters * count);
        }
        let cols: Vec<u32> = im2col(&padded.data, b, batch, geometry, table);
        let offset: usize = b * (filters * count);
        let gm = Mat::dense(&g.data, offset, filters, count);
        let cm = Mat::dense(&cols, 0, count, window);
        let d: Vec<u32> = mat_mul(&gm, &cm, f);
        proof {
            assert forall|o: int, r: int| 0 <= o < filters && 0 <= r < window implies fpu::dots(
                f,
                matmul::flat_row(gy, o, count as int),
                patch_column(image, *geometry, r),
                #[trigger] d@[o * window + r],
            ) by {
                matmul::lemma_dense_row(gm, offset as int, o);
                lemma_part(o, filters as int, count as int);
                assert(gm.row(o) =~= matmul::flat_row(gy, o, count as int));
                assert(cm.col(r) =~= patch_column(image, *geometry, r)) by {
                    assert forall|p: int| 0 <= p < count implies cm.col(r)[p] == patch_column(image, *geometry, r)[p] by {
                        assert(cm.position(p, r) == 0 + p * window + r);
                        mat::lemma_row_major(p, r, count as int, window as int);
                        lemma_table_entry(*geometry, p, r);
                        assert(cols@[p * window + r] == image[table@[p * window + r] as int]);
                    }
                }
                assert(fpu::dots(f, gm.row(o), cm.col(r), d@[o * cm.cols + r]));
            }
        }
        d
    }

    /// The gradient of the filters.
    fn weight_gradient<F: Fpu>(&self, g: &NdArray<u32>, geometry: &Patches, table: &Vec<usize>, f: &F) -> (r: NdArray<u32>)
        requires
            g.wf(),
            self.suits(g.shape@, self.operand_shapes()),
            *geometry == self.patches(),
            table@ == cell_table(*geometry),
            forall|i: int| 0 <= i < table@.len() ==> #[trigger] table@[i] < geometry.cells(),
        ensures
            self.sends_weight(f, *g, r),
    {
        let batch: usize = self.input.shape[0];
        proof {
            lemma_conv_sizes(self.input.shape@, self.weight.shape@, self.stride, self.padding);
        }
        let padded = padding_array(&self.input, self.padding);
        let mut total: Vec<u32> = self.filter(g, &padded, 0, geometry, table, f);
        let ghost mut parts: Seq<Seq<u32>> = seq![total@];
        let ghost size = self.weight.shape@[0] * geometry.count();
        proof {
            assert forall|i: int| 0 <= i < total@.len() implies crate::ops::rows::left_sum(
                f,
                parts[0][i],
                column_from(parts, 1, 1, i),
                #[trigger] total@[i],
            ) by {
                assert(column_from(parts, 1, 1, i) =~= Seq::<u32>::empty());
            }
        }
        for b in 1..batch
            invariant
                g.wf(),
                self.suits(g.shape@, self.operand_shapes()),
                *geometry == self.patches(),
                batch == self.input.shape@[0],
                is_padded(*self.input, self.padding, padded),
                table@ == cell_table(*geometry),
                forall|i: int| 0 <= i < table@.len() ==> #[trigger] table@[i] < geometry.cells(),
                size == self.weight.shape@[0] * geometry.count(),
                parts.len() == b,
                total@.len() == self.weight.shape@[0] * geometry.window(),
                forall|a: int|
                    0 <= a < b ==> filter_gradient(
                        f,
                        matmul::flat_row(padded.data@, a, geometry.cells()),
                        matmul::flat_row(g.data@, a, size),
                        *geometry,
                        self.weight.shape@[0] as int,
                        #[trigger] parts[a],
                    ),
                parts_added(f, parts, b as int, total@),
        {
            let d: Vec<u32> = self.filter(g, &padded, b, geometry, table, f);
            let ghost next = parts.push(d@);
            let mut sum: Vec<u32> = Vec::with_capacity(total.len());
            for i in 0..total.len()
                invariant
                    total@.len() == d@.len(),
                    sum@.len() == i,
                    forall|j: int| 0 <= j < i ==> fpu::adds(f, total@[j], d@[j], #[trigger] sum@[j]),
            {
                sum.push(f.add(total[i], d[i]));
            }
            proof {
                assert(next[0] == parts[0]);
                assert forall|i: int| 0 <= i < sum@.len() implies crate::ops::rows::left_sum(
                    f,
                    next[0][i],
                    column_from(next, 1, b + 1, i),
                    #[trigger] sum@[i],
                ) by {
                    let longer = column_from(next, 1, b + 1, i);
                    assert(longer.drop_last() =~= column_from(parts, 1, b as int, i));
                    assert(longer.last() == d@[i]);
                    assert(crate::ops::rows::left_sum(f, parts[0][i], column_from(parts, 1, b as int, i), total@[i]));
                    assert(fpu::adds(f, total@[i], longer.last(), sum@[i]));
                }
                assert forall|a: int| 0 <= a < b + 1 implies filter_gradient(
                    f,
                    matmul::flat_row(padded.data@, a, geometry.cells()),
                    matmul::flat_row(g.data@, a, size),
                    *geometry,
                    self.weight.shape@[0] as int,
                    #[trigger] next[a],
                ) by {
                    if a < b {
                        assert(next[a] == parts[a]);
                    }
                }
                parts = next;
            }
            total = sum;
        }
        assert(self.filter_gradients(f, *g, padded, parts));
        NdArray { shape: self.weight.shape.clone(), data: total }
    }

    /// Sends the gradient to the images, the filters and the bias.
    pub fn gradients<F: Fpu>(&self, g: &NdArray<u32>, f: &F) -> (r: Vec<Arc<NdArray<u32>>>)
        requires
            g.wf(),
            self.suits(g.shape@, self.operand_shapes()),
        ensures
            r@.len() == self.operand_shapes().len(),
            forall|p: int| 0 <= p < r@.len() ==> self.sends(f, *g, p, *#[trigger] r@[p]),
            forall|p: int| 0 <= p < r@.len() ==> (#[trigger] r@[p]).wf() && r@[p].shape@ == self.operand_shapes()[p],
    {
        let geometry = Patches {
            channels: self.input.shape[1],
            height: self.input.shape[2] + 2 * self.padding.0,
            width: self.input.shape[3] + 2 * self.padding.1,
            kh: self.weight.shape[2],
            kw: self.weight.shape[3],
            sh: self.stride.0,
            sw: self.stride.1,
            out_h: g.shape[2],
            out_w: g.shape[3],
        };
        let table: Vec<usize> = geometry.table();
        proof {
            lemma_conv_sizes(self.input.shape@, self.weight.shape@, self.stride, self.padding);
            let k = geometry.window();
            assert forall|t: int| 0 <= t < table@.len() implies table@[t] == cell_table(geometry)[t] by {
                patches::lemma_position(t, geometry.count(), k);
                assert(table@[(t / k) * k + t % k] == geometry.cell(t / k, t % k));
                assert(table@[t] < geometry.cells());
            }
            assert(table@ =~= cell_table(geometry));
        }
        let mut r: Vec<Arc<NdArray<u32>>> = Vec::new();
        r.push(Arc::new(self.input_gradient(g, &geometry, &table, f)));
        r.push(Arc::new(self.weight_gradient(g, &geometry, &table, f)));
        if self.has_bias {
            let a = sum_axis(g, 0, f);
            let b = sum_axis(&a, 1, f);
            let c = sum_axis(&b, 1, f);
            proof {
                assert(arithmetic::axis_summed(f, *g, 0, a) && arithmetic::axis_summed(f, a, 1, b));
                assert(c.shape@ =~= seq![self.weight.shape@[0]]);
            }
            r.push(Arc::new(c));
        }
        r
    }
}

/// A part of a list of equal parts lies in the list.
proof fn lemma_part(b: int, n: int, size: int)
    requires
        0 <= b < n,
        0 <= size,
    ensures
        0 <= b * size,
        b * size + size <= n * size,
{
    assert(0 <= b * size && b * size + size <= n * size) by (nonlinear_arith)
        requires
            0 <= b < n,
            0 <= size,
    ;
}

/// The entry of the table for an element of a window.
proof fn lemma_table_entry(g: Patches, p: int, r: int)
    requires
        g.wf(),
        0 <= p < g.count(),
        0 <= r < g.window(),
    ensures
        cell_table(g)[p * g.window() + r] == g.cell(p, r),
        0 <= g.cell(p, r) < g.cells(),
        0 <= p * g.window() + r < g.count() * g.window(),
{
    g.lemma_cell(p, r);
    mat::lemma_row_major(p, r, g.count(), g.window());
    patches::lemma_split(p * g.window() + r, p, r, g.window());
}

pub open spec fn is_conv2d<F: Fpu>(
    f: &F,
    input: Tensor,
    weight: Tensor,
    bias: Option<Tensor>,
    stride: (usize, usize),
    pad: (usize, usize),
    t: Tensor,
) -> bool {
    exists|x: NdArray<u32>, xp: NdArray<u32>, w: NdArray<u32>, b: Option<Arc<NdArray<u32>>>, y: NdArray<u32>|
        autograd::reads_as(f, input.storage, x) && #[trigger] is_padded(x, pad, xp) && autograd::reads_as(
            f,
            weight.storage,
            w,
        ) && bias_reads_as(f, bias, b) && #[trigger] convolved(
            f,
            xp,
            w,
            b,
            conv_patches(input.spec_shape(), weight.spec_shape(), stride, pad),
            y,
        ) && t.storage == TensorStorage::F32(Arc::new(y))
}

pub open spec fn bias_reads_as<F: Fpu>(f: &F, bias: Option<Tensor>, b: Option<Arc<NdArray<u32>>>) -> bool {
    match (bias, b) {
        (None, None) => true,
        (Some(t), Some(a)) => autograd::reads_as(f, t.storage, *a),
        _ => false,
    }
}

pub open spec fn bias_shape(bias: Option<&Tensor>) -> Option<Seq<usize>> {
    match bias {
        None => None,
        Some(t) => Some(t.spec_shape()),
    }
}

pub open spec fn owned_bias(bias: Option<&Tensor>) -> Option<Tensor> {
    match bias {
        None => None,
        Some(t) => Some(*t),
    }
}

/// The extents of what a convolution is made of.
pub open spec fn conv_operands(input: Tensor, weight: Tensor, bias: Option<Tensor>) -> Seq<Seq<usize>> {
    match bias {
        None => seq![input.spec_shape(), weight.spec_shape()],
        Some(b) => seq![input.spec_shape(), weight.spec_shape(), b.spec_shape()],
    }
}

/// There is just one bias for each filter.
pub open spec fn bias_per_filter(weight: Tensor, bias: Option<Tensor>) -> bool {
    bias matches Some(b) ==> b.spec_shape() == seq![weight.spec_shape()[0]]
}

/// `t` is the convolution of an input with a weight. Its record can be followed if there
/// is an image, and just one bias for each filter.
pub open spec fn conv2d_result<F: Fpu>(
    f: &F,
    input: Tensor,
    weight: Tensor,
    bias: Option<Tensor>,
    stride: (usize, usize),
    padding: (usize, usize),
    mode: GradMode,
    t: Tensor,
) -> bool {
    &&& t.wf()
    &&& t.grad is None
    &&& t.spec_shape() == conv_shape(
        input.spec_shape(),
        weight.spec_shape(),
        conv_patches(input.spec_shape(), weight.spec_shape(), stride, padding),
    )
    &&& is_conv2d(f, input, weight, bias, stride, padding, t)
    &&& if mode.no_grad() {
        t.is_leaf(t.storage, false)
    } else {
        &&& t.requires_grad
        &&& t.op matches Some(op) && *op matches BackwardOp::Conv2d(back) && autograd::reads_as(
            f,
            input.storage,
            *back.input,
        ) && autograd::reads_as(f, weight.storage, *back.weight) && back.has_bias == bias is Some && back.stride == stride
            && back.padding == padding && (input.spec_shape()[0] > 0 && bias_per_filter(weight, bias) ==> back.suits(
            t.spec_shape(),
            conv_operands(input, weight, bias),
        ))
    }
}

/// Two-dimensional convolution of `input[B, C, H, W]` with `weight[O, C, KH, KW]`. The
/// result is recorded unless the mode forbids it.
pub fn conv2d<F: Fpu>(
    input: &Tensor,
    weight: &Tensor,
    bias: Option<&Tensor>,
    stride: (usize, usize),
    padding: (usize, usize),
    mode: &GradMode,
    f: &F,
) -> (t: Tensor)
    requires
        input.wf(),
        weight.wf(),
        bias matches Some(b) ==> b.wf(),
        conv_ready(input.spec_shape(), weight.spec_shape(), bias_shape(bias), stride, padding),
    ensures
        conv2d_result(f, *input, *weight, owned_bias(bias), stride, padding, *mode, t),
{
    let xs: Vec<usize> = input.shape_vec();
    let ws: Vec<usize> = weight.shape_vec();
    let g = Patches {
        channels: xs[1],
        height: xs[2] + 2 * padding.0,
        width: xs[3] + 2 * padding.1,
        kh: ws[2],
        kw: ws[3],
        sh: stride.0,
        sw: stride.1,
        out_h: (xs[2] + 2 * padding.0 - ws[2]) / stride.0 + 1,
        out_w: (xs[3] + 2 * padding.1 - ws[3]) / stride.1 + 1,
    };
    let x = input.data_arc(f);
    let w = weight.data_arc(f);
    let b: Option<Arc<NdArray<u32>>> = match bias {
        None => None,
        Some(t) => Some(t.data_arc(f)),
    };
    let padded = padding_array(&x, padding);
    proof {
        lemma_conv_sizes(xs@, ws@, stride, padding);
        if bias is Some && xs@[0] > 0 {
            let bs = bias->0.spec_shape();
            dims::lemma_product1(bs[0]);
            assert(bs =~= seq![bs[0]]);
        }
        assert(seq![padded.shape@[0], w.shape@[0], g.out_h, g.out_w] =~= conv_shape(xs@, ws@, g));
    }
    let y = convolve(&padded, &w, &b, &g, f);
    assert(is_padded(*x, padding, padded) && convolved(f, padded, *w, b, g, y));
    if is_no_grad(mode) {
        return Tensor::from_storage_no_grad(TensorStorage::F32(Arc::new(y)));
    }
    let back = Conv2dBackward { input: x, weight: w, has_bias: bias.is_some(), stride, padding };
    Tensor::recorded(y, BackwardOp::Conv2d(back))
}

/// The most negative finite value, with which the search for a maximum starts.
pub const LOWEST: u32 = 0xff7f_ffff;

/// The windows of a pooling over images of extents `x`, plane by plane.
pub open spec fn pool_patches(x: Seq<usize>, kernel: (usize, usize), stride: (usize, usize)) -> Patches {
    Patches {
        channels: 1,
        height: x[2],
        width: x[3],
        kh: kernel.0,
        kw: kernel.1,
        sh: stride.0,
        sw: stride.1,
        out_h: ((x[2] - kernel.0) / stride.0 as int + 1) as usize,
        out_w: ((x[3] - kernel.1) / stride.1 as int + 1) as usize,
    }
}

pub open spec fn pool_shape(x: Seq<usize>, g: Patches) -> Seq<usize> {
    seq![x[0], x[1], g.out_h, g.out_w]
}

pub open spec fn pool_ready(x: Seq<usize>, kernel: (usize, usize), stride: (usize, usize)) -> bool {
    let g = pool_patches(x, kernel, stride);
    &&& x.len() == 4
    &&& kernel.0 <= x[2]
    &&& kernel.1 <= x[3]
    &&& stride.0 > 0
    &&& stride.1 > 0
    &&& g.wf()
    &&& g.count() * g.window() <= usize::MAX
    &&& dims::fits(pool_shape(x, g))
}

/// `choice[p]` is where in window `p` the first of the largest elements stands, and
/// `out[p]` is that element.
pub open spec fn plane_pooled(plane: Seq<u32>, g: Patches, choice: Seq<int>, out: Seq<u32>) -> bool {
    forall|p: int|
        0 <= p < g.count() ==> matvec::is_first_best(patch(plane, g, p), LOWEST, #[trigger] choice[p]) && out[p]
            == matvec::best_score(patch(plane, g, p), LOWEST, choice[p])
}

/// The first cell of a window, or the one at which a window without elements lies.
pub open spec fn corner(g: Patches, p: int) -> int {
    g.cell_at(p / g.out_w as int, p % g.out_w as int, 0, 0, 0)
}

/// Every window lies at a cell.
pub open spec fn corners_inside(g: Patches) -> bool {
    &&& (g.out_h - 1) * g.sh < g.height
    &&& (g.out_w - 1) * g.sw < g.width
}

/// The cell that a choice in a window stands for.
pub open spec fn chosen_cell(g: Patches, p: int, r: int) -> int {
    if g.window() == 0 {
        corner(g, p)
    } else {
        g.cell(p, r)
    }
}

/// Exactly the chosen cells are marked.
pub open spec fn plane_marked(g: Patches, choice: Seq<int>, mask: Seq<bool>) -> bool {
    forall|c: int|
        0 <= c < g.cells() ==> (#[trigger] mask[c] <==> exists|p: int|
            0 <= p < g.count() && chosen_cell(g, p, #[trigger] choice[p]) == c)
}

pub open spec fn mask_part(mask: Seq<bool>, b: int, size: int) -> Seq<bool> {
    mask.subrange(b * size, b * size + size)
}

/// `r` holds the largest element of each window, and `mask` marks where it stood.
pub open spec fn pooled(x: NdArray<u32>, g: Patches, r: NdArray<u32>, mask: Seq<bool>) -> bool {
    &&& r.wf()
    &&& r.shape@ == pool_shape(x.shape@, g)
    &&& mask.len() == x.data@.len()
    &&& forall|b: int|
        0 <= b < x.shape@[0] * x.shape@[1] ==> plane_done(
            #[trigger] matmul::flat_row(x.data@, b, g.cells()),
            g,
            matmul::flat_row(r.data@, b, g.count()),
            mask_part(mask, b, g.cells()),
        )
}

pub open spec fn plane_done(plane: Seq<u32>, g: Patches, out: Seq<u32>, mask: Seq<bool>) -> bool {
    exists|choice: Seq<int>|
        choice.len() == g.count() && #[trigger] plane_pooled(plane, g, choice, out) && plane_marked(g, choice, mask)
}

/// Pools one plane.
fn pool_plane(plane: &[u32], g: &Patches, table: &Vec<usize>) -> (r: (Vec<u32>, Vec<bool>))
    requires
        g.wf(),
        g.kh > 0,
        g.kw > 0,
        g.channels == 1,
        plane@.len() == g.cells(),
        table@.len() == g.count() * g.window(),
        forall|p: int, e: int|
            0 <= p < g.count() && 0 <= e < g.window() ==> #[trigger] table@[p * g.window() + e] == g.cell(p, e),
        forall|i: int| 0 <= i < table@.len() ==> #[trigger] table@[i] < g.cells(),
    ensures
        r.0@.len() == g.count(),
        r.1@.len() == g.cells(),
        plane_done(plane@, *g, r.0@, r.1@),
{
    let window: usize = (g.channels * g.kh) * g.kw;
    let count: usize = g.out_h * g.out_w;
    let size: usize = plane.len();
    let table_len: usize = table.len();
    let mut out: Vec<u32> = Vec::with_capacity(count);
    let mut mask: Vec<bool> = vec![false; size];
    let ghost mut choice: Seq<int> = Seq::empty();
    proof {
        assert(window > 0) by (nonlinear_arith)
            requires
                window == (1 * g.kh) * g.kw,
                g.kh > 0,
                g.kw > 0,
        ;
    }
    for p in 0..count
        invariant
            g.wf(),
            window == g.window(),
            window > 0,
            count == g.count(),
            size == plane@.len() == g.cells(),
            table_len == table@.len() == g.count() * g.window(),
            forall|p: int, e: int|
                0 <= p < g.count() && 0 <= e < g.window() ==> #[trigger] table@[p * g.window() + e] == g.cell(p, e),
            forall|i: int| 0 <= i < table@.len() ==> #[trigger] table@[i] < g.cells(),
            out@.len() == p,
            choice.len() == p,
            mask@.len() == size,
            forall|q: int|
                0 <= q < p ==> matvec::is_first_best(patch(plane@, *g, q), LOWEST, #[trigger] choice[q]) && out@[q]
                    == matvec::best_score(patch(plane@, *g, q), LOWEST, choice[q]),
            forall|c: int|
                0 <= c < size ==> (#[trigger] mask@[c] <==> exists|q: int|
                    0 <= q < p && chosen_cell(*g, q, #[trigger] choice[q]) == c),
    {
        let mut best: usize = 0;
        let mut held: u32 = LOWEST;
        let ghost full = patch(plane@, *g, p as int);
        proof {
            mat::lemma_row_major(p as int, 0, count as int, window as int);
        }
        for e in 0..window
            invariant
                window == g.window(),
                size == plane@.len() == g.cells(),
                p < count,
                count == g.count(),
                p * window + window <= table_len,
                0 <= p * window,
                table_len == table@.len() == g.count() * g.window(),
                forall|p: int, e: int|
                    0 <= p < g.count() && 0 <= e < g.window() ==> #[trigger] table@[p * g.window() + e] == g.cell(p, e),
                forall|i: int| 0 <= i < table@.len() ==> #[trigger] table@[i] < g.cells(),
                full == patch(plane@, *g, p as int),
                best < window,
                matvec::is_first_best(full.take(e as int), LOWEST, best as int),
                held == matvec::best_score(full.take(e as int), LOWEST, best as int),
        {
            assert(table@[p * g.window() + e] == g.cell(p as int, e as int));
            assert(table@[p * g.window() + e] < g.cells());
            let v: u32 = plane[table[p * window + e]];
            proof {
                matvec::lemma_next_score(full.take(e as int), LOWEST, best as int, v);
                assert(full.take(e + 1) =~= full.take(e as int).push(v));
            }
            if is_above(v, held) {
                held = v;
                best = e;
            }
        }
        assert(full.take(window as int) =~= full);
        out.push(held);
        let ghost before = mask@;
        let ghost old_choice = choice;
        assert(table@[p * g.window() + best] == g.cell(p as int, best as int));
        assert(table@[p * g.window() + best] < g.cells());
        let cell: usize = table[p * window + best];
        mask.set(cell, true);
        proof {
            choice = choice.push(best as int);
            assert forall|c: int| 0 <= c < size implies (#[trigger] mask@[c] <==> exists|q: int|
                0 <= q < p + 1 && chosen_cell(*g, q, #[trigger] choice[q]) == c) by {
                if before[c] {
                    let q = choose|q: int| 0 <= q < p && chosen_cell(*g, q, #[trigger] old_choice[q]) == c;
                    assert(choice[q] == old_choice[q]);
                }
                if c == cell {
                    assert(choice[p as int] == best);
                }
                if exists|q: int| 0 <= q < p + 1 && chosen_cell(*g, q, #[trigger] choice[q]) == c {
                    let q = choose|q: int| 0 <= q < p + 1 && chosen_cell(*g, q, #[trigger] choice[q]) == c;
                    if q < p {
                        assert(chosen_cell(*g, q, old_choice[q]) == c);
                        assert(before[c]);
                    }
                }
            }
            assert forall|q: int| 0 <= q < p + 1 implies matvec::is_first_best(
                patch(plane@, *g, q),
                LOWEST,
                #[trigger] choice[q],
            ) && out@[q] == matvec::best_score(patch(plane@, *g, q), LOWEST, choice[q]) by {
                if q < p {
                    assert(choice[q] == old_choice[q]);
                }
            }
        }
    }
    assert(plane_pooled(plane@, *g, choice, out@));
    (out, mask)
}

/// Pools one plane with windows that have no elements: what comes out is the value with
/// which a search starts, and the cells at which the windows lie are marked.
fn pool_nothing(size: usize, g: &Patches, Ghost(plane): Ghost<Seq<u32>>) -> (r: (Vec<u32>, Vec<bool>))
    requires
        g.wf(),
        g.window() == 0,
        g.channels == 1,
        corners_inside(*g),
        size == g.cells(),
        plane.len() == size,
    ensures
        r.0@.len() == g.count(),
        r.1@.len() == g.cells(),
        plane_done(plane, *g, r.0@, r.1@),
{
    let count: usize = g.out_h * g.out_w;
    let mut out: Vec<u32> = Vec::with_capacity(count);
    let mut mask: Vec<bool> = vec![false; size];
    for p in 0..count
        invariant
            g.wf(),
            g.window() == 0,
            g.channels == 1,
            corners_inside(*g),
            count == g.count(),
            size == g.cells(),
            out@.len() == p,
            mask@.len() == size,
            forall|q: int| 0 <= q < p ==> #[trigger] out@[q] == LOWEST,
            forall|c: int|
                0 <= c < size ==> (#[trigger] mask@[c] <==> exists|q: int| 0 <= q < p && #[trigger] corner(*g, q) == c),
    {
        let ghost before = mask@;
        proof {
            lemma_corner(*g, p as int);
        }
        let y: usize = p / g.out_w;
        let x: usize = p % g.out_w;
        let cell: usize = (y * g.sh) * g.width + x * g.sw;
        assert(cell == corner(*g, p as int));
        mask.set(cell, true);
        out.push(LOWEST);
        proof {
            assert forall|c: int| 0 <= c < size implies (#[trigger] mask@[c] <==> exists|q: int|
                0 <= q < p + 1 && #[trigger] corner(*g, q) == c) by {
                if before[c] {
                    let q = choose|q: int| 0 <= q < p && #[trigger] corner(*g, q) == c;
                    assert(corner(*g, q) == c);
                }
                if c == cell {
                    assert(corner(*g, p as int) == c);
                }
            }
        }
    }
    proof {
        let choice: Seq<int> = Seq::new(count as nat, |p: int| 0int);
        assert forall|p: int| 0 <= p < g.count() implies matvec::is_first_best(
            patch(plane, *g, p),
            LOWEST,
            #[trigger] choice[p],
        ) && out@[p] == matvec::best_score(patch(plane, *g, p), LOWEST, choice[p]) by {
            assert(patch(plane, *g, p).len() == 0);
        }
        assert(plane_pooled(plane, *g, choice, out@));
        assert forall|c: int| 0 <= c < g.cells() implies (#[trigger] mask@[c] <==> exists|p: int|
            0 <= p < g.count() && chosen_cell(*g, p, #[trigger] choice[p]) == c) by {
            if mask@[c] {
                let q = choose|q: int| 0 <= q < count && #[trigger] corner(*g, q) == c;
                assert(chosen_cell(*g, q, choice[q]) == c);
            }
            if exists|p: int| 0 <= p < g.count() && chosen_cell(*g, p, #[trigger] choice[p]) == c {
                let q = choose|p: int| 0 <= p < g.count() && chosen_cell(*g, p, #[trigger] choice[p]) == c;
                assert(corner(*g, q) == c);
            }
        }
        assert(plane_marked(*g, choice, mask@));
    }
    (out, mask)
}

/// A window that lies at a cell lies inside the plane.
proof fn lemma_corner(g: Patches, p: int)
    requires
        g.wf(),
        g.channels == 1,
        corners_inside(g),
        0 <= p < g.count(),
    ensures
        0 <= p / g.out_w as int,
        0 <= p % g.out_w as int,
        g.out_w > 0,
        0 <= (p / g.out_w as int) * g.sh < g.height,
        0 <= (p % g.out_w as int) * g.sw < g.width,
        0 <= ((p / g.out_w as int) * g.sh) * g.width,
        corner(g, p) == ((p / g.out_w as int) * g.sh) * g.width + (p % g.out_w as int) * g.sw,
        0 <= corner(g, p) < g.cells(),
{
    patches::lemma_position(p, g.out_h as int, g.out_w as int);
    let y = p / g.out_w as int;
    let x = p % g.out_w as int;
    let (sh, sw) = (g.sh as int, g.sw as int);
    let (oh, ow) = (g.out_h as int, g.out_w as int);
    assert(0 <= y * sh <= (oh - 1) * sh) by (nonlinear_arith)
        requires
            0 <= y < oh,
            0 < sh,
    ;
    assert(0 <= x * sw <= (ow - 1) * sw) by (nonlinear_arith)
        requires
            0 <= x < ow,
            0 < sw,
    ;
    assert(0 * g.height == 0) by (nonlinear_arith);
    assert(1 * g.height == g.height);
    mat::lemma_row_major(y * sh, x * sw, g.height as int, g.width as int);
    let (ys, w) = (y * sh, g.width as int);
    assert(0 <= ys * w) by (nonlinear_arith)
        requires
            0 <= ys,
            0 <= w,
    ;
}

/// `r` is the gradient of a plane: every window sends its gradient to all the marked
/// cells that it covers.
pub open spec fn plane_gradient<F: Fpu>(f: &F, mask: Seq<bool>, gy: Seq<u32>, g: Patches, r: Seq<u32>) -> bool {
    forall|c: int|
        0 <= c < g.cells() ==> if mask[c] {
            crate::ops::rows::left_sum(
                f,
                fpu::ZERO,
                scatter::hits(cell_table(g), spread(gy, g), cell_table(g).len() as int, c),
                #[trigger] r[c],
            )
        } else {
            r[c] == fpu::ZERO
        }
}

/// The gradient of its window, for each element of each window.
pub open spec fn spread(gy: Seq<u32>, g: Patches) -> Seq<u32> {
    Seq::new((g.count() * g.window()) as nat, |t: int| gy[t / g.window()])
}

/// What a recorded pooling needs to send a gradient back.
pub struct MaxPool2dBackward {
    pub shape: Vec<usize>,
    pub mask: Vec<bool>,
    pub kernel: (usize, usize),
    pub stride: (usize, usize),
}

impl MaxPool2dBackward {
    pub open spec fn patches(&self) -> Patches {
        pool_patches(self.shape@, self.kernel, self.stride)
    }

    pub open spec fn suits(&self, out: Seq<usize>, operands: Seq<Seq<usize>>) -> bool {
        &&& operands == seq![self.shape@]
        &&& dims::fits(self.shape@)
        &&& pool_ready(self.shape@, self.kernel, self.stride)
        &&& out == pool_shape(self.shape@, self.patches())
        &&& self.mask@.len() == dims::product(self.shape@)
    }

    pub open spec fn sends<F: Fpu>(&self, f: &F, g: NdArray<u32>, r: NdArray<u32>) -> bool {
        let geometry = self.patches();
        &&& r.wf()
        &&& r.shape@ == self.shape@
        &&& forall|b: int|
            0 <= b < self.shape@[0] * self.shape@[1] ==> plane_gradient(
                f,
                mask_part(self.mask@, b, geometry.cells()),
                matmul::flat_row(g.data@, b, geometry.count()),
                geometry,
                #[trigger] matmul::flat_row(r.data@, b, geometry.cells()),
            )
    }

    pub fn gradient<F: Fpu>(&self, g: &NdArray<u32>, f: &F) -> (r: NdArray<u32>)
        requires
            g.wf(),
            self.suits(g.shape@, seq![self.shape@]),
        ensures
            self.sends(f, *g, r),
    {
        let geometry = Patches {
            channels: 1,
            height: self.shape[2],
            width: self.shape[3],
            kh: self.kernel.0,
            kw: self.kernel.1,
            sh: self.stride.0,
            sw: self.stride.1,
            out_h: g.shape[2],
            out_w: g.shape[3],
        };
        let table: Vec<usize> = geometry.table();
        let g_len: usize = g.data.len();
        let mask_len: usize = self.mask.len();
        proof {
            lemma_pool_sizes(self.shape@, self.kernel, self.stride);
            let k = geometry.window();
            assert forall|t: int| 0 <= t < table@.len() implies table@[t] == cell_table(geometry)[t] by {
                patches::lemma_position(t, geometry.count(), k);
                assert(table@[(t / k) * k + t % k] == geometry.cell(t / k, t % k));
                assert(table@[t] < geometry.cells());
            }
            assert(table@ =~= cell_table(geometry));
            matmul::lemma_fits4(self.shape@);
        }
        let planes: usize = self.shape[0] * self.shape[1];
        let size: usize = self.shape[2] * self.shape[3];
        let window: usize = self.kernel.0 * self.kernel.1;
        let count: usize = geometry.out_h * geometry.out_w;
        let mut data: Vec<u32> = Vec::new();
        assert(0 * size == 0) by (nonlinear_arith);
        for b in 0..planes
            invariant
                geometry == self.patches(),
                geometry.wf(),
                planes == self.shape@[0] * self.shape@[1],
                size == geometry.cells(),
                window == geometry.window(),
                count == geometry.count(),
                table@ == cell_table(geometry),
                forall|i: int| 0 <= i < table@.len() ==> #[trigger] table@[i] < geometry.cells(),
                g_len == g.data@.len() == planes * count,
                mask_len == self.mask@.len() == planes * size,
                data@.len() == b * size,
                forall|a: int|
                    0 <= a < b ==> plane_gradient(
                        f,
                        mask_part(self.mask@, a, size as int),
                        matmul::flat_row(g.data@, a, count as int),
                        geometry,
                        #[trigger] matmul::flat_row(data@, a, size as int),
                    ),
        {
            let ghost gy = matmul::flat_row(g.data@, b as int, count as int);
            let ghost marked = mask_part(self.mask@, b as int, size as int);
            proof {
                lemma_part(b as int, planes as int, count as int);
                lemma_part(b as int, planes as int, size as int);
            }
            let g_start: usize = b * count;
            let m_start: usize = b * size;
            let mut values: Vec<u32> = Vec::with_capacity(table.len());
            for t in 0..table.len()
                invariant
                    table@.len() == count * window,
                    window == geometry.window(),
                    count == geometry.count(),
                    g_start == b * count,
                    0 <= g_start,
                    g_start + count <= g_len,
                    g_len == g.data@.len(),
                    gy == matmul::flat_row(g.data@, b as int, count as int),
                    values@ == spread(gy, geometry).take(t as int),
            {
                proof {
                    patches::lemma_position(t as int, count as int, window as int);
                }
                values.push(g.data[g_start + t / window]);
                assert(values@ =~= spread(gy, geometry).take(t + 1));
            }
            assert(values@ =~= spread(gy, geometry));
            let sums: Vec<u32> = scatter_add(&table, &values, size, f);
            let mut part: Vec<u32> = Vec::with_capacity(size);
            for c in 0..size
                invariant
                    sums@.len() == size == geometry.cells(),
                    m_start == b * size,
                    m_start + size <= mask_len,
                    mask_len == self.mask@.len(),
                    marked == mask_part(self.mask@, b as int, size as int),
                    part@.len() == c,
                    forall|d: int|
                        0 <= d < c ==> #[trigger] part@[d] == (if marked[d] {
                            sums@[d]
                        } else {
                            fpu::ZERO
                        }),
            {
                part.push(if self.mask[m_start + c] { sums[c] } else { fpu::ZERO });
            }
            let ghost before = data@;
            let ghost done = part@;
            proof {
                assert forall|c: int| 0 <= c < geometry.cells() implies if marked[c] {
                    crate::ops::rows::left_sum(
                        f,
                        fpu::ZERO,
                        scatter::hits(cell_table(geometry), spread(gy, geometry), cell_table(geometry).len() as int, c),
                        #[trigger] done[c],
                    )
                } else {
                    done[c] == fpu::ZERO
                } by {
                    assert(done[c] == (if marked[c] { sums@[c] } else { fpu::ZERO }));
                    assert(scatter::scattered(f, table@, values@, sums@));
                    assert(crate::ops::rows::left_sum(
                        f,
                        fpu::ZERO,
                        scatter::hits(table@, values@, table@.len() as int, c),
                        sums@[c],
                    ));
                }
                assert(plane_gradient(f, marked, gy, geometry, done));
            }
            data.append(&mut part);
            proof {
                assert((b + 1) * size == b * size + size) by (nonlinear_arith);
                assert forall|a: int| 0 <= a < b + 1 implies plane_gradient(
                    f,
                    mask_part(self.mask@, a, size as int),
                    matmul::flat_row(g.data@, a, count as int),
                    geometry,
                    #[trigger] matmul::flat_row(data@, a, size as int),
                ) by {
                    if a < b {
                        activation::lemma_rows_stay(before, done, b as int, a, size as int);
                    } else {
                        assert(matmul::flat_row(data@, a, size as int) =~= done);
                    }
                }
            }
        }
        NdArray { shape: self.shape.clone(), data }
    }
}

pub proof fn lemma_pool_sizes(x: Seq<usize>, kernel: (usize, usize), stride: (usize, usize))
    requires
        pool_ready(x, kernel, stride),
    ensures
        ({
            let g = pool_patches(x, kernel, stride);
            &&& g.cells() == x[2] * x[3]
            &&& g.window() == kernel.0 * kernel.1
            &&& dims::product(x) == (x[0] * x[1]) * g.cells()
            &&& dims::product(pool_shape(x, g)) == (x[0] * x[1]) * g.count()
            &&& 0 <= g.cells()
            &&& 0 <= g.window()
            &&& 0 <= g.count()
            &&& 0 <= x[0] * x[1]
        }),
{
    let g = pool_patches(x, kernel, stride);
    matmul::lemma_product4(x);
    matmul::lemma_product4(pool_shape(x, g));
    assert(1 * x[2] == x[2]);
    assert(1 * kernel.0 == kernel.0);
    assert(0 <= g.cells() && 0 <= g.window() && 0 <= g.count() && 0 <= x[0] * x[1]) by (nonlinear_arith)
        requires
            g.cells() == x[2] * x[3],
            g.window() == kernel.0 * kernel.1,
            g.count() == g.out_h * g.out_w,
    ;
}

pub open spec fn is_max_pool2d<F: Fpu>(
    f: &F,
    input: Tensor,
    kernel: (usize, usize),
    stride: (usize, usize),
    t: Tensor,
    mask: Seq<bool>,
) -> bool {
    exists|x: NdArray<u32>, y: NdArray<u32>|
        autograd::reads_as(f, input.storage, x) && #[trigger] pooled(
            x,
            pool_patches(input.spec_shape(), kernel, stride),
            y,
            mask,
        ) && t.storage == TensorStorage::F32(Arc::new(y))
}

/// `t` holds the largest element of each window.
pub open spec fn pools<F: Fpu>(f: &F, input: Tensor, kernel: (usize, usize), stride: (usize, usize), t: Tensor) -> bool {
    exists|mask: Seq<bool>| #[trigger] is_max_pool2d(f, input, kernel, stride, t, mask)
}

/// `t` is the pooling of an input.
pub open spec fn pool_result<F: Fpu>(
    f: &F,
    input: Tensor,
    kernel: (usize, usize),
    stride: (usize, usize),
    mode: GradMode,
    t: Tensor,
) -> bool {
    &&& t.wf()
    &&& t.grad is None
    &&& t.spec_shape() == pool_shape(input.spec_shape(), pool_patches(input.spec_shape(), kernel, stride))
    &&& if mode.no_grad() {
        t.is_leaf(t.storage, false) && pools(f, input, kernel, stride, t)
    } else {
        &&& t.requires_grad
        &&& t.op matches Some(op) && *op matches BackwardOp::MaxPool2d(back) && back.suits(
            t.spec_shape(),
            seq![input.spec_shape()],
        ) && back.kernel == kernel && back.stride == stride && is_max_pool2d(f, input, kernel, stride, t, back.mask@)
    }
}

/// The largest element of each window of `input[B, C, H, W]`; of a window without
/// elements, the value with which the search starts. The result is recorded unless the
/// mode forbids it.
pub fn max_pool2d<F: Fpu>(
    input: &Tensor,
    kernel_size: (usize, usize),
    stride: (usize, usize),
    mode: &GradMode,
    f: &F,
) -> (t: Tensor)
    requires
        input.wf(),
        pool_ready(input.spec_shape(), kernel_size, stride),
        input.spec_shape()[0] > 0 && input.spec_shape()[1] > 0 ==> corners_inside(
            pool_patches(input.spec_shape(), kernel_size, stride),
        ),
    ensures
        pool_result(f, *input, kernel_size, stride, *mode, t),
{
    let shape: Vec<usize> = input.shape_vec();
    let g = Patches {
        channels: 1,
        height: shape[2],
        width: shape[3],
        kh: kernel_size.0,
        kw: kernel_size.1,
        sh: stride.0,
        sw: stride.1,
        out_h: (shape[2] - kernel_size.0) / stride.0 + 1,
        out_w: (shape[3] - kernel_size.1) / stride.1 + 1,
    };
    let x = input.data_arc(f);
    let x_len: usize = x.data.len();
    let table: Vec<usize> = g.table();
    let empty: bool = kernel_size.0 == 0 || kernel_size.1 == 0;
    proof {
        lemma_pool_sizes(shape@, kernel_size, stride);
        matmul::lemma_fits4(shape@);
        assert(empty ==> g.window() == 0) by (nonlinear_arith)
            requires
                g.window() == kernel_size.0 * kernel_size.1,
                empty ==> kernel_size.0 == 0 || kernel_size.1 == 0,
        ;
        assert(shape@[0] * shape@[1] > 0 ==> shape@[0] > 0 && shape@[1] > 0) by (nonlinear_arith);
    }
    let planes: usize = shape[0] * shape[1];
    let size: usize = shape[2] * shape[3];
    let ghost count = g.count();
    let mut data: Vec<u32> = Vec::new();
    let mut mask: Vec<bool> = Vec::new();
    proof {
        assert(0 * size == 0 && 0 * count == 0) by (nonlinear_arith);
    }
    for b in 0..planes
        invariant
            g.wf(),
            empty ==> g.window() == 0,
            !empty ==> g.kh > 0 && g.kw > 0,
            planes > 0 ==> corners_inside(g),
            g.channels == 1,
            size == g.cells(),
            count == g.count(),
            count >= 0,
            x_len == x.data@.len() == planes * size,
            table@.len() == g.count() * g.window(),
            forall|p: int, e: int|
                0 <= p < g.count() && 0 <= e < g.window() ==> #[trigger] table@[p * g.window() + e] == g.cell(p, e),
            forall|i: int| 0 <= i < table@.len() ==> #[trigger] table@[i] < g.cells(),
            data@.len() == b * count,
            mask@.len() == b * size,
            forall|a: int|
                0 <= a < b ==> plane_done(
                    #[trigger] matmul::flat_row(x.data@, a, size as int),
                    g,
                    matmul::flat_row(data@, a, count),
                    mask_part(mask@, a, size as int),
                ),
    {
        proof {
            lemma_part(b as int, planes as int, size as int);
        }
        let plane = vstd::slice::slice_subrange(x.data.as_slice(), b * size, b * size + size);
        let (mut out, mut marked) = if empty {
            pool_nothing(size, &g, Ghost(plane@))
        } else {
            pool_plane(plane, &g, &table)
        };
        let ghost before = data@;
        let ghost part = out@;
        let ghost mask_before = mask@;
        let ghost mask_now = marked@;
        data.append(&mut out);
        mask.append(&mut marked);
        proof {
            assert((b + 1) * size == b * size + size && (b + 1) * count == b * count + count) by (nonlinear_arith);
            assert forall|a: int| 0 <= a < b + 1 implies plane_done(
                #[trigger] matmul::flat_row(x.data@, a, size as int),
                g,
                matmul::flat_row(data@, a, count),
                mask_part(mask@, a, size as int),
            ) by {
                if a < b {
                    activation::lemma_rows_stay(before, part, b as int, a, count);
                    lemma_part(a, b as int, size as int);
                    assert(mask_part(mask@, a, size as int) =~= mask_part(mask_before, a, size as int));
                } else {
                    assert(matmul::flat_row(data@, a, count) =~= part);
                    assert(mask_part(mask@, a, size as int) =~= mask_now);
                }
            }
        }
    }
    let out_shape: Vec<usize> = vec![shape[0], shape[1], g.out_h, g.out_w];
    assert(out_shape@ =~= pool_shape(shape@, g));
    let y = NdArray { shape: out_shape, data };
    assert(pooled(*x, g, y, mask@));
    assert(seq![input.spec_shape()] =~= seq![shape@]);
    if is_no_grad(mode) {
        let t = Tensor::from_storage_no_grad(TensorStorage::F32(Arc::new(y)));
        assert(is_max_pool2d(f, *input, kernel_size, stride, t, mask@));
        return t;
    }
    Tensor::recorded(y, BackwardOp::MaxPool2d(MaxPool2dBackward { shape, mask, kernel: kernel_size, stride }))
}

} // verus!
