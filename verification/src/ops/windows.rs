use crate::array::NdArray;
use crate::autograd;
use crate::autograd::{GradMode, Tensor, TensorStorage};
use crate::constants;
use crate::dims;
use crate::fixed;
use crate::float_bits;
use crate::fpu;
use crate::fpu::Fpu;
use crate::ops::convolution;
use crate::ops::convolution::LOWEST;
use crate::ops::mat;
use crate::ops::matmul;
use crate::ops::matvec;
use crate::ops::patches;
use crate::ops::patches::Patches;
use crate::rounding;
use std::sync::Arc;
use vstd::prelude::*;

verus! {

/// The position of an element of an array with four axes.
proof fn lemma_ravel4(shape: Seq<usize>, a: usize, b: usize, c: usize, d: usize)
    requires
        shape.len() == 4,
    ensures
        dims::ravel(shape, seq![a, b, c, d]) == ((a * shape[1] + b) * shape[2] + c) * shape[3] + d,
{
    let i4 = seq![a, b, c, d];
    let i3 = i4.drop_last();
    let i2 = i3.drop_last();
    let i1 = i2.drop_last();
    let s3 = shape.drop_last();
    let s2 = s3.drop_last();
    let s1 = s2.drop_last();
    assert(dims::ravel(s1.drop_last(), i1.drop_last()) == 0);
    assert(0 * s1.last() == 0) by (nonlinear_arith);
    assert(dims::ravel(s1, i1) == a);
    assert(dims::ravel(s2, i2) == a * shape[1] + b);
    assert(dims::ravel(s3, i3) == (a * shape[1] + b) * shape[2] + c);
}

/// The element of an image that lies at a cell of one of its planes.
proof fn lemma_image_cell(x: &NdArray<u32>, b: usize, c: usize, y: usize, z: usize)
    requires
        x.wf(),
        x.shape@.len() == 4,
        b < x.shape@[0],
        c < x.shape@[1],
        y < x.shape@[2],
        z < x.shape@[3],
    ensures
        ({
            let cells = (x.shape@[1] * x.shape@[2]) * x.shape@[3];
            let k = (c * x.shape@[2] + y) * x.shape@[3] + z;
            &&& 0 <= k < cells
            &&& 0 <= b * cells
            &&& b * cells + cells <= x.data@.len()
            &&& matmul::flat_row(x.data@, b as int, cells)[k] == x.at(seq![b, c, y, z])
        }),
{
    let (n, h, w) = (x.shape@[1] as int, x.shape@[2] as int, x.shape@[3] as int);
    let cells = (n * h) * w;
    let k = (c * h + y) * w + z;
    mat::lemma_row_major(c as int, y as int, n, h);
    mat::lemma_row_major(c * h + y, z as int, n * h, w);
    mat::lemma_row_major(b as int, k, x.shape@[0] as int, cells);
    matmul::lemma_product4(x.shape@);
    lemma_ravel4(x.shape@, b, c, y, z);
    assert(((x.shape@[0] * n) * h) * w == x.shape@[0] * cells) by (nonlinear_arith)
        requires
            cells == (n * h) * w,
    ;
    assert(((b * n + c) * h + y) * w + z == b * cells + k) by (nonlinear_arith)
        requires
            cells == (n * h) * w,
            k == (c * h + y) * w + z,
    ;
}

/// Where an element of a window lies, in terms of its channel and its offsets.
proof fn lemma_window_cell(g: Patches, i: int, j: int, c: int, y: int, z: int)
    requires
        g.wf(),
        0 <= i < g.out_h,
        0 <= j < g.out_w,
        0 <= c < g.channels,
        0 <= y < g.kh,
        0 <= z < g.kw,
    ensures
        0 <= i * g.out_w + j < g.count(),
        0 <= (c * g.kh + y) * g.kw + z < g.window(),
        0 <= i * g.sh,
        0 <= j * g.sw,
        i * g.sh + y < g.height,
        j * g.sw + z < g.width,
        g.cell(i * g.out_w + j, (c * g.kh + y) * g.kw + z) == (c * g.height + (i * g.sh + y)) * g.width + (j * g.sw + z),
{
    mat::lemma_row_major(i, j, g.out_h as int, g.out_w as int);
    mat::lemma_row_major(c, y, g.channels as int, g.kh as int);
    mat::lemma_row_major(c * g.kh + y, z, g.channels * g.kh, g.kw as int);
    patches::lemma_split(i * g.out_w + j, i, j, g.out_w as int);
    patches::lemma_split((c * g.kh + y) * g.kw + z, c * g.kh + y, z, g.kw as int);
    patches::lemma_split(c * g.kh + y, c, y, g.kh as int);
    g.lemma_cell_at(i, j, c, y, z);
}

/// The element of an image at a row and a column that count from the corner of its margin; the
/// margin is zero.
pub open spec fn with_margin(x: NdArray<u32>, pad: (usize, usize), b: usize, c: usize, y: int, z: int) -> u32 {
    if pad.0 <= y < pad.0 + x.shape@[2] && pad.1 <= z < pad.1 + x.shape@[3] {
        x.at(seq![b, c, (y - pad.0) as usize, (z - pad.1) as usize])
    } else {
        fpu::ZERO
    }
}

/// A convolution, element by element: the filter is multiplied with the window that starts as
/// many strides down and to the right as the element stands in the result, over all channels,
/// and the filter's bias is added. The window is the result `r.0`, and the product `r.1`.
#[verifier::rlimit(40)]
pub proof fn law_filters_see_their_windows<F: Fpu>(
    f: &F,
    rd: spec_fn(int, int) -> int,
    input: Tensor,
    weight: Tensor,
    bias: Option<Tensor>,
    stride: (usize, usize),
    pad: (usize, usize),
    mode: GradMode,
    t: Tensor,
    x: NdArray<u32>,
    w: NdArray<u32>,
    bs: NdArray<u32>,
    b: usize,
    o: usize,
    i: usize,
    j: usize,
) -> (r: (Seq<u32>, u32))
    requires
        rounding::rounds_by(f, rd),
        fpu::fixed_answers(f),
        input.wf(),
        weight.wf(),
        convolution::conv_ready(
            input.spec_shape(),
            weight.spec_shape(),
            match bias {
                None => None,
                Some(b) => Some(b.spec_shape()),
            },
            stride,
            pad,
        ),
        convolution::conv2d_result(f, input, weight, bias, stride, pad, mode, t),
        autograd::reads_as(f, input.storage, x),
        autograd::reads_as(f, weight.storage, w),
        bias matches Some(c) ==> autograd::reads_as(f, c.storage, bs),
        b < t.spec_shape()[0],
        o < t.spec_shape()[1],
        i < t.spec_shape()[2],
        j < t.spec_shape()[3],
    ensures
        ({
            let (n, kh, kw) = (input.spec_shape()[1], weight.spec_shape()[2], weight.spec_shape()[3]);
            let v = t.storage->F32_0.at(seq![b, o, i, j]);
            &&& t.storage is F32
            &&& r.0.len() == (n * kh) * kw
            &&& forall|c: usize, y: usize, z: usize|
                c < n && y < kh && z < kw ==> #[trigger] window_element(r.0, kh, kw, c, y, z) == with_margin(
                    x,
                    pad,
                    b,
                    c,
                    i * stride.0 + y,
                    j * stride.1 + z,
                )
            &&& fpu::dots(f, matmul::flat_row(w.data@, o as int, (n * kh) * kw), r.0, r.1)
            &&& bias is None ==> v == r.1
            &&& bias is Some ==> rounding::is_sum(rd, r.1, bs.data@[o as int], v)
        }),
{
    let (xs, ws) = (input.spec_shape(), weight.spec_shape());
    let g = convolution::conv_patches(xs, ws, stride, pad);
    let (a, p, v, c, y) = choose|
        x: NdArray<u32>,
        xp: NdArray<u32>,
        w: NdArray<u32>,
        b: Option<Arc<NdArray<u32>>>,
        y: NdArray<u32>,
    |
        autograd::reads_as(f, input.storage, x) && #[trigger] convolution::is_padded(x, pad, xp) && autograd::reads_as(
            f,
            weight.storage,
            w,
        ) && convolution::bias_reads_as(f, bias, b) && #[trigger] convolution::convolved(f, xp, w, b, g, y) && t.storage
            == TensorStorage::F32(Arc::new(y));
    fixed::lemma_one_reading(f, input.storage, &a, &x);
    fixed::lemma_one_reading(f, weight.storage, &v, &w);
    if let Some(q) = bias {
        fixed::lemma_one_reading(f, q.storage, &*c->0, &bs);
    }
    let (filters, count) = (ws[0] as int, g.count());
    let place = i * g.out_w + j;
    let image = matmul::flat_row(p.data@, b as int, g.cells());
    let window = convolution::patch(image, g, place);
    mat::lemma_row_major(i as int, j as int, g.out_h as int, g.out_w as int);
    lemma_out_cell(&y, filters, count, b, o, i, j);
    let part = matmul::flat_row(y.data@, b as int, filters * count);
    assert(convolution::sample_convolved(f, image, v.data@, c, g, filters, part));
    let e = part[o * count + place];
    assert(convolution::filtered(
        f,
        matmul::flat_row(v.data@, o as int, g.window()),
        window,
        convolution::bias_of(c, o as int),
        part[o * count + place],
    ));
    assert forall|k: usize, l: usize, m: usize| k < xs[1] && l < ws[2] && m < ws[3] implies #[trigger] window_element(
        window,
        ws[2],
        ws[3],
        k,
        l,
        m,
    ) == with_margin(x, pad, b, k, i * stride.0 + l, j * stride.1 + m) by {
        lemma_window_cell(g, i as int, j as int, k as int, l as int, m as int);
        let (yy, zz) = ((i * stride.0 + l) as usize, (j * stride.1 + m) as usize);
        lemma_image_cell(&p, b, k, yy, zz);
        let at = seq![b, k, yy, zz];
        assert(dims::valid_index(p.shape@, at));
        assert(p.at(at) == with_margin(a, pad, b, k, yy as int, zz as int));
        lemma_same_margin(a, x, pad, b, k, yy as int, zz as int);
    }
    let product = match c {
        None => e,
        Some(q) => choose|z: u32|
            fpu::dots(f, matmul::flat_row(v.data@, o as int, g.window()), window, z) && #[trigger] fpu::adds(
                f,
                z,
                q.data@[o as int],
                e,
            ),
    };
    (window, product)
}

/// Arrays of the same elements have the same margin and inside.
proof fn lemma_same_margin(a: NdArray<u32>, x: NdArray<u32>, pad: (usize, usize), b: usize, c: usize, y: int, z: int)
    requires
        a.shape@ == x.shape@,
        a.data@ == x.data@,
    ensures
        with_margin(a, pad, b, c, y, z) == with_margin(x, pad, b, c, y, z),
{
}

/// The element of a window at a channel and offsets.
pub open spec fn window_element(window: Seq<u32>, kh: usize, kw: usize, c: usize, y: usize, z: usize) -> u32 {
    window[(c * kh + y) * kw + z]
}

/// An element of a result, among those of its image.
proof fn lemma_out_cell(y: &NdArray<u32>, filters: int, count: int, b: usize, o: usize, i: usize, j: usize)
    requires
        y.wf(),
        y.shape@.len() == 4,
        filters == y.shape@[1],
        count == y.shape@[2] * y.shape@[3],
        b < y.shape@[0],
        o < y.shape@[1],
        i < y.shape@[2],
        j < y.shape@[3],
    ensures
        0 <= o * count + (i * y.shape@[3] + j) < filters * count,
        matmul::flat_row(y.data@, b as int, filters * count)[o * count + (i * y.shape@[3] + j)] == y.at(seq![b, o, i, j]),
{
    lemma_image_cell(y, b, o, i, j);
    let (h, w) = (y.shape@[2] as int, y.shape@[3] as int);
    assert((filters * h) * w == filters * count) by (nonlinear_arith)
        requires
            count == h * w,
    ;
    assert((o * h + i) * w + j == o * count + (i * w + j)) by (nonlinear_arith)
        requires
            count == h * w,
    ;
}

/// Pooling, element by element: the result is the greatest number of the window that starts as
/// many strides down and to the right as the element stands in the result; windows of finite
/// numbers, none of them empty. The place of the greatest in its window is the result.
#[verifier::rlimit(40)]
pub proof fn law_greatest_of_each_window<F: Fpu>(
    f: &F,
    input: Tensor,
    kernel: (usize, usize),
    stride: (usize, usize),
    mode: GradMode,
    t: Tensor,
    x: NdArray<u32>,
    b: usize,
    c: usize,
    i: usize,
    j: usize,
) -> (r: (usize, usize))
    requires
        fpu::fixed_answers(f),
        input.wf(),
        convolution::pool_ready(input.spec_shape(), kernel, stride),
        convolution::pool_result(f, input, kernel, stride, mode, t),
        autograd::reads_as(f, input.storage, x),
        0 < kernel.0,
        0 < kernel.1,
        b < t.spec_shape()[0],
        c < t.spec_shape()[1],
        i < t.spec_shape()[2],
        j < t.spec_shape()[3],
        forall|k: int| 0 <= k < x.data@.len() ==> float_bits::is_finite(#[trigger] x.data@[k]),
    ensures
        t.storage is F32,
        r.0 < kernel.0,
        r.1 < kernel.1,
        rounding::value(t.storage->F32_0.at(seq![b, c, i, j])) == rounding::value(pooled_element(x, stride, b, c, i, j, r.0, r.1)),
        forall|y: usize, z: usize|
            y < kernel.0 && z < kernel.1 ==> rounding::value(#[trigger] pooled_element(x, stride, b, c, i, j, y, z))
                <= rounding::value(t.storage->F32_0.at(seq![b, c, i, j])),
{
    let xs = input.spec_shape();
    let g = convolution::pool_patches(xs, kernel, stride);
    let mask = choose|mask: Seq<bool>| #[trigger] convolution::is_max_pool2d(f, input, kernel, stride, t, mask);
    let (a, out) = choose|x: NdArray<u32>, y: NdArray<u32>|
        autograd::reads_as(f, input.storage, x) && #[trigger] convolution::pooled(x, g, y, mask) && t.storage
            == TensorStorage::F32(Arc::new(y));
    fixed::lemma_one_reading(f, input.storage, &a, &x);
    convolution::lemma_pool_sizes(xs, kernel, stride);
    constants::law_constants_are_exact();
    let q = b * xs[1] + c;
    let place = i * g.out_w + j;
    mat::lemma_row_major(b as int, c as int, xs[0] as int, xs[1] as int);
    mat::lemma_row_major(i as int, j as int, g.out_h as int, g.out_w as int);
    let plane = matmul::flat_row(a.data@, q, g.cells());
    let row = matmul::flat_row(out.data@, q, g.count());
    assert(convolution::plane_done(plane, g, row, convolution::mask_part(mask, q, g.cells())));
    let choice = choose|choice: Seq<int>|
        choice.len() == g.count() && #[trigger] convolution::plane_pooled(plane, g, choice, row) && convolution::plane_marked(
            g,
            choice,
            convolution::mask_part(mask, q, g.cells()),
        );
    let window = convolution::patch(plane, g, place);
    let best = choice[place];
    assert(matvec::is_first_best(window, LOWEST, choice[place]));
    lemma_plane_cell(&out, q, b, c, i, j);
    let v = out.at(seq![b, c, i, j]);
    assert(v == matvec::best_score(window, LOWEST, best));
    assert forall|y: usize, z: usize| y < kernel.0 && z < kernel.1 implies 0 <= y * kernel.1 + z < window.len() && window[y
        * kernel.1 + z] == #[trigger] pooled_element(x, stride, b, c, i, j, y, z) && float_bits::is_finite(
        window[y * kernel.1 + z],
    ) by {
        lemma_window_cell(g, i as int, j as int, 0, y as int, z as int);
        let (yy, zz) = ((i * stride.0 + y) as usize, (j * stride.1 + z) as usize);
        lemma_plane_cell(&a, q, b, c, yy, zz);
        assert(0 * g.kh == 0 && 0 * g.height == 0) by (nonlinear_arith);
        dims::lemma_ravel_bound(a.shape@, seq![b, c, yy, zz]);
    }
    let k: int = if matvec::any_above(window, LOWEST) {
        best
    } else {
        0
    };
    assert(window.len() > 0) by (nonlinear_arith)
        requires
            window.len() == kernel.0 * kernel.1,
            0 < kernel.0,
            0 < kernel.1,
    ;
    patches::lemma_position(k, kernel.0 as int, kernel.1 as int);
    let (y, z) = ((k / kernel.1 as int) as usize, (k % kernel.1 as int) as usize);
    assert(pooled_element(x, stride, b, c, i, j, y, z) == window[y * kernel.1 + z]);
    assert(float_bits::is_finite(window[k]));
    rounding::lemma_finite_is_number(window[k]);
    rounding::lemma_finite_is_number(LOWEST);
    rounding::lemma_values_order(window[k], LOWEST);
    assert(rounding::value(window[k]) == rounding::value(v)) by {
        if !matvec::any_above(window, LOWEST) {
            assert(!float_bits::above(window[k], LOWEST));
        }
    }
    assert forall|l: usize, m: usize| l < kernel.0 && m < kernel.1 implies rounding::value(
        #[trigger] pooled_element(x, stride, b, c, i, j, l, m),
    ) <= rounding::value(v) by {
        let n = l * kernel.1 + m;
        assert(window[n] == pooled_element(x, stride, b, c, i, j, l, m));
        rounding::lemma_finite_is_number(window[n]);
        rounding::lemma_values_order(window[n], window[k]);
        rounding::lemma_values_order(window[n], LOWEST);
        assert(!float_bits::above(window[n], v));
    }
    (y, z)
}

/// The element of a window at offsets.
pub open spec fn pooled_element(
    x: NdArray<u32>,
    stride: (usize, usize),
    b: usize,
    c: usize,
    i: usize,
    j: usize,
    y: usize,
    z: usize,
) -> u32 {
    x.at(seq![b, c, (i * stride.0 + y) as usize, (j * stride.1 + z) as usize])
}

/// An element of an array with four axes, among those of its plane.
pub proof fn lemma_plane_cell(x: &NdArray<u32>, q: int, b: usize, c: usize, y: usize, z: usize)
    requires
        x.wf(),
        x.shape@.len() == 4,
        q == b * x.shape@[1] + c,
        b < x.shape@[0],
        c < x.shape@[1],
        y < x.shape@[2],
        z < x.shape@[3],
    ensures
        ({
            let cells = x.shape@[2] * x.shape@[3];
            let k = y * x.shape@[3] + z;
            &&& 0 <= k < cells
            &&& matmul::flat_row(x.data@, q, cells)[k] == x.at(seq![b, c, y, z])
        }),
{
    let (n, h, w) = (x.shape@[1] as int, x.shape@[2] as int, x.shape@[3] as int);
    let cells = h * w;
    let k = y * w + z;
    mat::lemma_row_major(y as int, z as int, h, w);
    mat::lemma_row_major(b as int, c as int, x.shape@[0] as int, n);
    mat::lemma_row_major(q, k, x.shape@[0] * n, cells);
    matmul::lemma_product4(x.shape@);
    lemma_ravel4(x.shape@, b, c, y, z);
    assert(((x.shape@[0] * n) * h) * w == (x.shape@[0] * n) * cells) by (nonlinear_arith)
        requires
            cells == h * w,
    ;
    assert(((b * n + c) * h + y) * w + z == q * cells + k) by (nonlinear_arith)
        requires
            cells == h * w,
            q == b * n + c,
            k == y * w + z,
    ;
}

} // verus!
