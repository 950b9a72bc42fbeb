use crate::array::NdArray;
use crate::autograd;
use crate::autograd::{GradMode, Tensor, TensorStorage};
use crate::dims;
use crate::fixed;
use crate::float_bits;
use crate::fpu;
use crate::fpu::Fpu;
use crate::kv_cache;
use crate::layers::attention::attend;
use crate::layers::attention::cache::KVCacheInner;
use crate::layers::attention::causal;
use crate::layers::attention::encoding;
use crate::layers::attention::heads;
use crate::layers::attention::heads::HeadSplit;
use crate::layers::attention::prefill;
use crate::layers::attention::prefill::Prefilling;
use crate::layers::attention::self_attention::SelfAttention;
use crate::ops::matmul;
use crate::ops::shape;
use crate::precision::DType;
use vstd::prelude::*;

verus! {

/// Where an element stands among those of four axes.
proof fn lemma_ravel4(shape: Seq<usize>, index: Seq<usize>)
    requires
        shape.len() == 4,
        index.len() == 4,
    ensures
        dims::ravel(shape, index) == ((index[0] * shape[1] + index[1]) * shape[2] + index[2]) * shape[3] + index[3],
{
    let (s3, i3) = (shape.drop_last(), index.drop_last());
    let (s2, i2) = (s3.drop_last(), i3.drop_last());
    let (s1, i1) = (s2.drop_last(), i2.drop_last());
    assert(dims::ravel(s1.drop_last(), i1.drop_last()) == 0);
    assert(0 * s1.last() == 0) by (nonlinear_arith);
    assert(dims::ravel(s1, i1) == index[0]);
    assert(dims::ravel(s2, i2) == index[0] * shape[1] + index[1]);
    assert(dims::ravel(s3, i3) == (index[0] * shape[1] + index[1]) * shape[2] + index[2]);
}

/// `r` holds the features of head `h` for a token.
pub open spec fn is_head<F: Fpu>(f: &F, x: Seq<u32>, w: Seq<u32>, h: int, d: int, r: Seq<u32>) -> bool {
    &&& r.len() == d
    &&& forall|c: int| 0 <= c < d ==> fpu::dots(f, x, matmul::flat_row(w, h * d + c, x.len() as int), #[trigger] r[c])
}

/// The features of the heads are products of the features of the token.
proof fn lemma_head_row<F: Fpu>(
    f: &F,
    x: Tensor,
    w: Tensor,
    n: usize,
    d: usize,
    mode: GradMode,
    split: HeadSplit,
    xa: &NdArray<u32>,
    wa: &NdArray<u32>,
    b: int,
    s: int,
    h: int,
)
    requires
        fpu::fixed_answers(f),
        mode.no_grad(),
        x.spec_shape().len() == 3,
        n * d <= usize::MAX,
        w.spec_shape() == seq![(n * d) as usize, x.spec_shape()[2]],
        x.spec_shape()[1] > 1,
        x.spec_shape()[2] > 0,
        heads::is_split(f, x, w, n, d, mode, split),
        autograd::reads_as(f, x.storage, *xa),
        autograd::reads_as(f, w.storage, *wa),
        0 <= b < x.spec_shape()[0],
        0 <= s < x.spec_shape()[1],
        0 <= h < n,
        d > 0,
    ensures
        split.heads.storage is F32,
        is_head(
            f,
            matmul::flat_row(xa.data@, b * x.spec_shape()[1] + s, x.spec_shape()[2] as int),
            wa.data@,
            h,
            d as int,
            matmul::flat_row(
                split.heads.storage->F32_0.data@,
                causal::head_at(b, h, s, n as int, x.spec_shape()[1] as int),
                d as int,
            ),
        ),
{
    let xs = x.spec_shape();
    let (batch, steps, e) = (xs[0] as int, xs[1] as int, xs[2] as int);
    let (x2, w2, z) = choose|x2: NdArray<u32>, y2: NdArray<u32>, z: NdArray<u32>|
        autograd::reads_as(f, x.storage, x2) && autograd::reads_as(f, w.storage, y2) && #[trigger] matmul::multiplied(f, x2, y2, z)
            && split.product.storage == TensorStorage::F32(std::sync::Arc::new(z));
    fixed::lemma_one_reading(f, x.storage, &x2, xa);
    fixed::lemma_one_reading(f, w.storage, &w2, wa);
    dims::lemma_product3(xs);
    let m = xa.data@.len() as int / e;
    assert(m == batch * steps && m > 1) by (nonlinear_arith)
        requires
            m == ((batch * steps) * e) / e,
            batch > 0,
            steps > 1,
            e > 0,
    ;
    let row = b * steps + s;
    assert(0 <= row < m) by (nonlinear_arith)
        requires
            0 <= b < batch,
            0 <= s < steps,
            row == b * steps + s,
            m == batch * steps,
    ;
    let nd = n * d;
    let own = split.split.storage->F32_0;
    let out = split.heads.storage->F32_0;
    let four = seq![xs[0], xs[1], n, d];
    let at = causal::head_at(b, h, s, n as int, steps);
    causal::lemma_head_at(b, h, s, batch, n as int, steps);
    assert(out.shape@ =~= seq![xs[0], n, xs[1], d]);
    matmul::lemma_product4(out.shape@);
    let total = (batch * n) * steps;
    assert(0 <= at * d && at * d + d <= total * d) by (nonlinear_arith)
        requires
            0 <= at < total,
            d > 0,
    ;
    let r = matmul::flat_row(out.data@, at, d as int);
    let xrow = matmul::flat_row(xa.data@, row, e);
    assert(row * e >= 0 && row * e + e <= m * e) by (nonlinear_arith)
        requires
            0 <= row < m,
            e > 0,
    ;
    assert(m * e == xa.data@.len());
    assert(xrow.len() == e);
    assert forall|c: int| 0 <= c < d implies fpu::dots(
        f,
        xrow,
        matmul::flat_row(wa.data@, h * d + c, e),
        #[trigger] r[c],
    ) by {
        let j = h * d + c;
        assert(0 <= j < nd) by (nonlinear_arith)
            requires
                0 <= h < n,
                0 <= c < d,
                j == h * d + c,
                nd == n * d,
        ;
        assert(matmul::row_product(f, m, nd, matmul::flat_row(x2.data@, row, e), matmul::flat_row(w2.data@, j, e), z.data@[row
            * nd + j]));
        let index = seq![b as usize, s as usize, h as usize, c as usize];
        assert(dims::valid_index(four, index));
        let turned = seq![b as usize, h as usize, s as usize, c as usize];
        assert(dims::permuted_shape(index, heads::exchange()) =~= turned);
        assert(own.at(index) == out.at(turned));
        lemma_ravel4(four, index);
        lemma_ravel4(out.shape@, turned);
        assert((row * n + h) * d + c == row * nd + j) by (nonlinear_arith)
            requires
                j == h * d + c,
                nd == n * d,
        ;
        assert(r[c] == out.data@[at * d + c]);
    }
}

/// Tokens with the same features have the same heads.
proof fn lemma_same_head<F: Fpu>(f: &F, x: Seq<u32>, w: Seq<u32>, h: int, d: int, r: Seq<u32>, t: Seq<u32>)
    requires
        fpu::fixed_answers(f),
        is_head(f, x, w, h, d, r),
        is_head(f, x, w, h, d, t),
    ensures
        r == t,
{
    assert forall|c: int| 0 <= c < d implies #[trigger] r[c] == t[c] by {
        let row = matmul::flat_row(w, h * d + c, x.len() as int);
        assert(fpu::dots(f, x, row, r[c]) && fpu::dots(f, x, row, t[c]));
    }
    assert(r =~= t);
}

/// Tokens with the same features have the same heads, in whichever pass they stand.
proof fn lemma_alike_heads<F: Fpu>(
    f: &F,
    x: Tensor,
    y: Tensor,
    w: Tensor,
    n: usize,
    d: usize,
    mode: GradMode,
    xs: HeadSplit,
    ys: HeadSplit,
    xa: &NdArray<u32>,
    ya: &NdArray<u32>,
    b: int,
    s: int,
    r: int,
    h: int,
)
    requires
        fpu::fixed_answers(f),
        mode.no_grad(),
        x.spec_shape().len() == 3,
        y.spec_shape() == x.spec_shape().update(1, y.spec_shape()[1]),
        n * d <= usize::MAX,
        w.spec_shape() == seq![(n * d) as usize, x.spec_shape()[2]],
        x.spec_shape()[1] > 1,
        y.spec_shape()[1] > 1,
        x.spec_shape()[2] > 0,
        heads::is_split(f, x, w, n, d, mode, xs),
        heads::is_split(f, y, w, n, d, mode, ys),
        autograd::reads_as(f, x.storage, *xa),
        autograd::reads_as(f, y.storage, *ya),
        0 <= b < x.spec_shape()[0],
        0 <= s < x.spec_shape()[1],
        0 <= r < y.spec_shape()[1],
        0 <= h < n,
        d > 0,
        matmul::flat_row(xa.data@, b * x.spec_shape()[1] + s, x.spec_shape()[2] as int) == matmul::flat_row(
            ya.data@,
            b * y.spec_shape()[1] + r,
            x.spec_shape()[2] as int,
        ),
    ensures
        xs.heads.storage is F32,
        ys.heads.storage is F32,
        matmul::flat_row(
            xs.heads.storage->F32_0.data@,
            causal::head_at(b, h, s, n as int, x.spec_shape()[1] as int),
            d as int,
        ) == matmul::flat_row(
            ys.heads.storage->F32_0.data@,
            causal::head_at(b, h, r, n as int, y.spec_shape()[1] as int),
            d as int,
        ),
{
    let (x2, wa, z) = choose|x2: NdArray<u32>, y2: NdArray<u32>, z: NdArray<u32>|
        autograd::reads_as(f, x.storage, x2) && autograd::reads_as(f, w.storage, y2) && #[trigger] matmul::multiplied(f, x2, y2, z)
            && xs.product.storage == TensorStorage::F32(std::sync::Arc::new(z));
    lemma_head_row(f, x, w, n, d, mode, xs, xa, &wa, b, s, h);
    lemma_head_row(f, y, w, n, d, mode, ys, ya, &wa, b, r, h);
    lemma_same_head(
        f,
        matmul::flat_row(xa.data@, b * x.spec_shape()[1] + s, x.spec_shape()[2] as int),
        wa.data@,
        h,
        d as int,
        matmul::flat_row(
            xs.heads.storage->F32_0.data@,
            causal::head_at(b, h, s, n as int, x.spec_shape()[1] as int),
            d as int,
        ),
        matmul::flat_row(
            ys.heads.storage->F32_0.data@,
            causal::head_at(b, h, r, n as int, y.spec_shape()[1] as int),
            d as int,
        ),
    );
}

/// What a cache in some precision keeps of a value.
pub open spec fn kept(dtype: DType, v: u32) -> u32 {
    match dtype {
        DType::F32 => v,
        DType::F16 => float_bits::f16_widened(float_bits::f16_narrowed(v) as u16) as u32,
        DType::BF16 => float_bits::bf16_widened(float_bits::bf16_narrowed(v) as u16) as u32,
        DType::I8 => 0,
    }
}

/// What is read at a place of a cache in floating-point numbers.
pub open spec fn stored_value(s: TensorStorage, index: Seq<usize>) -> u32 {
    match s {
        TensorStorage::F32(x) => x.at(index),
        TensorStorage::F16(x) => float_bits::f16_widened(x.at(index)) as u32,
        TensorStorage::BF16(x) => float_bits::bf16_widened(x.at(index)) as u32,
        TensorStorage::I8(..) => 0,
    }
}

/// The row of a head at a position of a cache.
pub open spec fn stored_row(s: TensorStorage, b: int, h: int, p: int) -> Seq<u32> {
    Seq::new(
        s.spec_shape()[3] as nat,
        |c: int| stored_value(s, seq![b as usize, h as usize, p as usize, c as usize]),
    )
}

/// What is read from a cache after a range of positions has been written.
proof fn lemma_written<F: Fpu>(
    f: &F,
    before: TensorStorage,
    src: &NdArray<u32>,
    start: int,
    after: TensorStorage,
    ra: &NdArray<u32>,
    index: Seq<usize>,
)
    requires
        kv_cache::range_written(f, before, *src, start, after),
        autograd::reads_as(f, after, *ra),
        before.spec_dtype().float(),
        before.spec_shape().len() == 4,
        src.wf(),
        src.shape@.len() == 4,
        src.shape@ == before.spec_shape().update(2, src.shape@[2]),
        0 <= start,
        dims::valid_index(before.spec_shape(), index),
    ensures
        ra.shape@ == before.spec_shape(),
        ra.at(index) == (if start <= index[2] < start + src.shape@[2] {
            kept(before.spec_dtype(), src.at(index.update(2, (index[2] - start) as usize)))
        } else {
            stored_value(before, index)
        }),
{
    let part = choose|part: TensorStorage| #[trigger]
        autograd::stored_as(f, *src, before.spec_dtype(), part) && kv_cache::storage_overwritten(before, part, start, after);
    dims::lemma_ravel_bound(before.spec_shape(), index);
    let inside = index.update(2, (index[2] - start) as usize);
    if start <= index[2] < start + src.shape@[2] {
        assert forall|i: int| 0 <= i < 4 implies #[trigger] inside[i] < src.shape@[i] by {
            assert(index[i] < before.spec_shape()[i]);
        }
        dims::lemma_ravel_bound(src.shape@, inside);
    }
    match (before, part, after) {
        (TensorStorage::F32(a), TensorStorage::F32(p), TensorStorage::F32(r)) => {
            assert(r.at(index) == ra.at(index));
        },
        (TensorStorage::F16(a), TensorStorage::F16(p), TensorStorage::F16(r)) => {
            assert(ra.at(index) == float_bits::f16_widened(r.at(index)));
        },
        (TensorStorage::BF16(a), TensorStorage::BF16(p), TensorStorage::BF16(r)) => {
            assert(ra.at(index) == float_bits::bf16_widened(r.at(index)));
        },
        _ => {},
    }
}

/// A row of features, element by element.
proof fn lemma_row_elements(a: &NdArray<u32>, b: int, h: int, p: int)
    requires
        a.wf(),
        a.shape@.len() == 4,
        0 <= b < a.shape@[0],
        0 <= h < a.shape@[1],
        0 <= p < a.shape@[2],
    ensures
        matmul::flat_row(
            a.data@,
            causal::head_at(b, h, p, a.shape@[1] as int, a.shape@[2] as int),
            a.shape@[3] as int,
        ).len() == a.shape@[3],
        forall|c: int|
            0 <= c < a.shape@[3] ==> #[trigger] matmul::flat_row(
                a.data@,
                causal::head_at(b, h, p, a.shape@[1] as int, a.shape@[2] as int),
                a.shape@[3] as int,
            )[c] == a.at(seq![b as usize, h as usize, p as usize, c as usize]),
{
    let (heads, room, d) = (a.shape@[1] as int, a.shape@[2] as int, a.shape@[3] as int);
    let at = causal::head_at(b, h, p, heads, room);
    causal::lemma_head_at(b, h, p, a.shape@[0] as int, heads, room);
    matmul::lemma_product4(a.shape@);
    let total = (a.shape@[0] * heads) * room;
    assert(0 <= at * d && at * d + d <= total * d) by (nonlinear_arith)
        requires
            0 <= at < total,
            d >= 0,
    ;
    assert forall|c: int| 0 <= c < d implies #[trigger] matmul::flat_row(a.data@, at, d)[c] == a.at(
        seq![b as usize, h as usize, p as usize, c as usize],
    ) by {
        lemma_ravel4(a.shape@, seq![b as usize, h as usize, p as usize, c as usize]);
    }
}

/// A row of features at a position of a cache after a range has been written: one that was
/// written is what the cache keeps of the new row, and any other is what it was.
pub proof fn lemma_written_row<F: Fpu>(
    f: &F,
    before: TensorStorage,
    src: &NdArray<u32>,
    start: int,
    after: TensorStorage,
    ra: &NdArray<u32>,
    b: int,
    h: int,
    p: int,
)
    requires
        kv_cache::range_written(f, before, *src, start, after),
        autograd::reads_as(f, after, *ra),
        before.spec_dtype().float(),
        before.spec_shape().len() == 4,
        src.wf(),
        src.shape@.len() == 4,
        src.shape@ == before.spec_shape().update(2, src.shape@[2]),
        0 <= start,
        0 <= b < before.spec_shape()[0],
        0 <= h < before.spec_shape()[1],
        0 <= p < before.spec_shape()[2],
        before.spec_shape()[3] > 0,
    ensures
        ra.shape@ == before.spec_shape(),
        ({
            let (heads, room, d) = (
                before.spec_shape()[1] as int,
                before.spec_shape()[2] as int,
                before.spec_shape()[3] as int,
            );
            matmul::flat_row(ra.data@, causal::head_at(b, h, p, heads, room), d) == (if start <= p < start + src.shape@[2] {
                matmul::flat_row(src.data@, causal::head_at(b, h, p - start, heads, src.shape@[2] as int), d).map_values(
                    |v: u32| kept(before.spec_dtype(), v),
                )
            } else {
                stored_row(before, b, h, p)
            })
        }),
{
    let whole = before.spec_shape();
    let (heads, room, d) = (whole[1] as int, whole[2] as int, whole[3] as int);
    let first = seq![b as usize, h as usize, p as usize, 0usize];
    assert(dims::valid_index(whole, first));
    lemma_written(f, before, src, start, after, ra, first);
    lemma_row_elements(ra, b, h, p);
    let row = matmul::flat_row(ra.data@, causal::head_at(b, h, p, heads, room), d);
    let old_row = stored_row(before, b, h, p);
    let new_row = matmul::flat_row(src.data@, causal::head_at(b, h, p - start, heads, src.shape@[2] as int), d);
    let written = start <= p < start + src.shape@[2];
    if written {
        lemma_row_elements(src, b, h, p - start);
    }
    let want = if written {
        new_row.map_values(|v: u32| kept(before.spec_dtype(), v))
    } else {
        old_row
    };
    assert forall|c: int| 0 <= c < d implies #[trigger] row[c] == want[c] by {
        let index = seq![b as usize, h as usize, p as usize, c as usize];
        assert(dims::valid_index(whole, index));
        lemma_written(f, before, src, start, after, ra, index);
        assert(row[c] == ra.at(index));
        if written {
            assert(index.update(2, (p - start) as usize) =~= seq![b as usize, h as usize, (p - start) as usize, c as usize]);
            assert(new_row[c] == src.at(seq![b as usize, h as usize, (p - start) as usize, c as usize]));
        }
    }
    assert(row =~= want);
}

/// A reading of a cache has its rows.
pub proof fn lemma_read_row<F: Fpu>(f: &F, s: TensorStorage, a: &NdArray<u32>, b: int, h: int, p: int)
    requires
        autograd::reads_as(f, s, *a),
        s.spec_dtype().float(),
        s.spec_shape().len() == 4,
        0 <= b < s.spec_shape()[0],
        0 <= h < s.spec_shape()[1],
        0 <= p < s.spec_shape()[2],
    ensures
        row_at(*a, b, h, p) == stored_row(s, b, h, p),
{
    lemma_row_elements(a, b, h, p);
    assert forall|c: int| 0 <= c < a.shape@[3] implies #[trigger] row_at(*a, b, h, p)[c] == stored_row(s, b, h, p)[c] by {
        let index = seq![b as usize, h as usize, p as usize, c as usize];
        assert(dims::valid_index(a.shape@, index));
        dims::lemma_ravel_bound(a.shape@, index);
        assert(row_at(*a, b, h, p)[c] == a.at(index));
    }
    assert(row_at(*a, b, h, p) =~= stored_row(s, b, h, p));
}

/// A pass over several new tokens, without a record, that is not refused.
pub open spec fn is_pass<F: Fpu>(
    f: &F,
    att: SelfAttention,
    x: Tensor,
    mode: GradMode,
    before: KVCacheInner,
    w: Prefilling,
    after: KVCacheInner,
    t: Tensor,
) -> bool {
    &&& att.wf()
    &&& mode.no_grad()
    &&& x.wf()
    &&& x.spec_shape().len() == 3
    &&& x.spec_shape()[0] > 0
    &&& x.spec_shape()[1] > 1
    &&& x.spec_shape()[2] == att.w_q.in_features
    &&& before.wf()
    &&& before.layout_error(att.cache_shape(x.spec_shape()[0])) is None
    &&& before.len + x.spec_shape()[1] <= att.max_seq
    &&& prefill::is_prefilling(f, att, x, mode, before, w, after, t)
}

/// The extents of what a pass computes.
proof fn lemma_pass_extents<F: Fpu>(
    f: &F,
    att: SelfAttention,
    x: Tensor,
    mode: GradMode,
    before: KVCacheInner,
    w: Prefilling,
    after: KVCacheInner,
    t: Tensor,
)
    requires
        is_pass(f, att, x, mode, before, w, after, t),
    ensures
        w.queries.shape@ == seq![x.spec_shape()[0], att.n_head, x.spec_shape()[1], att.head_dim],
        w.new_keys.shape@ == seq![x.spec_shape()[0], att.n_kv_head, x.spec_shape()[1], att.head_dim],
        w.new_values.shape@ == seq![x.spec_shape()[0], att.n_kv_head, x.spec_shape()[1], att.head_dim],
        w.keys.shape@ == att.cache_shape(x.spec_shape()[0]),
        w.values.shape@ == att.cache_shape(x.spec_shape()[0]),
        w.new_keys.shape@ == att.cache_shape(x.spec_shape()[0]).update(2, x.spec_shape()[1]),
        w.new_values.shape@ == att.cache_shape(x.spec_shape()[0]).update(2, x.spec_shape()[1]),
        w.queries.wf(),
        w.new_keys.wf(),
        w.new_values.wf(),
        w.keys.wf(),
        w.values.wf(),
        after.len == before.len + x.spec_shape()[1],
        after.layout_error(att.cache_shape(x.spec_shape()[0])) is None,
        att.w_q.weight.spec_shape() == seq![(att.n_head * att.head_dim) as usize, x.spec_shape()[2]],
        att.w_k.weight.spec_shape() == seq![(att.n_kv_head * att.head_dim) as usize, x.spec_shape()[2]],
        att.w_v.weight.spec_shape() == seq![(att.n_kv_head * att.head_dim) as usize, x.spec_shape()[2]],
        att.n_head * att.head_dim <= usize::MAX,
        att.n_kv_head * att.head_dim <= usize::MAX,
        x.spec_shape()[2] > 0,
        att.n_rep() > 0,
        att.n_head == att.n_kv_head * att.n_rep(),
{
    let full = att.cache_shape(x.spec_shape()[0]);
    att.lemma_accepts(x);
    assert(w.new_keys.shape@ =~= full.update(2, x.spec_shape()[1]));
    assert(w.new_values.shape@ =~= full.update(2, x.spec_shape()[1]));
    let (h, kv, d) = (att.n_head as int, att.n_kv_head as int, att.head_dim as int);
    assert(h * d > 0) by (nonlinear_arith)
        requires
            h > 0,
            d > 0,
    ;
    let n = att.n_rep();
    assert(n > 0) by (nonlinear_arith)
        requires
            h == kv * n,
            h > 0,
            kv > 0,
    ;
}

/// The row of a head at a position.
pub open spec fn row_at(a: NdArray<u32>, b: int, h: int, p: int) -> Seq<u32> {
    matmul::flat_row(a.data@, causal::head_at(b, h, p, a.shape@[1] as int, a.shape@[2] as int), a.shape@[3] as int)
}

/// Token `r` of one input is token `s` of another, in a place of the batch.
pub open spec fn same_token(xa: NdArray<u32>, s: int, ya: NdArray<u32>, r: int, b: int) -> bool {
    matmul::flat_row(xa.data@, b * xa.shape@[1] + s, xa.shape@[2] as int) == matmul::flat_row(
        ya.data@,
        b * ya.shape@[1] + r,
        ya.shape@[2] as int,
    )
}

/// The same token at the same position asks the same of the cache.
proof fn lemma_alike_query<F: Fpu>(
    f: &F,
    att: SelfAttention,
    mode: GradMode,
    x: Tensor,
    bx: KVCacheInner,
    wx: Prefilling,
    ax: KVCacheInner,
    tx: Tensor,
    y: Tensor,
    by: KVCacheInner,
    wy: Prefilling,
    ay: KVCacheInner,
    ty: Tensor,
    xa: &NdArray<u32>,
    ya: &NdArray<u32>,
    b: int,
    s: int,
    r: int,
    h: int,
)
    requires
        fpu::fixed_answers(f),
        is_pass(f, att, x, mode, bx, wx, ax, tx),
        is_pass(f, att, y, mode, by, wy, ay, ty),
        y.spec_shape() == x.spec_shape().update(1, y.spec_shape()[1]),
        autograd::reads_as(f, x.storage, *xa),
        autograd::reads_as(f, y.storage, *ya),
        0 <= b < x.spec_shape()[0],
        0 <= s < x.spec_shape()[1],
        0 <= r < y.spec_shape()[1],
        0 <= h < att.n_head,
        bx.len + s == by.len + r,
        same_token(*xa, s, *ya, r, b),
    ensures
        row_at(wx.queries, b, h, s) == row_at(wy.queries, b, h, r),
{
    lemma_pass_extents(f, att, x, mode, bx, wx, ax, tx);
    lemma_pass_extents(f, att, y, mode, by, wy, ay, ty);
    lemma_alike_heads(
        f,
        x,
        y,
        att.w_q.weight,
        att.n_head,
        att.head_dim,
        mode,
        wx.q,
        wy.q,
        xa,
        ya,
        b,
        s,
        r,
        h,
    );
    let n = att.n_head as int;
    causal::lemma_head_at(b, h, s, x.spec_shape()[0] as int, n, x.spec_shape()[1] as int);
    causal::lemma_head_at(b, h, r, x.spec_shape()[0] as int, n, y.spec_shape()[1] as int);
    encoding::law_position_alone_rotates(
        att.rope,
        f,
        wx.q.heads,
        bx.len as int,
        mode,
        wx.q_rot,
        causal::head_at(b, h, s, n, x.spec_shape()[1] as int),
        wy.q.heads,
        by.len as int,
        wy.q_rot,
        causal::head_at(b, h, r, n, y.spec_shape()[1] as int),
    );
}

/// The same token at the same position brings the same key and the same value.
proof fn lemma_alike_entry<F: Fpu>(
    f: &F,
    att: SelfAttention,
    mode: GradMode,
    x: Tensor,
    bx: KVCacheInner,
    wx: Prefilling,
    ax: KVCacheInner,
    tx: Tensor,
    y: Tensor,
    by: KVCacheInner,
    wy: Prefilling,
    ay: KVCacheInner,
    ty: Tensor,
    xa: &NdArray<u32>,
    ya: &NdArray<u32>,
    b: int,
    s: int,
    r: int,
    h: int,
)
    requires
        fpu::fixed_answers(f),
        is_pass(f, att, x, mode, bx, wx, ax, tx),
        is_pass(f, att, y, mode, by, wy, ay, ty),
        y.spec_shape() == x.spec_shape().update(1, y.spec_shape()[1]),
        autograd::reads_as(f, x.storage, *xa),
        autograd::reads_as(f, y.storage, *ya),
        0 <= b < x.spec_shape()[0],
        0 <= s < x.spec_shape()[1],
        0 <= r < y.spec_shape()[1],
        0 <= h < att.n_kv_head,
        bx.len + s == by.len + r,
        same_token(*xa, s, *ya, r, b),
    ensures
        row_at(wx.new_keys, b, h, s) == row_at(wy.new_keys, b, h, r),
        row_at(wx.new_values, b, h, s) == row_at(wy.new_values, b, h, r),
{
    lemma_pass_extents(f, att, x, mode, bx, wx, ax, tx);
    lemma_pass_extents(f, att, y, mode, by, wy, ay, ty);
    let (n, d) = (att.n_kv_head, att.head_dim);
    lemma_alike_heads(f, x, y, att.w_k.weight, n, d, mode, wx.k, wy.k, xa, ya, b, s, r, h);
    lemma_alike_heads(f, x, y, att.w_v.weight, n, d, mode, wx.v, wy.v, xa, ya, b, s, r, h);
    causal::lemma_head_at(b, h, s, x.spec_shape()[0] as int, n as int, x.spec_shape()[1] as int);
    causal::lemma_head_at(b, h, r, x.spec_shape()[0] as int, n as int, y.spec_shape()[1] as int);
    encoding::law_position_alone_rotates(
        att.rope,
        f,
        wx.k.heads,
        bx.len as int,
        mode,
        wx.k_rot,
        causal::head_at(b, h, s, n as int, x.spec_shape()[1] as int),
        wy.k.heads,
        by.len as int,
        wy.k_rot,
        causal::head_at(b, h, r, n as int, y.spec_shape()[1] as int),
    );
}

/// The first `n` positions of two caches hold the same.
pub open spec fn caches_alike(a: NdArray<u32>, c: NdArray<u32>, n: int) -> bool {
    &&& a.shape@ == c.shape@
    &&& forall|b: int, h: int, p: int|
        0 <= b < a.shape@[0] && 0 <= h < a.shape@[1] && 0 <= p < n ==> #[trigger] row_at(a, b, h, p) == row_at(c, b, h, p)
}

/// The tokens of a part are those of the whole from a step on.
pub open spec fn is_part(whole: NdArray<u32>, part: NdArray<u32>, from: int) -> bool {
    &&& part.shape@ == whole.shape@.update(1, part.shape@[1])
    &&& from + part.shape@[1] <= whole.shape@[1]
    &&& forall|b: int, r: int|
        0 <= b < whole.shape@[0] && 0 <= r < part.shape@[1] ==> #[trigger] same_token(whole, from + r, part, r, b)
}

/// The first `n` positions of a cache hold what another one has been read as.
pub open spec fn holds_alike(s: TensorStorage, c: NdArray<u32>, n: int) -> bool {
    forall|b: int, h: int, p: int|
        0 <= b < c.shape@[0] && 0 <= h < c.shape@[1] && 0 <= p < n ==> #[trigger] stored_row(s, b, h, p) == row_at(c, b, h, p)
}

/// A part leaves in the cache what the whole leaves there, if it found what the whole left.
proof fn lemma_part_fills<F: Fpu>(
    f: &F,
    att: SelfAttention,
    mode: GradMode,
    x: Tensor,
    bx: KVCacheInner,
    wx: Prefilling,
    ax: KVCacheInner,
    tx: Tensor,
    y: Tensor,
    by: KVCacheInner,
    wy: Prefilling,
    ay: KVCacheInner,
    ty: Tensor,
    xa: &NdArray<u32>,
    ya: &NdArray<u32>,
    from: int,
)
    requires
        fpu::fixed_answers(f),
        is_pass(f, att, x, mode, bx, wx, ax, tx),
        is_pass(f, att, y, mode, by, wy, ay, ty),
        autograd::reads_as(f, x.storage, *xa),
        autograd::reads_as(f, y.storage, *ya),
        is_part(*xa, *ya, from),
        0 <= from,
        by.len == bx.len + from,
        by.dtype == bx.dtype,
        holds_alike(by.k.storage, wx.keys, by.len as int),
        holds_alike(by.v.storage, wx.values, by.len as int),
    ensures
        caches_alike(wy.keys, wx.keys, by.len + y.spec_shape()[1]),
        caches_alike(wy.values, wx.values, by.len + y.spec_shape()[1]),
{
    lemma_pass_extents(f, att, x, mode, bx, wx, ax, tx);
    lemma_pass_extents(f, att, y, mode, by, wy, ay, ty);
    let full = att.cache_shape(x.spec_shape()[0]);
    assert forall|b: int, h: int, p: int|
        0 <= b < full[0] && 0 <= h < full[1] && 0 <= p < by.len + y.spec_shape()[1] implies row_at(wy.keys, b, h, p) == row_at(
        wx.keys,
        b,
        h,
        p,
    ) && row_at(wy.values, b, h, p) == row_at(wx.values, b, h, p) by {
        lemma_written_row(f, by.k.storage, &wy.new_keys, by.len as int, ay.k.storage, &wy.keys, b, h, p);
        lemma_written_row(f, by.v.storage, &wy.new_values, by.len as int, ay.v.storage, &wy.values, b, h, p);
        if p < by.len {
            assert(stored_row(by.k.storage, b, h, p) == row_at(wx.keys, b, h, p));
            assert(stored_row(by.v.storage, b, h, p) == row_at(wx.values, b, h, p));
        } else {
            lemma_written_row(f, bx.k.storage, &wx.new_keys, bx.len as int, ax.k.storage, &wx.keys, b, h, p);
            lemma_written_row(f, bx.v.storage, &wx.new_values, bx.len as int, ax.v.storage, &wx.values, b, h, p);
            let r = p - by.len;
            assert(same_token(*xa, from + r, *ya, r, b));
            lemma_alike_entry(
                f,
                att,
                mode,
                x,
                bx,
                wx,
                ax,
                tx,
                y,
                by,
                wy,
                ay,
                ty,
                xa,
                ya,
                b,
                from + r,
                r,
                h,
            );
        }
    }
}

/// Where the keys and values of a head begin.
pub open spec fn cache_base(att: SelfAttention, b: int, h: int) -> int {
    (b * att.n_kv_head + h / att.n_rep()) * att.max_seq
}

/// All scores that the queries of a pass see are finite, and so are all values.
pub open spec fn attends_finitely<F: Fpu>(f: &F, att: SelfAttention, x: Seq<usize>, past: int, w: Prefilling) -> bool {
    forall|b: int, h: int, s: int|
        0 <= b < x[0] && 0 <= h < att.n_head && 0 <= s < x[1] ==> causal::scores_finite(
            f,
            #[trigger] row_at(w.queries, b, h, s),
            w.keys.data@,
            cache_base(att, b, h),
            past + s + 1,
            att.scale,
        ) && causal::values_finite(w.values.data@, cache_base(att, b, h), 0, past + x[1], att.head_dim as int)
}

/// A pass sees as many positions as another one does, or those beyond them do not matter.
pub open spec fn sees_alike<F: Fpu>(f: &F, att: SelfAttention, x: Seq<usize>, past: int, w: Prefilling, end: int) -> bool {
    past + x[1] == end || causal::zeros_vanish(f) && attends_finitely(f, att, x, past, w)
}

/// The first positions of a head of two caches that hold the same.
pub proof fn lemma_alike_positions(att: SelfAttention, a: &NdArray<u32>, c: &NdArray<u32>, b: int, h: int, n: int, all: int)
    requires
        a.wf(),
        c.wf(),
        a.shape@.len() == 4,
        caches_alike(*a, *c, all),
        a.shape@ == att.cache_shape(a.shape@[0]),
        0 <= n <= all <= att.max_seq,
        0 <= b < a.shape@[0],
        0 <= h < att.n_kv_head,
    ensures
        causal::rows_alike(
            a.data@,
            (b * att.n_kv_head + h) * att.max_seq,
            c.data@,
            (b * att.n_kv_head + h) * att.max_seq,
            n,
            att.head_dim as int,
        ),
{
    let (batch, kv, room, d) = (a.shape@[0] as int, att.n_kv_head as int, att.max_seq as int, att.head_dim as int);
    matmul::lemma_product4(a.shape@);
    let q = b * kv + h;
    let base = q * room;
    assert(0 <= q < batch * kv) by (nonlinear_arith)
        requires
            0 <= b < batch,
            0 <= h < kv,
            q == b * kv + h,
    ;
    assert(0 <= base && base + room <= (batch * kv) * room) by (nonlinear_arith)
        requires
            0 <= q < batch * kv,
            base == q * room,
            0 <= room,
    ;
    let total = (batch * kv) * room;
    assert((base + n) * d <= total * d) by (nonlinear_arith)
        requires
            base + n <= total,
            0 <= d,
    ;
    assert forall|j: int| 0 <= j < n implies #[trigger] matmul::flat_row(a.data@, base + j, d) == matmul::flat_row(
        c.data@,
        base + j,
        d,
    ) by {
        assert(row_at(*a, b, h, j) == row_at(*c, b, h, j));
    }
}

/// The same token gathers the same from caches that hold the same.
proof fn lemma_alike_context<F: Fpu>(
    f: &F,
    att: SelfAttention,
    mode: GradMode,
    x: Tensor,
    bx: KVCacheInner,
    wx: Prefilling,
    ax: KVCacheInner,
    tx: Tensor,
    y: Tensor,
    by: KVCacheInner,
    wy: Prefilling,
    ay: KVCacheInner,
    ty: Tensor,
    xa: &NdArray<u32>,
    ya: &NdArray<u32>,
    b: int,
    s: int,
    r: int,
    h: int,
)
    requires
        fpu::fixed_answers(f),
        att.causal,
        is_pass(f, att, x, mode, bx, wx, ax, tx),
        is_pass(f, att, y, mode, by, wy, ay, ty),
        y.spec_shape() == x.spec_shape().update(1, y.spec_shape()[1]),
        autograd::reads_as(f, x.storage, *xa),
        autograd::reads_as(f, y.storage, *ya),
        0 <= b < x.spec_shape()[0],
        0 <= s < x.spec_shape()[1],
        0 <= r < y.spec_shape()[1],
        0 <= h < att.n_head,
        bx.len + s == by.len + r,
        by.len + y.spec_shape()[1] <= bx.len + x.spec_shape()[1],
        same_token(*xa, s, *ya, r, b),
        caches_alike(wy.keys, wx.keys, by.len + y.spec_shape()[1]),
        caches_alike(wy.values, wx.values, by.len + y.spec_shape()[1]),
        sees_alike(f, att, x.spec_shape(), bx.len as int, wx, by.len + y.spec_shape()[1]),
    ensures
        matmul::flat_row(
            wx.context.data@,
            (b * x.spec_shape()[1] + s) * att.n_head + h,
            att.head_dim as int,
        ) == matmul::flat_row(wy.context.data@, (b * y.spec_shape()[1] + r) * att.n_head + h, att.head_dim as int),
{
    lemma_pass_extents(f, att, x, mode, bx, wx, ax, tx);
    lemma_pass_extents(f, att, y, mode, by, wy, ay, ty);
    lemma_alike_query(f, att, mode, x, bx, wx, ax, tx, y, by, wy, ay, ty, xa, ya, b, s, r, h);
    let (batch, sx, sy) = (x.spec_shape()[0] as int, x.spec_shape()[1] as int, y.spec_shape()[1] as int);
    let (n, kv, rep, room, d) = (
        att.n_head as int,
        att.n_kv_head as int,
        att.n_rep(),
        att.max_seq as int,
        att.head_dim as int,
    );
    let i = (b * sx + s) * n + h;
    let j = (b * sy + r) * n + h;
    causal::lemma_gathered_at(b, s, h, batch, sx, n, rep, kv, room);
    causal::lemma_gathered_at(b, r, h, batch, sy, n, rep, kv, room);
    let hk = h / rep;
    assert(0 <= hk < kv) by (nonlinear_arith)
        requires
            0 <= h < kv * rep,
            rep > 0,
            hk == h / rep,
    ;
    let base = cache_base(att, b, h);
    let q = row_at(wx.queries, b, h, s);
    let visible = bx.len + s + 1;
    let lx = bx.len + sx;
    let ly = by.len + sy;
    let out = matmul::flat_row(wx.context.data@, i, d);
    let other = matmul::flat_row(wy.context.data@, j, d);
    lemma_row_elements(&wx.queries, b, h, s);
    assert(q.len() == d);
    assert(attend::query_attended(
        f,
        false,
        matmul::flat_row(wx.queries.data@, attend::query_row(i, n, sx), d),
        wx.keys.data@,
        wx.values.data@,
        attend::cache_row(i, n, sx, rep, kv, room),
        lx,
        att.scale,
        attend::seen_keys(true, bx.len + attend::step_of(i, n, sx), lx),
        out,
    ));
    assert(attend::query_attended(
        f,
        false,
        matmul::flat_row(wy.queries.data@, attend::query_row(j, n, sy), d),
        wy.keys.data@,
        wy.values.data@,
        attend::cache_row(j, n, sy, rep, kv, room),
        ly,
        att.scale,
        attend::seen_keys(true, by.len + attend::step_of(j, n, sy), ly),
        other,
    ));
    lemma_alike_positions(att, &wy.keys, &wx.keys, b, hk, visible, ly);
    lemma_alike_positions(att, &wy.values, &wx.values, b, hk, visible, ly);
    lemma_alike_positions(att, &wy.values, &wx.values, b, hk, ly, ly);
    if lx == ly {
        lemma_alike_positions(att, &wy.keys, &wx.keys, b, hk, ly, ly);
        causal::law_keys_and_values_alone_matter(
            f,
            q,
            wy.keys.data@,
            wy.values.data@,
            base,
            wx.keys.data@,
            wx.values.data@,
            base,
            ly,
            att.scale,
            visible,
            other,
            out,
        );
    } else {
        assert(causal::scores_finite(f, q, wx.keys.data@, base, visible, att.scale));
        assert(causal::values_finite(wx.values.data@, base, 0, lx, d));
        assert(causal::values_finite(wx.values.data@, base, visible, lx, d));
        assert forall|c: int, k: int| 0 <= c < d && visible <= k < ly implies float_bits::is_finite(
            #[trigger] attend::value_col(wy.values.data@, base, ly, d, c)[k],
        ) by {
            causal::lemma_columns_alike(wy.values.data@, base, wx.values.data@, base, ly, d, c);
            assert(attend::value_col(wx.values.data@, base, ly, d, c)[k] == attend::value_col(
                wx.values.data@,
                base,
                lx,
                d,
                c,
            )[k]);
        }
        causal::law_later_keys_and_values_do_not_matter(
            f,
            q,
            wx.keys.data@,
            wx.values.data@,
            base,
            lx,
            wy.keys.data@,
            wy.values.data@,
            base,
            ly,
            att.scale,
            visible,
            out,
            other,
        );
    }
}

/// The features of a token are those of its heads, one after the other.
proof fn lemma_joined_row(context: Seq<u32>, other: Seq<u32>, row: int, other_row: int, n: int, d: int, rows: int, other_rows: int)
    requires
        0 < n,
        0 < d,
        0 <= row < rows,
        0 <= other_row < other_rows,
        context.len() == (rows * n) * d,
        other.len() == (other_rows * n) * d,
        forall|h: int|
            0 <= h < n ==> #[trigger] matmul::flat_row(context, row * n + h, d) == matmul::flat_row(other, other_row * n + h, d),
    ensures
        matmul::flat_row(context, row, n * d) == matmul::flat_row(other, other_row, n * d),
{
    let e = n * d;
    assert((rows * n) * d == rows * e && (other_rows * n) * d == other_rows * e && e > 0) by (nonlinear_arith)
        requires
            e == n * d,
            0 < n,
            0 < d,
    ;
    assert(0 <= row * e && row * e + e <= rows * e && 0 <= other_row * e && other_row * e + e <= other_rows * e)
        by (nonlinear_arith)
        requires
            0 <= row < rows,
            0 <= other_row < other_rows,
            e > 0,
    ;
    let x = matmul::flat_row(context, row, e);
    let y = matmul::flat_row(other, other_row, e);
    assert forall|k: int| 0 <= k < e implies #[trigger] x[k] == y[k] by {
        let h = k / d;
        let c = k % d;
        assert(0 <= h < n && 0 <= c < d && k == h * d + c) by (nonlinear_arith)
            requires
                0 <= k < n * d,
                0 < d,
                h == k / d,
                c == k % d,
                e == n * d,
        ;
        assert((row * n + h) * d == row * e + h * d && (other_row * n + h) * d == other_row * e + h * d && h * d + d <= e
            && 0 <= h * d) by (nonlinear_arith)
            requires
                e == n * d,
                0 <= h < n,
                0 < d,
        ;
        let p = matmul::flat_row(context, row * n + h, d);
        let q = matmul::flat_row(other, other_row * n + h, d);
        assert(p == q);
        assert(p[c] == context[row * e + k] && q[c] == other[other_row * e + k]);
    }
    assert(x =~= y);
}

/// What a pass makes of the context of a token.
proof fn lemma_output_row<F: Fpu>(
    f: &F,
    att: SelfAttention,
    x: Tensor,
    mode: GradMode,
    before: KVCacheInner,
    w: Prefilling,
    after: KVCacheInner,
    t: Tensor,
    wa: &NdArray<u32>,
    row: int,
)
    requires
        fpu::fixed_answers(f),
        is_pass(f, att, x, mode, before, w, after, t),
        autograd::reads_as(f, att.w_o.weight.storage, *wa),
        0 <= row < x.spec_shape()[0] * x.spec_shape()[1],
    ensures
        t.storage is F32,
        t.storage->F32_0.data@.len() == (x.spec_shape()[0] * x.spec_shape()[1]) * x.spec_shape()[2],
        w.context.data@.len() == ((x.spec_shape()[0] * x.spec_shape()[1]) * att.n_head) * att.head_dim,
        matmul::flat_row(w.context.data@, row, x.spec_shape()[2] as int).len() == x.spec_shape()[2],
        is_head(
            f,
            matmul::flat_row(w.context.data@, row, x.spec_shape()[2] as int),
            wa.data@,
            0,
            x.spec_shape()[2] as int,
            matmul::flat_row(t.storage->F32_0.data@, row, x.spec_shape()[2] as int),
        ),
{
    lemma_pass_extents(f, att, x, mode, before, w, after, t);
    let (batch, steps, e) = (x.spec_shape()[0] as int, x.spec_shape()[1] as int, x.spec_shape()[2] as int);
    let c = choose|c: Tensor| #[trigger]
        c.is_leaf(TensorStorage::F32(std::sync::Arc::new(w.context)), false) && shape::reshape_result(
            f,
            c,
            seq![x.spec_shape()[0], x.spec_shape()[1], att.w_o.in_features],
            mode,
            w.joined,
        );
    let (a, w2, z) = choose|x2: NdArray<u32>, y2: NdArray<u32>, z: NdArray<u32>|
        autograd::reads_as(f, w.joined.storage, x2) && autograd::reads_as(f, att.w_o.weight.storage, y2)
            && #[trigger] matmul::multiplied(f, x2, y2, z) && t.storage == TensorStorage::F32(std::sync::Arc::new(z));
    fixed::lemma_one_reading(f, att.w_o.weight.storage, &w2, wa);
    assert(a.data@ == w.context.data@);
    dims::lemma_product3(a.shape@);
    matmul::lemma_product4(w.context.shape@);
    let m = a.data@.len() as int / e;
    assert(m == batch * steps && m > 1) by (nonlinear_arith)
        requires
            m == ((batch * steps) * e) / e,
            batch > 0,
            steps > 1,
            e > 0,
    ;
    assert(0 <= row * e && row * e + e <= m * e) by (nonlinear_arith)
        requires
            0 <= row < m,
            e > 0,
    ;
    let xrow = matmul::flat_row(w.context.data@, row, e);
    let r = matmul::flat_row(z.data@, row, e);
    assert forall|j: int| 0 <= j < e implies fpu::dots(f, xrow, matmul::flat_row(wa.data@, 0 * e + j, e), #[trigger] r[j]) by {
        assert(matmul::row_product(f, m, e, xrow, matmul::flat_row(w2.data@, j, e), z.data@[row * e + j]));
        assert(0 * e == 0) by (nonlinear_arith);
    }
}

/// The same token comes out alike of a part and of the whole.
proof fn lemma_alike_output<F: Fpu>(
    f: &F,
    att: SelfAttention,
    mode: GradMode,
    x: Tensor,
    bx: KVCacheInner,
    wx: Prefilling,
    ax: KVCacheInner,
    tx: Tensor,
    y: Tensor,
    by: KVCacheInner,
    wy: Prefilling,
    ay: KVCacheInner,
    ty: Tensor,
    xa: &NdArray<u32>,
    ya: &NdArray<u32>,
    b: int,
    s: int,
    r: int,
)
    requires
        fpu::fixed_answers(f),
        att.causal,
        is_pass(f, att, x, mode, bx, wx, ax, tx),
        is_pass(f, att, y, mode, by, wy, ay, ty),
        y.spec_shape() == x.spec_shape().update(1, y.spec_shape()[1]),
        autograd::reads_as(f, x.storage, *xa),
        autograd::reads_as(f, y.storage, *ya),
        0 <= b < x.spec_shape()[0],
        0 <= s < x.spec_shape()[1],
        0 <= r < y.spec_shape()[1],
        bx.len + s == by.len + r,
        by.len + y.spec_shape()[1] <= bx.len + x.spec_shape()[1],
        same_token(*xa, s, *ya, r, b),
        caches_alike(wy.keys, wx.keys, by.len + y.spec_shape()[1]),
        caches_alike(wy.values, wx.values, by.len + y.spec_shape()[1]),
        sees_alike(f, att, x.spec_shape(), bx.len as int, wx, by.len + y.spec_shape()[1]),
    ensures
        tx.storage is F32,
        ty.storage is F32,
        matmul::flat_row(tx.storage->F32_0.data@, b * x.spec_shape()[1] + s, x.spec_shape()[2] as int) == matmul::flat_row(
            ty.storage->F32_0.data@,
            b * y.spec_shape()[1] + r,
            x.spec_shape()[2] as int,
        ),
{
    let (batch, sx, sy, e) = (
        x.spec_shape()[0] as int,
        x.spec_shape()[1] as int,
        y.spec_shape()[1] as int,
        x.spec_shape()[2] as int,
    );
    let (n, d) = (att.n_head as int, att.head_dim as int);
    let (c, wa, z) = choose|x2: NdArray<u32>, y2: NdArray<u32>, z: NdArray<u32>|
        autograd::reads_as(f, wx.joined.storage, x2) && autograd::reads_as(f, att.w_o.weight.storage, y2)
            && #[trigger] matmul::multiplied(f, x2, y2, z) && tx.storage == TensorStorage::F32(std::sync::Arc::new(z));
    let i = b * sx + s;
    let j = b * sy + r;
    assert(0 <= i < batch * sx && 0 <= j < batch * sy) by (nonlinear_arith)
        requires
            0 <= b < batch,
            0 <= s < sx,
            0 <= r < sy,
            i == b * sx + s,
            j == b * sy + r,
    ;
    lemma_output_row(f, att, x, mode, bx, wx, ax, tx, &wa, i);
    lemma_output_row(f, att, y, mode, by, wy, ay, ty, &wa, j);
    assert forall|h: int| 0 <= h < n implies #[trigger] matmul::flat_row(wx.context.data@, i * n + h, d) == matmul::flat_row(
        wy.context.data@,
        j * n + h,
        d,
    ) by {
        lemma_alike_context(f, att, mode, x, bx, wx, ax, tx, y, by, wy, ay, ty, xa, ya, b, s, r, h);
    }
    lemma_joined_row(wx.context.data@, wy.context.data@, i, j, n, d, batch * sx, batch * sy);
    lemma_same_head(
        f,
        matmul::flat_row(wx.context.data@, i, e),
        wa.data@,
        0,
        e,
        matmul::flat_row(tx.storage->F32_0.data@, i, e),
        matmul::flat_row(ty.storage->F32_0.data@, j, e),
    );
}

/// An input is made of the tokens of two others, one after the other.
pub open spec fn splits_into<F: Fpu>(f: &F, whole: Tensor, first: Tensor, second: Tensor) -> bool {
    &&& whole.spec_shape().len() == 3
    &&& first.spec_shape() == whole.spec_shape().update(1, first.spec_shape()[1])
    &&& second.spec_shape() == whole.spec_shape().update(1, second.spec_shape()[1])
    &&& first.spec_shape()[1] + second.spec_shape()[1] == whole.spec_shape()[1]
    &&& forall|x: NdArray<u32>, y: NdArray<u32>|
        #![trigger autograd::reads_as(f, whole.storage, x), autograd::reads_as(f, first.storage, y)]
        autograd::reads_as(f, whole.storage, x) && autograd::reads_as(f, first.storage, y) ==> is_part(x, y, 0)
    &&& forall|x: NdArray<u32>, y: NdArray<u32>|
        #![trigger autograd::reads_as(f, whole.storage, x), autograd::reads_as(f, second.storage, y)]
        autograd::reads_as(f, whole.storage, x) && autograd::reads_as(f, second.storage, y) ==> is_part(
            x,
            y,
            first.spec_shape()[1] as int,
        )
}

/// All scores that the queries of a pass see are finite, and so are all values in the cache.
pub open spec fn is_finite_pass<F: Fpu>(
    f: &F,
    a: SelfAttention,
    x: Tensor,
    cache: Option<KVCacheInner>,
    mode: GradMode,
    t: Tensor,
    after: KVCacheInner,
) -> bool {
    forall|before: KVCacheInner, w: Prefilling|
        a.starts_from(f, x.spec_shape()[0], cache, before) && #[trigger] prefill::is_prefilling(
            f,
            a,
            x,
            mode,
            before,
            w,
            after,
            t,
        ) ==> attends_finitely(f, a, x.spec_shape(), before.len as int, w)
}

/// The tokens of a part came out as those of the whole from a step on.
pub open spec fn comes_out_alike(whole: Tensor, part: Tensor, from: int) -> bool {
    let e = whole.spec_shape()[2] as int;
    &&& whole.storage is F32
    &&& part.storage is F32
    &&& forall|b: int, r: int|
        0 <= b < whole.spec_shape()[0] && 0 <= r < part.spec_shape()[1] ==> #[trigger] matmul::flat_row(
            part.storage->F32_0.data@,
            b * part.spec_shape()[1] + r,
            e,
        ) == matmul::flat_row(whole.storage->F32_0.data@, b * whole.spec_shape()[1] + (from + r), e)
}

/// Two caches hold the same at each position up to their length.
pub open spec fn same_contents(a: KVCacheInner, c: KVCacheInner) -> bool {
    let shape = a.k.spec_shape();
    &&& a.len == c.len
    &&& a.k.spec_shape() == c.k.spec_shape()
    &&& a.v.spec_shape() == c.v.spec_shape()
    &&& forall|b: int, h: int, p: int|
        0 <= b < shape[0] && 0 <= h < shape[1] && 0 <= p < a.len ==> #[trigger] stored_row(a.k.storage, b, h, p)
            == stored_row(c.k.storage, b, h, p)
    &&& forall|b: int, h: int, p: int|
        0 <= b < shape[0] && 0 <= h < shape[1] && 0 <= p < a.len ==> #[trigger] stored_row(a.v.storage, b, h, p)
            == stored_row(c.v.storage, b, h, p)
}

/// The extents of what comes out of a pass.
proof fn lemma_output_extents<F: Fpu>(
    f: &F,
    att: SelfAttention,
    x: Tensor,
    mode: GradMode,
    before: KVCacheInner,
    w: Prefilling,
    after: KVCacheInner,
    t: Tensor,
)
    requires
        is_pass(f, att, x, mode, before, w, after, t),
    ensures
        t.storage is F32,
        t.spec_shape() == x.spec_shape(),
        after.dtype == before.dtype,
{
    assert(t.spec_shape() =~= x.spec_shape());
}

/// What a cache holds where a pass wrote nothing.
proof fn lemma_past_stays<F: Fpu>(
    f: &F,
    att: SelfAttention,
    x: Tensor,
    mode: GradMode,
    before: KVCacheInner,
    w: Prefilling,
    after: KVCacheInner,
    t: Tensor,
)
    requires
        is_pass(f, att, x, mode, before, w, after, t),
    ensures
        holds_alike(before.k.storage, w.keys, before.len as int),
        holds_alike(before.v.storage, w.values, before.len as int),
{
    lemma_pass_extents(f, att, x, mode, before, w, after, t);
    let full = att.cache_shape(x.spec_shape()[0]);
    assert forall|b: int, h: int, p: int| 0 <= b < full[0] && 0 <= h < full[1] && 0 <= p < before.len implies stored_row(
        before.k.storage,
        b,
        h,
        p,
    ) == row_at(w.keys, b, h, p) && stored_row(before.v.storage, b, h, p) == row_at(w.values, b, h, p) by {
        lemma_written_row(f, before.k.storage, &w.new_keys, before.len as int, after.k.storage, &w.keys, b, h, p);
        lemma_written_row(f, before.v.storage, &w.new_values, before.len as int, after.v.storage, &w.values, b, h, p);
    }
}

/// What a cache holds after a pass is what the pass read from it.
proof fn lemma_left_behind<F: Fpu>(
    f: &F,
    att: SelfAttention,
    x: Tensor,
    mode: GradMode,
    before: KVCacheInner,
    w: Prefilling,
    after: KVCacheInner,
    t: Tensor,
)
    requires
        is_pass(f, att, x, mode, before, w, after, t),
    ensures
        holds_alike(after.k.storage, w.keys, att.max_seq as int),
        holds_alike(after.v.storage, w.values, att.max_seq as int),
{
    lemma_pass_extents(f, att, x, mode, before, w, after, t);
    let full = att.cache_shape(x.spec_shape()[0]);
    assert forall|b: int, h: int, p: int| 0 <= b < full[0] && 0 <= h < full[1] && 0 <= p < att.max_seq implies stored_row(
        after.k.storage,
        b,
        h,
        p,
    ) == row_at(w.keys, b, h, p) && stored_row(after.v.storage, b, h, p) == row_at(w.values, b, h, p) by {
        lemma_read_row(f, after.k.storage, &w.keys, b, h, p);
        lemma_read_row(f, after.v.storage, &w.values, b, h, p);
    }
}

/// Where the processor answers alike, tokens that are taken in two parts, without a record,
/// come out as if they had been taken at once, and leave the same in the cache. The layer
/// hides later tokens, and each part has several tokens. For the first part, zeros have to
/// vanish, and the scores and values of the whole have to be finite: it does not see as many
/// positions as the whole does.
pub proof fn law_parts_attend_as_the_whole<F: Fpu>(
    a: SelfAttention,
    f: &F,
    cache: Option<KVCacheInner>,
    whole: Tensor,
    first: Tensor,
    second: Tensor,
    mode: GradMode,
    t: Tensor,
    after: KVCacheInner,
    first_t: Tensor,
    middle: KVCacheInner,
    second_t: Tensor,
    last: KVCacheInner,
)
    requires
        fpu::fixed_answers(f),
        a.wf(),
        a.causal,
        mode.no_grad(),
        whole.wf(),
        first.wf(),
        second.wf(),
        middle.wf(),
        cache matches Some(c) ==> c.wf(),
        a.forward_error(whole.spec_shape(), cache, mode) is None,
        splits_into(f, whole, first, second),
        first.spec_shape()[1] > 1,
        second.spec_shape()[1] > 1,
        a.continues(f, whole, cache, mode, t, after),
        a.continues(f, first, cache, mode, first_t, middle),
        a.continues(f, second, Some(middle), mode, second_t, last),
    ensures
        causal::zeros_vanish(f) && is_finite_pass(f, a, whole, cache, mode, t, after) ==> comes_out_alike(t, first_t, 0),
        comes_out_alike(t, second_t, first.spec_shape()[1] as int),
        same_contents(after, last),
{
    let batch = whole.spec_shape()[0];
    let (s1, s2) = (first.spec_shape()[1] as int, second.spec_shape()[1] as int);
    let b0 = choose|before: KVCacheInner| #[trigger]
        a.starts_from(f, batch, cache, before) && prefill::prefilled(f, a, whole, mode, before, after, t);
    let b1 = choose|before: KVCacheInner| #[trigger]
        a.starts_from(f, batch, cache, before) && prefill::prefilled(f, a, first, mode, before, middle, first_t);
    let w0 = choose|w: Prefilling| prefill::is_prefilling(f, a, whole, mode, b0, w, after, t);
    let w1 = choose|w: Prefilling| prefill::is_prefilling(f, a, first, mode, b1, w, middle, first_t);
    let w2 = choose|w: Prefilling| prefill::is_prefilling(f, a, second, mode, middle, w, last, second_t);
    assert(is_pass(f, a, whole, mode, b0, w0, after, t));
    assert(is_pass(f, a, first, mode, b1, w1, middle, first_t));
    lemma_pass_extents(f, a, whole, mode, b0, w0, after, t);
    lemma_pass_extents(f, a, first, mode, b1, w1, middle, first_t);
    assert(is_pass(f, a, second, mode, middle, w2, last, second_t));
    lemma_pass_extents(f, a, second, mode, middle, w2, last, second_t);
    lemma_output_extents(f, a, whole, mode, b0, w0, after, t);
    lemma_output_extents(f, a, first, mode, b1, w1, middle, first_t);
    lemma_output_extents(f, a, second, mode, middle, w2, last, second_t);
    let xa = reading_of(f, whole);
    let ya = reading_of(f, first);
    let za = reading_of(f, second);
    lemma_reading_of(f, whole, a.w_q.weight, w0.q.product);
    lemma_reading_of(f, first, a.w_q.weight, w1.q.product);
    lemma_reading_of(f, second, a.w_q.weight, w2.q.product);
    assert(is_part(xa, ya, 0) && is_part(xa, za, s1));
    lemma_past_stays(f, a, whole, mode, b0, w0, after, t);
    assert(holds_alike(b1.k.storage, w0.keys, b1.len as int) && holds_alike(b1.v.storage, w0.values, b1.len as int));
    lemma_part_fills(f, a, mode, whole, b0, w0, after, t, first, b1, w1, middle, first_t, &xa, &ya, 0);
    lemma_left_behind(f, a, first, mode, b1, w1, middle, first_t);
    assert forall|b: int, h: int, p: int|
        0 <= b < batch && 0 <= h < a.n_kv_head && 0 <= p < middle.len implies stored_row(middle.k.storage, b, h, p) == row_at(
        w0.keys,
        b,
        h,
        p,
    ) && stored_row(middle.v.storage, b, h, p) == row_at(w0.values, b, h, p) by {
        assert(row_at(w1.keys, b, h, p) == row_at(w0.keys, b, h, p));
        assert(row_at(w1.values, b, h, p) == row_at(w0.values, b, h, p));
    }
    lemma_part_fills(f, a, mode, whole, b0, w0, after, t, second, middle, w2, last, second_t, &xa, &za, s1);
    let e = whole.spec_shape()[2] as int;
    let sw = whole.spec_shape()[1] as int;
    if causal::zeros_vanish(f) && is_finite_pass(f, a, whole, cache, mode, t, after) {
        assert(attends_finitely(f, a, whole.spec_shape(), b0.len as int, w0));
        assert forall|b: int, r: int| 0 <= b < batch && 0 <= r < s1 implies #[trigger] matmul::flat_row(
            first_t.storage->F32_0.data@,
            b * s1 + r,
            e,
        ) == matmul::flat_row(t.storage->F32_0.data@, b * sw + (0 + r), e) by {
            assert(same_token(xa, 0 + r, ya, r, b));
            lemma_alike_output(f, a, mode, whole, b0, w0, after, t, first, b1, w1, middle, first_t, &xa, &ya, b, r, r);
        }
        assert(comes_out_alike(t, first_t, 0));
    }
    assert forall|b: int, r: int| 0 <= b < batch && 0 <= r < s2 implies #[trigger] matmul::flat_row(
        second_t.storage->F32_0.data@,
        b * s2 + r,
        e,
    ) == matmul::flat_row(t.storage->F32_0.data@, b * sw + (s1 + r), e) by {
        assert(same_token(xa, s1 + r, za, r, b));
        lemma_alike_output(f, a, mode, whole, b0, w0, after, t, second, middle, w2, last, second_t, &xa, &za, b, s1 + r, r);
    }
    lemma_left_behind(f, a, whole, mode, b0, w0, after, t);
    lemma_left_behind(f, a, second, mode, middle, w2, last, second_t);
    assert forall|b: int, h: int, p: int|
        0 <= b < batch && 0 <= h < a.n_kv_head && 0 <= p < after.len implies stored_row(after.k.storage, b, h, p)
        == stored_row(last.k.storage, b, h, p) && stored_row(after.v.storage, b, h, p) == stored_row(
        last.v.storage,
        b,
        h,
        p,
    ) by {
        assert(row_at(w2.keys, b, h, p) == row_at(w0.keys, b, h, p));
        assert(row_at(w2.values, b, h, p) == row_at(w0.values, b, h, p));
    }
}

/// What a tensor is read as.
spec fn reading_of<F: Fpu>(f: &F, x: Tensor) -> NdArray<u32> {
    choose|a: NdArray<u32>| #[trigger] autograd::reads_as(f, x.storage, a)
}

proof fn lemma_reading_of<F: Fpu>(f: &F, x: Tensor, w: Tensor, t: Tensor)
    requires
        matmul::is_matmul(f, x, w, t),
    ensures
        autograd::reads_as(f, x.storage, reading_of(f, x)),
{
}

} // verus!
