use crate::array;
use crate::array::NdArray;
use crate::autograd;
use crate::autograd::{GradMode, Tensor, TensorStorage};
use crate::dims;
use crate::float_bits;
use crate::fpu::Fpu;
use crate::kv_cache;
use crate::layers::activation;
use crate::layers::activation::Activation;
use crate::layers::attention::cache::KVCacheInner;
use crate::layers::attention::decode;
use crate::ops::arithmetic;
use crate::ops::arithmetic::BinaryOp;
use crate::ops::shape;
use std::sync::Arc;
use vstd::prelude::*;

verus! {

/// Reshaping, and reshaping back to the extents before, leaves an array as it was.
pub proof fn law_reshape_back<T>(a: &NdArray<T>, b: &NdArray<T>, c: &NdArray<T>, target: Seq<usize>)
    requires
        array::is_reshaped(a, target, b),
        array::is_reshaped(b, a.shape@, c),
    ensures
        c.same(a),
{
}

/// Putting the axes in another order, and then in the inverse order, leaves an array as
/// it was.
pub proof fn law_permute_back<T>(a: &NdArray<T>, b: &NdArray<T>, c: &NdArray<T>, axes: Seq<usize>, back: Seq<usize>)
    requires
        a.wf(),
        dims::is_permutation(axes, a.shape@.len() as int),
        dims::is_permutation(back, a.shape@.len() as int),
        shape::inverse_axes(axes, back),
        array::is_permuted(a, axes, b),
        array::is_permuted(b, back, c),
    ensures
        c.same(a),
{
    let n = a.shape@.len() as int;
    lemma_inverse_both_ways(axes, back, n);
    assert(c.shape@ =~= a.shape@) by {
        assert forall|i: int| 0 <= i < n implies c.shape@[i] == a.shape@[i] by {
            assert(axes[back[i] as int] == i);
        }
    }
    assert forall|index: Seq<usize>| dims::valid_index(c.shape@, index) implies #[trigger] c.at(index) == a.at(index) by {
        let middle = dims::permuted_shape(index, axes);
        assert forall|i: int| 0 <= i < n implies #[trigger] middle[i] < b.shape@[i] by {
            assert(middle[i] == index[axes[i] as int]);
            assert(index[axes[i] as int] < c.shape@[axes[i] as int]);
        }
        assert(dims::valid_index(b.shape@, middle));
        assert(a.at(index) == b.at(middle));
        let last = dims::permuted_shape(middle, back);
        assert(last =~= index) by {
            assert forall|i: int| 0 <= i < n implies last[i] == index[i] by {
                assert(axes[back[i] as int] == i);
            }
        }
        assert(b.at(middle) == c.at(last));
    }
    array::lemma_same_elements(c, a);
}

/// An order of axes that undoes another one is undone by it.
proof fn lemma_inverse_both_ways(axes: Seq<usize>, back: Seq<usize>, n: int)
    requires
        dims::is_permutation(axes, n),
        dims::is_permutation(back, n),
        shape::inverse_axes(axes, back),
    ensures
        forall|i: int| 0 <= i < n ==> axes[#[trigger] back[i] as int] == i,
{
    assert forall|i: int| 0 <= i < n implies axes[#[trigger] back[i] as int] == i by {
        let j = back[i] as int;
        let k = axes[j] as int;
        assert(back[axes[j] as int] == j);
        if k != i {
            assert(back[k] != back[i]);
        }
    }
}

/// Laying arrays end to end, and cutting one of them out again, gives it back.
pub proof fn law_cut_out_part<T>(parts: Seq<Arc<NdArray<T>>>, axis: int, p: int, whole: &NdArray<T>, part: &NdArray<T>)
    requires
        0 <= p < parts.len(),
        forall|q: int| 0 <= q < parts.len() ==> (#[trigger] parts[q]).wf(),
        dims::agree_off_axis(array::shapes_of(parts), axis),
        dims::axis_offset(array::shapes_of(parts), axis, parts.len() as int) <= usize::MAX,
        array::is_joined(parts, axis, whole),
        array::is_sliced(
            whole,
            axis,
            dims::axis_offset(array::shapes_of(parts), axis, p),
            dims::axis_offset(array::shapes_of(parts), axis, p + 1),
            part,
        ),
    ensures
        part.same(&*parts[p]),
{
    let shapes = array::shapes_of(parts);
    let start = dims::axis_offset(shapes, axis, p);
    let own = parts[p].shape@;
    dims::lemma_axis_offset_monotone(shapes, axis, p + 1, parts.len() as int);
    dims::lemma_axis_offset_monotone(shapes, axis, p, p + 1);
    assert(shapes[p] == own && shapes[0] == parts[0].shape@);
    assert(part.shape@ =~= own) by {
        assert forall|i: int| 0 <= i < own.len() implies part.shape@[i] == own[i] by {
            if i != axis {
                assert(shapes[p][i] == shapes[0][i]);
            }
        }
    }
    assert forall|index: Seq<usize>| dims::valid_index(part.shape@, index) implies #[trigger] part.at(index)
        == parts[p].at(index) by {
        assert(index[axis] < own[axis]);
        let there = index.update(axis, (index[axis] + start) as usize);
        assert(part.at(index) == whole.at(there));
        assert(parts[p].at(index) == whole.at(there));
    }
    array::lemma_same_elements(part, &*parts[p]);
}

/// Writing an array into another one, and cutting it out again, gives it back.
pub proof fn law_read_what_was_written<T>(
    before: &NdArray<T>,
    part: &NdArray<T>,
    axis: int,
    start: int,
    after: &NdArray<T>,
    cut: &NdArray<T>,
)
    requires
        before.wf(),
        part.wf(),
        0 <= axis < before.shape@.len(),
        part.shape@ == before.shape@.update(axis, part.shape@[axis]),
        0 <= start,
        start + part.shape@[axis] <= before.shape@[axis],
        array::is_overwritten(before, part, axis, start, after),
        array::is_sliced(after, axis, start, start + part.shape@[axis], cut),
    ensures
        cut.same(part),
{
    assert(cut.shape@ =~= part.shape@);
    assert forall|index: Seq<usize>| dims::valid_index(cut.shape@, index) implies #[trigger] cut.at(index) == part.at(
        index,
    ) by {
        assert(index[axis] < part.shape@[axis]);
        let there = index.update(axis, (index[axis] + start) as usize);
        assert(dims::valid_index(before.shape@, there)) by {
            assert forall|i: int| 0 <= i < there.len() implies #[trigger] there[i] < before.shape@[i] by {
                assert(index[i] < cut.shape@[i]);
            }
        }
        assert(there.update(axis, (there[axis] - start) as usize) =~= index);
        assert(after.at(there) == part.at(index));
    }
    array::lemma_same_elements(cut, part);
}

/// Writing an array into another one leaves alone what lies before it.
pub proof fn law_writing_keeps_the_rest<T>(
    before: &NdArray<T>,
    part: &NdArray<T>,
    axis: int,
    start: int,
    after: &NdArray<T>,
    len: int,
    old_cut: &NdArray<T>,
    new_cut: &NdArray<T>,
)
    requires
        before.wf(),
        0 <= axis < before.shape@.len(),
        0 <= len <= start <= before.shape@[axis],
        array::is_overwritten(before, part, axis, start, after),
        array::is_sliced(before, axis, 0, len, old_cut),
        array::is_sliced(after, axis, 0, len, new_cut),
    ensures
        new_cut.same(old_cut),
{
    assert forall|index: Seq<usize>| dims::valid_index(new_cut.shape@, index) implies #[trigger] new_cut.at(index)
        == old_cut.at(index) by {
        assert(index[axis] < new_cut.shape@[axis]);
        let there = index.update(axis, (index[axis] + 0) as usize);
        assert(there =~= index);
        assert(dims::valid_index(before.shape@, index)) by {
            assert forall|i: int| 0 <= i < index.len() implies #[trigger] index[i] < before.shape@[i] by {
                assert(index[i] < new_cut.shape@[i]);
            }
        }
        assert(new_cut.at(index) == after.at(there));
        assert(old_cut.at(index) == before.at(there));
    }
    array::lemma_same_elements(new_cut, old_cut);
}

/// A gradient that is put in its place among zeros, and cut out again, is the gradient.
pub proof fn law_cut_out_scattered<T>(a: &NdArray<T>, full: Seq<usize>, axis: int, start: int, fill: T, r: &NdArray<T>, cut: &NdArray<T>)
    requires
        a.wf(),
        0 <= axis < full.len(),
        a.shape@ == full.update(axis, a.shape@[axis]),
        0 <= start,
        start + a.shape@[axis] <= full[axis],
        array::is_scattered(a, full, axis, start, fill, r),
        array::is_sliced(r, axis, start, start + a.shape@[axis], cut),
    ensures
        cut.same(a),
{
    assert(cut.shape@ =~= a.shape@);
    assert forall|index: Seq<usize>| dims::valid_index(cut.shape@, index) implies #[trigger] cut.at(index) == a.at(
        index,
    ) by {
        assert(index[axis] < a.shape@[axis]);
        let there = index.update(axis, (index[axis] + start) as usize);
        assert(dims::valid_index(full, there)) by {
            assert forall|i: int| 0 <= i < there.len() implies #[trigger] there[i] < full[i] by {
                assert(index[i] < cut.shape@[i]);
            }
        }
        assert(there.update(axis, (there[axis] - start) as usize) =~= index);
        assert(r.at(there) == a.at(index));
    }
    array::lemma_same_elements(cut, a);
}

/// Array `part` stands in array `whole`, from `start` on along the axis of positions.
pub open spec fn array_stands_at<T>(whole: NdArray<T>, start: int, part: NdArray<T>) -> bool {
    let axis = kv_cache::POSITIONS as int;
    forall|index: Seq<usize>| dims::valid_index(part.shape@, index) ==> #[trigger] part.at(index) == whole.at(
        index.update(axis, (index[axis] + start) as usize),
    )
}

/// What `part` holds stands in `whole`, from `start` on along the axis of positions and in
/// the same precision.
pub open spec fn stands_at(whole: TensorStorage, start: int, part: TensorStorage) -> bool {
    match (whole, part) {
        (TensorStorage::F32(w), TensorStorage::F32(p)) => array_stands_at(*w, start, *p),
        (TensorStorage::F16(w), TensorStorage::F16(p)) => array_stands_at(*w, start, *p),
        (TensorStorage::BF16(w), TensorStorage::BF16(p)) => array_stands_at(*w, start, *p),
        _ => false,
    }
}

/// The values of `src` stand in `whole`, as a precision holds them.
pub open spec fn values_stand_at<F: Fpu>(f: &F, whole: TensorStorage, start: int, src: TensorStorage) -> bool {
    exists|a: NdArray<u32>, part: TensorStorage|
        autograd::reads_as(f, src, a) && #[trigger] autograd::stored_as(f, a, whole.spec_dtype(), part) && stands_at(
            whole,
            start,
            part,
        )
}

/// Extents of keys or values that can be written into a cache from a position on.
pub open spec fn can_be_written(cache: Seq<usize>, src: Seq<usize>, start: int) -> bool {
    let axis = kv_cache::POSITIONS as int;
    &&& cache.len() == 4
    &&& src.len() == 4
    &&& src == cache.update(axis, src[axis])
    &&& 0 <= start
    &&& start + src[axis] <= cache[axis]
}

proof fn lemma_written_part<T>(before: &NdArray<T>, part: &NdArray<T>, start: int, after: &NdArray<T>, view: &NdArray<T>)
    requires
        can_be_written(before.shape@, part.shape@, start),
        array::is_overwritten(before, part, kv_cache::POSITIONS as int, start, after),
        array::is_sliced(after, kv_cache::POSITIONS as int, 0, start + part.shape@[kv_cache::POSITIONS as int], view),
    ensures
        array_stands_at(*view, start, *part),
{
    let axis = kv_cache::POSITIONS as int;
    assert forall|index: Seq<usize>| dims::valid_index(part.shape@, index) implies #[trigger] part.at(index) == view.at(
        index.update(axis, (index[axis] + start) as usize),
    ) by {
        let there = index.update(axis, (index[axis] + start) as usize);
        assert(index[axis] < part.shape@[axis]);
        assert forall|i: int| 0 <= i < there.len() implies #[trigger] there[i] < view.shape@[i] by {
            assert(index[i] < part.shape@[i]);
        }
        assert(dims::valid_index(view.shape@, there));
        assert(dims::valid_index(before.shape@, there));
        assert(there.update(axis, (there[axis] + 0) as usize) =~= there);
        assert(there.update(axis, (there[axis] - start) as usize) =~= index);
        assert(view.at(there) == after.at(there));
    }
}

proof fn lemma_earlier_part<T>(
    before: &NdArray<T>,
    part: &NdArray<T>,
    start: int,
    after: &NdArray<T>,
    old_view: &NdArray<T>,
    view: &NdArray<T>,
)
    requires
        can_be_written(before.shape@, part.shape@, start),
        array::is_overwritten(before, part, kv_cache::POSITIONS as int, start, after),
        array::is_sliced(before, kv_cache::POSITIONS as int, 0, start, old_view),
        array::is_sliced(after, kv_cache::POSITIONS as int, 0, start + part.shape@[kv_cache::POSITIONS as int], view),
    ensures
        array_stands_at(*view, 0, *old_view),
{
    let axis = kv_cache::POSITIONS as int;
    assert forall|index: Seq<usize>| dims::valid_index(old_view.shape@, index) implies #[trigger] old_view.at(index)
        == view.at(index.update(axis, (index[axis] + 0) as usize)) by {
        assert(index.update(axis, (index[axis] + 0) as usize) =~= index);
        assert(index[axis] < old_view.shape@[axis]);
        assert forall|i: int| 0 <= i < index.len() implies #[trigger] index[i] < view.shape@[i] by {
            assert(index[i] < old_view.shape@[i]);
        }
        assert(dims::valid_index(view.shape@, index));
        assert(dims::valid_index(before.shape@, index));
        assert(view.at(index) == after.at(index));
    }
}

/// A writing into storage, and views of it before and after.
proof fn lemma_storage_gives_back<F: Fpu>(
    f: &F,
    before: TensorStorage,
    a: NdArray<u32>,
    start: int,
    after: TensorStorage,
    old_view: TensorStorage,
    view: TensorStorage,
)
    requires
        can_be_written(before.spec_shape(), a.shape@, start),
        kv_cache::range_written(f, before, a, start, after),
        shape::storage_sliced(before, kv_cache::POSITIONS as int, 0, start, old_view),
        shape::storage_sliced(after, kv_cache::POSITIONS as int, 0, start + a.shape@[kv_cache::POSITIONS as int], view),
    ensures
        view.spec_dtype() == before.spec_dtype(),
        exists|part: TensorStorage| #[trigger]
            autograd::stored_as(f, a, view.spec_dtype(), part) && stands_at(view, start, part),
        stands_at(view, 0, old_view),
{
    let part = choose|part: TensorStorage| #[trigger]
        autograd::stored_as(f, a, before.spec_dtype(), part) && kv_cache::storage_overwritten(before, part, start, after);
    match (before, part, after, old_view, view) {
        (
            TensorStorage::F32(b),
            TensorStorage::F32(p),
            TensorStorage::F32(r),
            TensorStorage::F32(o),
            TensorStorage::F32(v),
        ) => {
            lemma_written_part(&*b, &*p, start, &*r, &*v);
            lemma_earlier_part(&*b, &*p, start, &*r, &*o, &*v);
        },
        (
            TensorStorage::F16(b),
            TensorStorage::F16(p),
            TensorStorage::F16(r),
            TensorStorage::F16(o),
            TensorStorage::F16(v),
        ) => {
            lemma_written_part(&*b, &*p, start, &*r, &*v);
            lemma_earlier_part(&*b, &*p, start, &*r, &*o, &*v);
        },
        (
            TensorStorage::BF16(b),
            TensorStorage::BF16(p),
            TensorStorage::BF16(r),
            TensorStorage::BF16(o),
            TensorStorage::BF16(v),
        ) => {
            lemma_written_part(&*b, &*p, start, &*r, &*v);
            lemma_earlier_part(&*b, &*p, start, &*r, &*o, &*v);
        },
        _ => {},
    }
    assert(stands_at(view, start, part));
}

/// What was written into a cache can be read from it: a view up to the end of what was
/// written holds its values, in the precision of the cache, at their positions. Before
/// them it holds what a view held before the writing.
pub proof fn law_cache_gives_back<F: Fpu>(
    f: &F,
    before: Tensor,
    src: Tensor,
    start: int,
    after: Tensor,
    old_view: Tensor,
    view: Tensor,
)
    requires
        can_be_written(before.spec_shape(), src.spec_shape(), start),
        kv_cache::tensor_written(f, before, src, start, after),
        kv_cache::is_prefix_of(before, start, old_view),
        kv_cache::is_prefix_of(after, start + src.spec_shape()[kv_cache::POSITIONS as int], view),
    ensures
        view.spec_dtype() == before.spec_dtype(),
        values_stand_at(f, view.storage, start, src.storage),
        stands_at(view.storage, 0, old_view.storage),
{
    let a = choose|a: NdArray<u32>| #[trigger]
        autograd::reads_as(f, src.storage, a) && kv_cache::range_written(f, before.storage, a, start, after.storage);
    lemma_storage_gives_back(f, before.storage, a, start, after.storage, old_view.storage, view.storage);
}

/// When attention takes new tokens, its cache keeps the keys and values of the earlier
/// ones, and holds those of the new ones behind them.
pub proof fn law_attention_cache_grows<F: Fpu>(
    f: &F,
    before: KVCacheInner,
    keys: NdArray<u32>,
    values: NdArray<u32>,
    after: KVCacheInner,
    old_keys: TensorStorage,
    new_keys: TensorStorage,
    old_values: TensorStorage,
    new_values: TensorStorage,
)
    requires
        can_be_written(before.k.spec_shape(), keys.shape@, before.len as int),
        can_be_written(before.v.spec_shape(), values.shape@, before.len as int),
        keys.shape@[kv_cache::POSITIONS as int] == values.shape@[kv_cache::POSITIONS as int],
        decode::cache_extended(f, before, keys, values, keys.shape@[kv_cache::POSITIONS as int] as int, after),
        shape::storage_sliced(before.k.storage, kv_cache::POSITIONS as int, 0, before.len as int, old_keys),
        shape::storage_sliced(after.k.storage, kv_cache::POSITIONS as int, 0, after.len as int, new_keys),
        shape::storage_sliced(before.v.storage, kv_cache::POSITIONS as int, 0, before.len as int, old_values),
        shape::storage_sliced(after.v.storage, kv_cache::POSITIONS as int, 0, after.len as int, new_values),
    ensures
        after.len == before.len + keys.shape@[kv_cache::POSITIONS as int],
        stands_at(new_keys, 0, old_keys),
        stands_at(new_values, 0, old_values),
        exists|part: TensorStorage| #[trigger]
            autograd::stored_as(f, keys, new_keys.spec_dtype(), part) && stands_at(new_keys, before.len as int, part),
        exists|part: TensorStorage| #[trigger]
            autograd::stored_as(f, values, new_values.spec_dtype(), part) && stands_at(
                new_values,
                before.len as int,
                part,
            ),
{
    lemma_storage_gives_back(f, before.k.storage, keys, before.len as int, after.k.storage, old_keys, new_keys);
    lemma_storage_gives_back(f, before.v.storage, values, before.len as int, after.v.storage, old_values, new_values);
}

/// A cache in single precision gives back just what was written into it.
pub proof fn law_single_cache_is_exact<F: Fpu>(
    f: &F,
    before: Tensor,
    src: Tensor,
    start: int,
    after: Tensor,
    old_view: Tensor,
    view: Tensor,
)
    requires
        can_be_written(before.spec_shape(), src.spec_shape(), start),
        before.storage is F32,
        src.storage is F32,
        kv_cache::tensor_written(f, before, src, start, after),
        kv_cache::is_prefix_of(before, start, old_view),
        kv_cache::is_prefix_of(after, start + src.spec_shape()[kv_cache::POSITIONS as int], view),
    ensures
        stands_at(view.storage, start, src.storage),
{
    law_cache_gives_back(f, before, src, start, after, old_view, view);
    let (a, part) = choose|a: NdArray<u32>, part: TensorStorage|
        autograd::reads_as(f, src.storage, a) && #[trigger] autograd::stored_as(f, a, view.spec_dtype(), part) && stands_at(
            view.storage,
            start,
            part,
        );
    let x = src.storage->F32_0;
    let p = part->F32_0;
    let w = view.storage->F32_0;
    assert(x.shape@ == p.shape@ && x.data@ == p.data@);
    let axis = kv_cache::POSITIONS as int;
    assert forall|index: Seq<usize>| dims::valid_index(x.shape@, index) implies #[trigger] x.at(index) == w.at(
        index.update(axis, (index[axis] + start) as usize),
    ) by {
        assert(x.at(index) == p.at(index));
    }
}

/// Where nothing is recorded, reshaping, reordering axes and cutting keep the precision.
pub proof fn law_shape_operations_keep_precision<F: Fpu>(
    f: &F,
    input: Tensor,
    mode: GradMode,
    target: Seq<usize>,
    axes: Seq<usize>,
    start: int,
    end: int,
    reshaped: Tensor,
    permuted: Tensor,
    sliced: Tensor,
)
    requires
        mode.no_grad() || !input.requires_grad,
        shape::reshape_result(f, input, target, mode, reshaped),
        shape::permute_result(f, input, axes, mode, permuted),
        shape::slice_result(f, input, start, end, mode, sliced),
    ensures
        reshaped.spec_dtype() == input.spec_dtype(),
        permuted.spec_dtype() == input.spec_dtype(),
        sliced.spec_dtype() == input.spec_dtype(),
{
}

/// No element is something other than a number.
pub open spec fn holds_numbers(s: TensorStorage) -> bool {
    match s {
        TensorStorage::F32(_) => true,
        TensorStorage::F16(x) => forall|i: int| 0 <= i < x.data@.len() ==> #[trigger] x.data@[i] % 0x8000 <= 0x7c00,
        TensorStorage::BF16(x) => forall|i: int| 0 <= i < x.data@.len() ==> #[trigger] x.data@[i] % 0x8000 <= 0x7f80,
        TensorStorage::I8(_, _) => false,
    }
}

/// Both hold the same elements in the same precision.
pub open spec fn same_storage(a: TensorStorage, b: TensorStorage) -> bool {
    match (a, b) {
        (TensorStorage::F32(x), TensorStorage::F32(y)) => x.same(&*y),
        (TensorStorage::F16(x), TensorStorage::F16(y)) => x.same(&*y),
        (TensorStorage::BF16(x), TensorStorage::BF16(y)) => x.same(&*y),
        _ => false,
    }
}

/// Numbers that are read in single precision and held in the precision before are the
/// same.
pub proof fn law_precision_round_trip<F: Fpu>(f: &F, before: TensorStorage, single: NdArray<u32>, after: TensorStorage)
    requires
        before.wf(),
        holds_numbers(before),
        autograd::reads_as(f, before, single),
        autograd::stored_as(f, single, before.spec_dtype(), after),
    ensures
        same_storage(before, after),
{
    match (before, after) {
        (TensorStorage::F16(x), TensorStorage::F16(y)) => {
            assert forall|i: int| 0 <= i < x.data@.len() implies x.data@[i] == y.data@[i] by {
                float_bits::law_f16_round_trip(x.data@[i]);
                assert(single.data@[i] == float_bits::f16_widened(x.data@[i]));
            }
            assert(x.data@ =~= y.data@);
        },
        (TensorStorage::BF16(x), TensorStorage::BF16(y)) => {
            assert forall|i: int| 0 <= i < x.data@.len() implies x.data@[i] == y.data@[i] by {
                float_bits::law_bf16_round_trip(x.data@[i]);
                assert(single.data@[i] == float_bits::bf16_widened(x.data@[i]));
            }
            assert(x.data@ =~= y.data@);
        },
        _ => {},
    }
}

/// Two operands are brought to the same extents, whichever of them comes first.
pub proof fn law_broadcast_is_symmetric(a: Seq<usize>, b: Seq<usize>)
    requires
        dims::compatible(a, b),
    ensures
        dims::compatible(b, a),
        dims::broadcast_shape(a, b) == dims::broadcast_shape(b, a),
{
    let n = dims::max_ndim(a, b) as int;
    assert forall|i: int| 0 <= i < n implies #[trigger] dims::aligned(b, n, i) == dims::aligned(a, n, i) || dims::aligned(
        b,
        n,
        i,
    ) == 1 || dims::aligned(a, n, i) == 1 by {
        assert(dims::aligned(a, n, i) == dims::aligned(b, n, i) || dims::aligned(a, n, i) == 1 || dims::aligned(b, n, i)
            == 1);
    }
    assert(dims::broadcast_shape(a, b) =~= dims::broadcast_shape(b, a)) by {
        assert forall|i: int| 0 <= i < n implies dims::broadcast_shape(a, b)[i] == dims::broadcast_shape(b, a)[i] by {
            assert(dims::aligned(a, n, i) == dims::aligned(b, n, i) || dims::aligned(a, n, i) == 1 || dims::aligned(
                b,
                n,
                i,
            ) == 1);
        }
    }
}

/// A gradient of what two operands were brought to can be summed to either of them, if
/// no extent is zero.
pub proof fn law_gradients_reach_both_operands(a: Seq<usize>, b: Seq<usize>)
    requires
        dims::compatible(a, b),
        dims::fits(dims::broadcast_shape(a, b)),
        forall|i: int| 0 <= i < dims::broadcast_shape(a, b).len() ==> #[trigger] dims::broadcast_shape(a, b)[i] > 0,
    ensures
        arithmetic::shapes_combine(a, b),
{
    let wide = dims::broadcast_shape(a, b);
    dims::lemma_broadcast_stretches(a, b);
    assert forall|i: int| 0 <= i < a.len() implies #[trigger] a[i] == wide[i + (wide.len() - a.len())] || (a[i] == 1
        && wide[i + (wide.len() - a.len())] > 1) by {
        assert(wide[i + (wide.len() - a.len())] > 0);
    }
    assert forall|i: int| 0 <= i < b.len() implies #[trigger] b[i] == wide[i + (wide.len() - b.len())] || (b[i] == 1
        && wide[i + (wide.len() - b.len())] > 1) by {
        assert(wide[i + (wide.len() - b.len())] > 0);
    }
}

/// Where nothing is recorded, an elementwise operation keeps the precision that both of
/// its operands have, and an activation that of its input.
pub proof fn law_elementwise_operations_keep_precision<F: Fpu>(
    f: &F,
    op: BinaryOp,
    kind: Activation,
    l: Tensor,
    r: Tensor,
    mode: GradMode,
    t: Tensor,
    u: Tensor,
)
    requires
        mode.no_grad(),
        l.spec_dtype() == r.spec_dtype(),
        arithmetic::combined(f, op, l, r, mode, t),
        activation::activated(f, kind, l, mode, u),
    ensures
        t.spec_dtype() == l.spec_dtype(),
        u.spec_dtype() == l.spec_dtype(),
        !t.requires_grad,
        !u.requires_grad,
{
}

/// Both hold the same elements in the same precision, bytes as multiples of the same step.
pub open spec fn identical(a: TensorStorage, b: TensorStorage) -> bool {
    match (a, b) {
        (TensorStorage::I8(x, p), TensorStorage::I8(y, q)) => x.same(&*y) && p == q,
        _ => same_storage(a, b),
    }
}

/// Where parts that were cut out one after the other start.
proof fn lemma_cut_offsets(shapes: Seq<Seq<usize>>, axis: int, cuts: Seq<int>, p: int)
    requires
        cuts.len() == shapes.len() + 1,
        cuts[0] == 0,
        0 <= p <= shapes.len(),
        forall|q: int| 0 <= q < shapes.len() ==> (#[trigger] shapes[q])[axis] == cuts[q + 1] - cuts[q],
    ensures
        dims::axis_offset(shapes, axis, p) == cuts[p],
    decreases p,
{
    if p > 0 {
        lemma_cut_offsets(shapes, axis, cuts, p - 1);
        assert(shapes[p - 1][axis] == cuts[p] - cuts[p - 1]);
    }
}

/// A coordinate lies in one of the parts.
proof fn lemma_part_with(cuts: Seq<int>, x: int, n: int) -> (p: int)
    requires
        cuts.len() > n >= 0,
        cuts[0] == 0,
        0 <= x < cuts[n],
    ensures
        0 <= p < n,
        cuts[p] <= x < cuts[p + 1],
    decreases n,
{
    if x >= cuts[n - 1] {
        n - 1
    } else {
        lemma_part_with(cuts, x, n - 1)
    }
}

/// An array is cut into parts along an axis, from its start to its end. Laid end to end
/// they are the array again.
pub proof fn law_parts_join<T>(a: &NdArray<T>, axis: int, cuts: Seq<int>, parts: Seq<Arc<NdArray<T>>>, r: &NdArray<T>)
    requires
        a.wf(),
        0 <= axis < a.shape@.len(),
        parts.len() > 0,
        cuts.len() == parts.len() + 1,
        cuts[0] == 0,
        cuts[parts.len() as int] == a.shape@[axis],
        forall|p: int| 0 <= p < parts.len() ==> 0 <= #[trigger] cuts[p] <= cuts[p + 1] <= a.shape@[axis],
        forall|p: int| 0 <= p < parts.len() ==> array::is_sliced(a, axis, cuts[p], cuts[p + 1], &*#[trigger] parts[p]),
        array::is_joined(parts, axis, r),
    ensures
        r.same(a),
{
    let shapes = array::shapes_of(parts);
    let n = parts.len() as int;
    assert forall|q: int| 0 <= q < n implies (#[trigger] shapes[q])[axis] == cuts[q + 1] - cuts[q] by {
        assert(array::is_sliced(a, axis, cuts[q], cuts[q + 1], &*parts[q]));
        assert(0 <= cuts[q] <= cuts[q + 1] <= a.shape@[axis]);
    }
    lemma_cut_offsets(shapes, axis, cuts, n);
    assert(array::is_sliced(a, axis, cuts[0], cuts[1], &*parts[0]));
    assert(r.shape@ =~= a.shape@);
    assert forall|index: Seq<usize>| dims::valid_index(r.shape@, index) implies #[trigger] r.at(index) == a.at(index) by {
        assert(index[axis] < r.shape@[axis]);
        let x = index[axis] as int;
        let p = lemma_part_with(cuts, x, n);
        lemma_cut_offsets(shapes, axis, cuts, p);
        assert(0 <= cuts[p] <= cuts[p + 1] <= a.shape@[axis]);
        let part = parts[p];
        assert(array::is_sliced(a, axis, cuts[p], cuts[p + 1], &*part));
        let local = index.update(axis, (x - cuts[p]) as usize);
        assert(dims::valid_index(part.shape@, local)) by {
            assert forall|i: int| 0 <= i < local.len() implies #[trigger] local[i] < part.shape@[i] by {
                assert(index[i] < r.shape@[i]);
            }
        }
        assert(local.update(axis, (local[axis] + cuts[p]) as usize) =~= index);
        assert(part.at(local) == a.at(index));
        assert(parts[p].at(local) == r.at(index));
    }
    array::lemma_same_elements(r, a);
}

/// All of an axis is the array.
proof fn lemma_all_of_an_axis<T>(a: &NdArray<T>, axis: int)
    requires
        a.wf(),
        0 <= axis < a.shape@.len(),
    ensures
        array::is_sliced(a, axis, 0, a.shape@[axis] as int, a),
{
    assert(a.shape@.update(axis, a.shape@[axis]) =~= a.shape@);
    assert forall|index: Seq<usize>| dims::valid_index(a.shape@, index) implies #[trigger] a.at(index) == a.at(
        index.update(axis, (index[axis] + 0) as usize),
    ) by {
        assert(index.update(axis, (index[axis] + 0) as usize) =~= index);
    }
}

/// What `slice_last_dim` gives where nothing is recorded is cut out of what is held.
proof fn lemma_slice_is_cut<F: Fpu>(f: &F, input: Tensor, start: int, end: int, mode: GradMode, t: Tensor)
    requires
        input.wf(),
        input.spec_shape().len() > 0,
        mode.no_grad() || !input.requires_grad,
        shape::slice_result(f, input, start, end, mode, t),
    ensures
        shape::storage_sliced(input.storage, input.spec_shape().len() - 1, start, end, t.storage),
        !mode.no_grad() ==> !t.requires_grad,
{
    let axis = input.spec_shape().len() - 1;
    if start == 0 && end == input.spec_shape().last() {
        match input.storage {
            TensorStorage::F32(a) => lemma_all_of_an_axis(&*a, axis),
            TensorStorage::F16(a) => lemma_all_of_an_axis(&*a, axis),
            TensorStorage::BF16(a) => lemma_all_of_an_axis(&*a, axis),
            TensorStorage::I8(a, _) => lemma_all_of_an_axis(&*a, axis),
        }
    }
}

/// A tensor is cut along its last axis by `slice_last_dim`, from its start to its end.
/// Where nothing is recorded, `cat` of the parts is the tensor again: its extents, its
/// precision, the step of bytes, and its elements.
pub proof fn law_slices_join<F: Fpu>(f: &F, input: Tensor, cuts: Seq<int>, parts: Seq<Tensor>, mode: GradMode, t: Tensor)
    requires
        input.wf(),
        input.spec_shape().len() > 0,
        mode.no_grad() || !input.requires_grad,
        input.storage matches TensorStorage::I8(_, step) ==> float_bits::equal_values(step, step),
        parts.len() > 0,
        cuts.len() == parts.len() + 1,
        cuts[0] == 0,
        cuts[parts.len() as int] == input.spec_shape().last(),
        forall|p: int| 0 <= p < parts.len() ==> 0 <= #[trigger] cuts[p] <= cuts[p + 1] <= input.spec_shape().last(),
        forall|p: int| 0 <= p < parts.len() ==> shape::slice_result(f, input, cuts[p], cuts[p + 1], mode, #[trigger] parts[p]),
        if shape::single_constant(parts, mode) {
            t == parts[0]
        } else {
            shape::cat_result(f, parts, input.spec_shape().len() - 1, mode, t)
        },
    ensures
        t.spec_shape() == input.spec_shape(),
        t.spec_dtype() == input.spec_dtype(),
        identical(input.storage, t.storage),
{
    let axis = input.spec_shape().len() - 1;
    let n = parts.len() as int;
    assert forall|p: int| 0 <= p < n implies shape::storage_sliced(
        input.storage,
        axis,
        cuts[p],
        cuts[p + 1],
        (#[trigger] parts[p]).storage,
    ) && (!mode.no_grad() ==> !parts[p].requires_grad) by {
        lemma_slice_is_cut(f, input, cuts[p], cuts[p + 1], mode, parts[p]);
    }
    assert(shape::storage_sliced(input.storage, axis, cuts[0], cuts[1], parts[0].storage));
    if shape::single_constant(parts, mode) {
        assert(cuts[1] == input.spec_shape().last());
        assert(shape::slice_result(f, input, cuts[0], cuts[1], mode, parts[0]));
        assert(t == input);
    } else {
        assert(shape::all_held_as(parts, input.spec_dtype()));
        if !mode.no_grad() {
            assert(shape::all_constant(parts));
        }
        match input.storage {
            TensorStorage::F32(a) => {
                law_parts_join(&*a, axis, cuts, shape::single_parts(parts), &*t.storage->F32_0);
            },
            TensorStorage::F16(a) => {
                law_parts_join(&*a, axis, cuts, shape::f16_parts(parts), &*t.storage->F16_0);
            },
            TensorStorage::BF16(a) => {
                law_parts_join(&*a, axis, cuts, shape::bf16_parts(parts), &*t.storage->BF16_0);
            },
            TensorStorage::I8(a, step) => {
                assert forall|p: int, q: int| 0 <= p && q == p + 1 && q < parts.len() implies float_bits::equal_values(
                    shape::step_of(#[trigger] parts[p]),
                    shape::step_of(#[trigger] parts[q]),
                ) by {
                    assert(shape::step_of(parts[p]) == step && shape::step_of(parts[q]) == step);
                }
                assert(shape::one_step(parts));
                law_parts_join(&*a, axis, cuts, shape::byte_parts(parts), &*t.storage->I8_0);
            },
        }
    }
}

} // verus!
