use crate::dims;
use crate::dims::{checked_len, element_count, ravel_index, unravel_index};
use std::sync::Arc;
use vstd::prelude::*;

verus! {

/// A dense array with its elements in row-major order.
pub struct NdArray<T> {
    pub shape: Vec<usize>,
    pub data: Vec<T>,
}

impl<T> NdArray<T> {
    /// The extents fit, and there is one element for each index.
    pub open spec fn wf(&self) -> bool {
        &&& dims::fits(self.shape@)
        &&& self.data@.len() == dims::product(self.shape@)
    }

    /// Whether the array is sound.
    pub fn is_sound(&self) -> (r: bool)
        ensures
            r == self.wf(),
    {
        match checked_len(&self.shape) {
            Some(n) => n == self.data.len(),
            None => false,
        }
    }

    /// The element at an index.
    pub open spec fn at(&self, index: Seq<usize>) -> T {
        self.data@[dims::ravel(self.shape@, index)]
    }

    /// Both arrays have the same extents and the same elements.
    pub open spec fn same(&self, other: &NdArray<T>) -> bool {
        &&& self.shape@ == other.shape@
        &&& self.data@ == other.data@
    }
}

/// `r` has the elements of `a`, in the same order, under the extents `shape`.
pub open spec fn is_reshaped<T>(a: &NdArray<T>, shape: Seq<usize>, r: &NdArray<T>) -> bool {
    &&& r.wf()
    &&& r.shape@ == shape
    &&& r.data@ == a.data@
}

/// Axis `i` of `r` is axis `axes[i]` of `a`.
pub open spec fn is_permuted<T>(a: &NdArray<T>, axes: Seq<usize>, r: &NdArray<T>) -> bool {
    &&& r.wf()
    &&& r.shape@ == dims::permuted_shape(a.shape@, axes)
    &&& forall|index: Seq<usize>| dims::valid_index(a.shape@, index) ==> #[trigger] a.at(index) == r.at(
        dims::permuted_shape(index, axes),
    )
}

/// `r` consists of the parts, laid end to end along the axis.
pub open spec fn is_joined<T>(parts: Seq<Arc<NdArray<T>>>, axis: int, r: &NdArray<T>) -> bool {
    &&& r.wf()
    &&& r.shape@ == dims::joined_shape(shapes_of(parts), axis)
    &&& forall|p: int, index: Seq<usize>|
        0 <= p < parts.len() && dims::valid_index(parts[p].shape@, index) ==> #[trigger] parts[p].at(index) == r.at(
            index.update(axis, (index[axis] + dims::axis_offset(shapes_of(parts), axis, p)) as usize),
        )
}

/// `r` has the elements of `a` whose coordinate on the axis lies in `start..end`.
pub open spec fn is_sliced<T>(a: &NdArray<T>, axis: int, start: int, end: int, r: &NdArray<T>) -> bool {
    &&& r.wf()
    &&& r.shape@ == a.shape@.update(axis, (end - start) as usize)
    &&& forall|index: Seq<usize>| dims::valid_index(r.shape@, index) ==> #[trigger] r.at(index) == a.at(
        index.update(axis, (index[axis] + start) as usize),
    )
}

/// `r` has the extents `full`, the elements of `a` from `start` on along the axis,
/// and `fill` elsewhere.
pub open spec fn is_scattered<T>(
    a: &NdArray<T>,
    full: Seq<usize>,
    axis: int,
    start: int,
    fill: T,
    r: &NdArray<T>,
) -> bool {
    &&& r.wf()
    &&& r.shape@ == full
    &&& forall|index: Seq<usize>| dims::valid_index(full, index) ==> #[trigger] r.at(index) == (if start <= index[axis]
        < start + a.shape@[axis] {
        a.at(index.update(axis, (index[axis] - start) as usize))
    } else {
        fill
    })
}

/// `r` is `a` with the elements of `part` from `start` on along the axis.
pub open spec fn is_overwritten<T>(a: &NdArray<T>, part: &NdArray<T>, axis: int, start: int, r: &NdArray<T>) -> bool {
    &&& r.wf()
    &&& r.shape@ == a.shape@
    &&& forall|index: Seq<usize>| dims::valid_index(a.shape@, index) ==> #[trigger] r.at(index) == (if start <= index[axis]
        < start + part.shape@[axis] {
        part.at(index.update(axis, (index[axis] - start) as usize))
    } else {
        a.at(index)
    })
}

/// Arrays that agree at every index hold the same elements in the same order.
pub proof fn lemma_same_elements<T>(a: &NdArray<T>, b: &NdArray<T>)
    requires
        a.wf(),
        b.wf(),
        a.shape@ == b.shape@,
        forall|index: Seq<usize>| dims::valid_index(a.shape@, index) ==> #[trigger] a.at(index) == b.at(index),
    ensures
        a.same(b),
{
    assert forall|k: int| 0 <= k < a.data@.len() implies a.data@[k] == b.data@[k] by {
        dims::lemma_ravel_unravel(a.shape@, k);
        assert(a.at(dims::unravel(a.shape@, k)) == b.at(dims::unravel(a.shape@, k)));
    }
    assert(a.data@ =~= b.data@);
}

/// Position and index of an element describe each other.
proof fn lemma_at<T>(a: &NdArray<T>, index: Seq<usize>)
    requires
        a.wf(),
        dims::valid_index(a.shape@, index),
    ensures
        0 <= dims::ravel(a.shape@, index) < a.data@.len(),
        dims::unravel(a.shape@, dims::ravel(a.shape@, index)) == index,
{
    dims::lemma_ravel_bound(a.shape@, index);
    dims::lemma_unravel_ravel(a.shape@, index);
}

impl<T: Copy> NdArray<T> {
    /// An array of the given extents and elements, where their numbers agree.
    pub fn from_shape_vec(shape: Vec<usize>, data: Vec<T>) -> (r: Option<NdArray<T>>)
        ensures
            r is Some <==> dims::fits(shape@) && dims::product(shape@) == data@.len(),
            r matches Some(a) ==> a.wf() && a.shape@ == shape@ && a.data@ == data@,
    {
        match checked_len(&shape) {
            Some(n) if n == data.len() => Some(NdArray { shape, data }),
            _ => None,
        }
    }

    /// An array with the same value everywhere.
    pub fn filled(shape: Vec<usize>, value: T) -> (a: NdArray<T>)
        requires
            dims::fits(shape@),
        ensures
            a.wf(),
            a.shape@ == shape@,
            forall|k: int| 0 <= k < a.data@.len() ==> #[trigger] a.data@[k] == value,
    {
        let n: usize = element_count(&shape);
        let mut data: Vec<T> = Vec::with_capacity(n);
        for i in 0..n
            invariant
                data@.len() == i,
                forall|k: int| 0 <= k < i ==> #[trigger] data@[k] == value,
        {
            data.push(value);
        }
        NdArray { shape, data }
    }

    /// A copy of the array.
    pub fn copy(&self) -> (a: NdArray<T>)
        requires
            self.wf(),
        ensures
            a.wf(),
            a.same(self),
    {
        let mut data: Vec<T> = Vec::with_capacity(self.data.len());
        for i in 0..self.data.len()
            invariant
                data@ == self.data@.take(i as int),
        {
            data.push(self.data[i]);
        }
        assert(data@ =~= self.data@);
        NdArray { shape: self.shape.clone(), data }
    }

    /// The same elements, in the same order, under other extents.
    pub fn reshaped(&self, shape: Vec<usize>) -> (a: NdArray<T>)
        requires
            self.wf(),
            dims::fits(shape@),
            dims::product(shape@) == self.data@.len(),
        ensures
            is_reshaped(self, shape@, &a),
    {
        let c = self.copy();
        NdArray { shape, data: c.data }
    }

    /// Axis `i` of the result is axis `axes[i]` of the array.
    pub fn permuted(&self, axes: &Vec<usize>) -> (a: NdArray<T>)
        requires
            self.wf(),
            dims::is_permutation(axes@, self.shape@.len() as int),
        ensures
            is_permuted(self, axes@, &a),
    {
        let n: usize = axes.len();
        let mut shape: Vec<usize> = Vec::with_capacity(n);
        for i in 0..n
            invariant
                n == axes@.len() == self.shape@.len(),
                dims::is_permutation(axes@, n as int),
                shape@ == dims::permuted_shape(self.shape@, axes@).take(i as int),
        {
            assert(axes@[i as int] < n);
            shape.push(self.shape[axes[i]]);
        }
        assert(shape@ =~= dims::permuted_shape(self.shape@, axes@));
        proof {
            dims::lemma_product_permuted(self.shape@, axes@);
            dims::lemma_volume_permuted(self.shape@, axes@);
        }
        let mut data: Vec<T> = Vec::with_capacity(self.data.len());
        for k in 0..self.data.len()
            invariant
                self.wf(),
                n == axes@.len() == self.shape@.len(),
                dims::is_permutation(axes@, n as int),
                shape@ == dims::permuted_shape(self.shape@, axes@),
                dims::product(shape@) == self.data@.len(),
                data@.len() == k,
                forall|p: int, index: Seq<usize>|
                    0 <= p < k && dims::valid_index(self.shape@, index) && dims::unravel(shape@, p)
                        == #[trigger] dims::permuted_shape(index, axes@) ==> #[trigger] data@[p] == self.at(
                        index,
                    ),
        {
            let target: Vec<usize> = unravel_index(&shape, k);
            let mut source: Vec<usize> = vec![0; n];
            for i in 0..n
                invariant
                    n == axes@.len() == self.shape@.len() == source@.len() == target@.len(),
                    dims::is_permutation(axes@, n as int),
                    forall|j: int| 0 <= j < i ==> source@[#[trigger] axes@[j] as int] == target@[j],
            {
                let ghost before = source@;
                assert(axes@[i as int] < n);
                source.set(axes[i], target[i]);
                assert forall|j: int| 0 <= j < i + 1 implies source@[#[trigger] axes@[j] as int] == target@[j] by {
                    if j < i {
                        assert(axes@[j] != axes@[i as int]);
                    }
                }
            }
            proof {
                lemma_permuted_back(self.shape@, axes@, source@, target@);
            }
            let position: usize = ravel_index(&self.shape, &source);
            data.push(self.data[position]);
            proof {
                assert forall|p: int, index: Seq<usize>|
                    0 <= p < k + 1 && dims::valid_index(self.shape@, index) && dims::unravel(shape@, p)
                        == #[trigger] dims::permuted_shape(index, axes@) implies #[trigger] data@[p] == self.at(
                    index,
                ) by {
                    if p == k {
                        lemma_permuted_injective(axes@, index, source@);
                    }
                }
            }
        }
        let a = NdArray { shape, data };
        proof {
            assert forall|index: Seq<usize>| dims::valid_index(self.shape@, index) implies #[trigger] self.at(
                index,
            ) == a.at(dims::permuted_shape(index, axes@)) by {
                let target = dims::permuted_shape(index, axes@);
                assert forall|i: int| 0 <= i < n implies #[trigger] target[i] < a.shape@[i] by {
                    assert(axes@[i] < n);
                    assert(index[axes@[i] as int] < self.shape@[axes@[i] as int]);
                }
                lemma_at(&a, target);
                assert(a.data@[dims::ravel(a.shape@, target)] == self.at(index));
            }
        }
        a
    }
}

/// The extents of the parts.
pub open spec fn shapes_of<T>(parts: Seq<Arc<NdArray<T>>>) -> Seq<Seq<usize>> {
    Seq::new(parts.len(), |p: int| parts[p].shape@)
}

/// Sound parts that can be laid end to end along the axis.
pub open spec fn joinable<T>(parts: Seq<Arc<NdArray<T>>>, axis: int) -> bool {
    &&& forall|p: int| 0 <= p < parts.len() ==> (#[trigger] parts[p]).wf()
    &&& dims::agree_off_axis(shapes_of(parts), axis)
}

/// Total length of the parts along an axis.
pub fn joined_len<T: Copy>(parts: &Vec<Arc<NdArray<T>>>, axis: usize) -> (total: usize)
    requires
        joinable(parts@, axis as int),
        dims::axis_offset(shapes_of(parts@), axis as int, parts@.len() as int) <= usize::MAX,
    ensures
        total == dims::axis_offset(shapes_of(parts@), axis as int, parts@.len() as int),
{
    let mut total: usize = 0;
    for p in 0..parts.len()
        invariant
            joinable(parts@, axis as int),
            dims::axis_offset(shapes_of(parts@), axis as int, parts@.len() as int) <= usize::MAX,
            total == dims::axis_offset(shapes_of(parts@), axis as int, p as int),
    {
        proof {
            dims::lemma_axis_offset_monotone(shapes_of(parts@), axis as int, p + 1, parts@.len() as int);
            assert(shapes_of(parts@)[p as int].len() == shapes_of(parts@)[0].len());
        }
        total = total + parts[p].shape[axis];
    }
    total
}

/// The parts laid end to end along an axis.
pub fn concatenate<T: Copy>(parts: &Vec<Arc<NdArray<T>>>, axis: usize) -> (a: NdArray<T>)
    requires
        joinable(parts@, axis as int),
        dims::join_fits(shapes_of(parts@), axis as int),
    ensures
        is_joined(parts@, axis as int, &a),
{
    let total: usize = joined_len(parts, axis);
    let ghost ax = axis as int;
    let mut shape: Vec<usize> = parts[0].shape.clone();
    shape.set(axis, total);
    assert(shape@ =~= dims::joined_shape(shapes_of(parts@), ax));
    let n: usize = element_count(&shape);
    let mut data: Vec<T> = Vec::with_capacity(n);
    for k in 0..n
        invariant
            ax == axis,
            joinable(parts@, ax),
            total == dims::axis_offset(shapes_of(parts@), ax, parts@.len() as int),
            shape@ == dims::joined_shape(shapes_of(parts@), ax),
            n == dims::product(shape@),
            data@.len() == k,
            forall|j: int, p: int|
                0 <= j < k && 0 <= p < parts@.len() && #[trigger] dims::axis_offset(shapes_of(parts@), ax, p) <= dims::unravel(shape@, j)[ax]
                    && dims::unravel(shape@, j)[ax] < dims::axis_offset(shapes_of(parts@), ax, p + 1) ==> #[trigger] data@[j] == parts@[p].at(
                    dims::unravel(shape@, j).update(
                        ax,
                        (dims::unravel(shape@, j)[ax] - dims::axis_offset(shapes_of(parts@), ax, p)) as usize,
                    ),
                ),
    {
        let target: Vec<usize> = unravel_index(&shape, k);
        let count: usize = parts.len();
        let mut part: usize = 0;
        let mut offset: usize = 0;
        assert(target@[ax] < shape@[ax]);
        while target[axis] - offset >= parts[part].shape[axis]
            invariant
                ax == axis,
                joinable(parts@, ax),
                total == dims::axis_offset(shapes_of(parts@), ax, parts@.len() as int),
                0 <= ax < target@.len(),
                target@[ax] < total,
                part < count,
                count == parts@.len(),
                axis < parts@[part as int].shape@.len(),
                offset == dims::axis_offset(shapes_of(parts@), ax, part as int),
                offset <= target@[ax],
            decreases parts@.len() - part,
        {
            proof {
                assert(dims::axis_offset(shapes_of(parts@), ax, part + 1) == offset + parts@[part as int].shape@[ax]);
                dims::lemma_axis_offset_monotone(shapes_of(parts@), ax, part + 1, parts@.len() as int);
            }
            offset = offset + parts[part].shape[axis];
            part = part + 1;
            assert(shapes_of(parts@)[part as int].len() == shapes_of(parts@)[0].len());
        }
        let within: usize = target[axis] - offset;
        let mut source: Vec<usize> = target.clone();
        source.set(axis, within);
        proof {
            let s = parts@[part as int].shape@;
            assert(shapes_of(parts@)[part as int].len() == shapes_of(parts@)[0].len());
            assert forall|i: int| 0 <= i < s.len() implies #[trigger] source@[i] < s[i] by {
                if i != ax {
                    assert(target@[i] < shape@[i]);
                    assert(shapes_of(parts@)[part as int][i] == shapes_of(parts@)[0][i]);
                }
            }
            dims::lemma_product_bounded_by_volume(s);
            dims::lemma_ravel_bound(s, source@);
            assert(parts@[part as int].wf());
        }
        let position: usize = ravel_index(&parts[part].shape, &source);
        data.push(parts[part].data[position]);
        proof {
            assert forall|j: int, p: int|
                0 <= j < k + 1 && 0 <= p < parts@.len() && #[trigger] dims::axis_offset(shapes_of(parts@), ax, p) <= dims::unravel(shape@, j)[ax]
                    && dims::unravel(shape@, j)[ax] < dims::axis_offset(shapes_of(parts@), ax, p + 1) implies #[trigger] data@[j]
                == parts@[p].at(
                dims::unravel(shape@, j).update(
                    ax,
                    (dims::unravel(shape@, j)[ax] - dims::axis_offset(shapes_of(parts@), ax, p)) as usize,
                ),
            ) by {
                if j == k {
                    if p < part {
                        dims::lemma_axis_offset_monotone(shapes_of(parts@), ax, p + 1, part as int);
                    } else if p > part {
                        dims::lemma_axis_offset_monotone(shapes_of(parts@), ax, part + 1, p);
                        assert(dims::axis_offset(shapes_of(parts@), ax, part + 1) == offset + parts@[part as int].shape@[ax]);
                    }
                    assert(source@ =~= target@.update(ax, (target@[ax] - offset) as usize));
                }
            }
        }
    }
    let a = NdArray { shape, data };
    proof {
        assert forall|p: int, index: Seq<usize>|
            0 <= p < parts@.len() && dims::valid_index(parts@[p].shape@, index) implies #[trigger] parts@[p].at(index)
            == a.at(index.update(ax, (index[ax] + dims::axis_offset(shapes_of(parts@), ax, p)) as usize)) by {
            let start = dims::axis_offset(shapes_of(parts@), ax, p);
            assert(shapes_of(parts@)[p].len() == shapes_of(parts@)[0].len());
            dims::lemma_axis_offset_monotone(shapes_of(parts@), ax, p, p);
            dims::lemma_axis_offset_monotone(shapes_of(parts@), ax, p + 1, parts@.len() as int);
            assert(dims::axis_offset(shapes_of(parts@), ax, p + 1) == start + parts@[p].shape@[ax]);
            assert(index[ax] < parts@[p].shape@[ax]);
            let target = index.update(ax, (index[ax] + start) as usize);
            assert forall|i: int| 0 <= i < a.shape@.len() implies #[trigger] target[i] < a.shape@[i] by {
                if i != ax {
                    assert(index[i] < parts@[p].shape@[i]);
                    assert(shapes_of(parts@)[p][i] == shapes_of(parts@)[0][i]);
                }
            }
            lemma_at(&a, target);
            let j = dims::ravel(a.shape@, target);
            assert(a.data@[j] == parts@[p].at(target.update(ax, (target[ax] - start) as usize)));
            assert(target.update(ax, (target[ax] - start) as usize) =~= index);
        }
    }
    a
}

impl<T: Copy> NdArray<T> {
    /// The elements whose coordinate on an axis lies in `start..end`.
    pub fn slice_axis(&self, axis: usize, start: usize, end: usize) -> (a: NdArray<T>)
        requires
            self.wf(),
            axis < self.shape@.len(),
            start <= end <= self.shape@[axis as int],
        ensures
            is_sliced(self, axis as int, start as int, end as int, &a),
    {
        let ghost ax = axis as int;
        let mut shape: Vec<usize> = self.shape.clone();
        shape.set(axis, end - start);
        proof {
            dims::lemma_shorter_axis_fits(self.shape@, ax, (end - start) as usize);
            dims::lemma_product_bounded_by_volume(self.shape@);
        }
        let n: usize = element_count(&shape);
        let mut data: Vec<T> = Vec::with_capacity(n);
        for k in 0..n
            invariant
                ax == axis,
                self.wf(),
                0 <= ax < self.shape@.len(),
                start <= end <= self.shape@[ax],
                shape@ == self.shape@.update(ax, (end - start) as usize),
                n == dims::product(shape@),
                dims::product(self.shape@) <= usize::MAX,
                data@.len() == k,
                forall|j: int| 0 <= j < k ==> #[trigger] data@[j] == self.at(
                    dims::unravel(shape@, j).update(ax, (dims::unravel(shape@, j)[ax] + start) as usize),
                ),
        {
            let mut source: Vec<usize> = unravel_index(&shape, k);
            let ghost target = source@;
            assert(target[ax] < shape@[ax]);
            let moved: usize = source[axis] + start;
            source.set(axis, moved);
            proof {
                assert forall|i: int| 0 <= i < self.shape@.len() implies #[trigger] source@[i] < self.shape@[i] by {
                    assert(target[i] < shape@[i]);
                }
                dims::lemma_ravel_bound(self.shape@, source@);
            }
            let position: usize = ravel_index(&self.shape, &source);
            data.push(self.data[position]);
        }
        let a = NdArray { shape, data };
        proof {
            assert forall|index: Seq<usize>| dims::valid_index(a.shape@, index) implies #[trigger] a.at(index) == self.at(
                index.update(ax, (index[ax] + start) as usize),
            ) by {
                lemma_at(&a, index);
            }
        }
        a
    }

    /// An array that holds the elements of this one in `start..start + len` of an
    /// axis, where `len` is its own length there, and `fill` elsewhere.
    pub fn scattered(&self, full: Vec<usize>, axis: usize, start: usize, fill: T) -> (a: NdArray<T>)
        requires
            self.wf(),
            dims::fits(full@),
            axis < full@.len(),
            self.shape@.len() == full@.len(),
            start + self.shape@[axis as int] <= full@[axis as int],
            self.shape@ == full@.update(axis as int, self.shape@[axis as int]),
        ensures
            is_scattered(self, full@, axis as int, start as int, fill, &a),
    {
        let ghost ax = axis as int;
        let n: usize = element_count(&full);
        let width: usize = self.shape[axis];
        let mut data: Vec<T> = Vec::with_capacity(n);
        for k in 0..n
            invariant
                ax == axis,
                self.wf(),
                0 <= ax < full@.len(),
                width == self.shape@[ax],
                start + width <= full@[ax],
                self.shape@ == full@.update(ax, width),
                n == dims::product(full@),
                data@.len() == k,
                forall|j: int| 0 <= j < k ==> #[trigger] data@[j] == (if start <= dims::unravel(full@, j)[ax] < start + width {
                    self.at(dims::unravel(full@, j).update(ax, (dims::unravel(full@, j)[ax] - start) as usize))
                } else {
                    fill
                }),
        {
            let mut source: Vec<usize> = unravel_index(&full, k);
            let ghost target = source@;
            let c: usize = source[axis];
            assert(target[ax] < full@[ax]);
            if c >= start && c - start < width {
                source.set(axis, c - start);
                proof {
                    assert forall|i: int| 0 <= i < self.shape@.len() implies #[trigger] source@[i] < self.shape@[i] by {
                        assert(target[i] < full@[i]);
                    }
                    dims::lemma_product_bounded_by_volume(self.shape@);
                    dims::lemma_ravel_bound(self.shape@, source@);
                }
                let position: usize = ravel_index(&self.shape, &source);
                data.push(self.data[position]);
            } else {
                data.push(fill);
            }
        }
        let a = NdArray { shape: full, data };
        proof {
            assert forall|index: Seq<usize>| dims::valid_index(full@, index) implies #[trigger] a.at(index) == (if start
                <= index[ax] < start + width {
                self.at(index.update(ax, (index[ax] - start) as usize))
            } else {
                fill
            }) by {
                lemma_at(&a, index);
            }
        }
        a
    }
}

impl<T: Copy> NdArray<T> {
    /// This array with the elements of another in `start..start + len` of an axis, where
    /// `len` is the length of the other there.
    pub fn overwritten(&self, part: &NdArray<T>, axis: usize, start: usize) -> (a: NdArray<T>)
        requires
            self.wf(),
            part.wf(),
            axis < self.shape@.len(),
            self.shape@.len() == part.shape@.len(),
            start + part.shape@[axis as int] <= self.shape@[axis as int],
            part.shape@ == self.shape@.update(axis as int, part.shape@[axis as int]),
        ensures
            is_overwritten(self, part, axis as int, start as int, &a),
    {
        let ghost ax = axis as int;
        let n: usize = self.data.len();
        let width: usize = part.shape[axis];
        let mut data: Vec<T> = Vec::with_capacity(n);
        for k in 0..n
            invariant
                ax == axis,
                self.wf(),
                part.wf(),
                0 <= ax < self.shape@.len(),
                width == part.shape@[ax],
                start + width <= self.shape@[ax],
                part.shape@ == self.shape@.update(ax, width),
                n == self.data@.len(),
                data@.len() == k,
                forall|j: int|
                    0 <= j < k ==> #[trigger] data@[j] == (if start <= dims::unravel(self.shape@, j)[ax] < start + width {
                        part.at(
                            dims::unravel(self.shape@, j).update(ax, (dims::unravel(self.shape@, j)[ax] - start) as usize),
                        )
                    } else {
                        self.data@[j]
                    }),
        {
            let mut source: Vec<usize> = unravel_index(&self.shape, k);
            let ghost target = source@;
            let c: usize = source[axis];
            assert(target[ax] < self.shape@[ax]);
            if c >= start && c - start < width {
                source.set(axis, c - start);
                proof {
                    assert forall|i: int| 0 <= i < part.shape@.len() implies #[trigger] source@[i] < part.shape@[i] by {
                        assert(target[i] < self.shape@[i]);
                    }
                    dims::lemma_product_bounded_by_volume(part.shape@);
                    dims::lemma_ravel_bound(part.shape@, source@);
                }
                let position: usize = ravel_index(&part.shape, &source);
                data.push(part.data[position]);
            } else {
                data.push(self.data[k]);
            }
        }
        let a = NdArray { shape: self.shape.clone(), data };
        proof {
            assert forall|index: Seq<usize>| dims::valid_index(self.shape@, index) implies #[trigger] a.at(index) == (
            if start <= index[ax] < start + width {
                part.at(index.update(ax, (index[ax] - start) as usize))
            } else {
                self.at(index)
            }) by {
                lemma_at(&a, index);
            }
        }
        a
    }
}

/// An index read through a permutation gives back every coordinate.
proof fn lemma_permuted_injective(axes: Seq<usize>, x: Seq<usize>, y: Seq<usize>)
    requires
        x.len() == y.len() == axes.len(),
        dims::is_permutation(axes, axes.len() as int),
        dims::permuted_shape(x, axes) == dims::permuted_shape(y, axes),
    ensures
        x == y,
{
    assert forall|a: int| 0 <= a < x.len() implies x[a] == y[a] by {
        lemma_permutation_onto(axes, a);
        let i = choose|i: int| 0 <= i < axes.len() && axes[i] == a;
        assert(dims::permuted_shape(x, axes)[i] == x[a]);
        assert(dims::permuted_shape(y, axes)[i] == y[a]);
    }
    assert(x =~= y);
}

/// Every axis occurs in a permutation of the axes.
pub proof fn lemma_permutation_onto(axes: Seq<usize>, a: int)
    requires
        dims::is_permutation(axes, axes.len() as int),
        0 <= a < axes.len(),
    ensures
        exists|i: int| 0 <= i < axes.len() && axes[i] == a,
    decreases axes.len(),
{
    let n = axes.len() as int;
    let last = axes[n - 1] as int;
    if last != a {
        let rest = Seq::new(
            (n - 1) as nat,
            |i: int| if axes[i] > last { (axes[i] - 1) as usize } else { axes[i] },
        );
        assert forall|i: int| 0 <= i < n - 1 implies #[trigger] rest[i] < n - 1 by {
            assert(axes[i] != axes[n - 1]);
        }
        assert forall|i: int, j: int| 0 <= i < j < n - 1 implies #[trigger] rest[i] != #[trigger] rest[j] by {
            assert(axes[i] != axes[j]);
            assert(axes[i] != axes[n - 1]);
            assert(axes[j] != axes[n - 1]);
        }
        let b = if a > last { a - 1 } else { a };
        lemma_permutation_onto(rest, b);
        let i = choose|i: int| 0 <= i < rest.len() && rest[i] == b;
        assert(axes[i] != axes[n - 1]);
        assert(axes[i] == a);
    }
}

/// Writing the coordinates of an index back through a permutation gives a valid index.
proof fn lemma_permuted_back(shape: Seq<usize>, axes: Seq<usize>, source: Seq<usize>, target: Seq<usize>)
    requires
        dims::is_permutation(axes, shape.len() as int),
        source.len() == target.len() == shape.len(),
        dims::valid_index(dims::permuted_shape(shape, axes), target),
        forall|j: int| 0 <= j < axes.len() ==> source[#[trigger] axes[j] as int] == target[j],
    ensures
        dims::valid_index(shape, source),
        dims::permuted_shape(source, axes) == target,
{
    assert forall|a: int| 0 <= a < shape.len() implies #[trigger] source[a] < shape[a] by {
        lemma_permutation_onto(axes, a);
        let i = choose|i: int| 0 <= i < axes.len() && axes[i] == a;
        assert(source[axes[i] as int] == target[i]);
        assert(target[i] < dims::permuted_shape(shape, axes)[i]);
    }
    assert(dims::permuted_shape(source, axes) =~= target);
}

} // verus!
