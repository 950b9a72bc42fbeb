use vstd::arithmetic::div_mod::{lemma_fundamental_div_mod, lemma_fundamental_div_mod_converse};
use vstd::arithmetic::mul::{lemma_mul_inequality, lemma_mul_is_commutative, lemma_mul_nonnegative};
use vstd::prelude::*;

verus! {

/// Number of elements of an array with the given extents.
pub open spec fn product(shape: Seq<usize>) -> nat
    decreases shape.len(),
{
    if shape.len() == 0 {
        1
    } else {
        product(shape.drop_last()) * (shape.last() as nat)
    }
}

/// The extents with every zero read as a one.
pub open spec fn nonzero_extents(shape: Seq<usize>) -> Seq<usize> {
    Seq::new(shape.len(), |i: int| if shape[i] == 0 { 1usize } else { shape[i] })
}

/// Product of the nonzero extents: what has to fit into an address for the
/// extents to be usable at all, whatever their order.
pub open spec fn volume(shape: Seq<usize>) -> nat {
    product(nonzero_extents(shape))
}

/// Extents of which every partial product fits into a `usize`.
pub open spec fn fits(shape: Seq<usize>) -> bool {
    volume(shape) <= usize::MAX
}

/// `index` names one element of an array with extents `shape`.
pub open spec fn valid_index(shape: Seq<usize>, index: Seq<usize>) -> bool {
    &&& index.len() == shape.len()
    &&& forall|i: int| 0 <= i < shape.len() ==> #[trigger] index[i] < shape[i]
}

/// Row-major position of the element at `index`.
pub open spec fn ravel(shape: Seq<usize>, index: Seq<usize>) -> int
    decreases shape.len(),
{
    if shape.len() == 0 {
        0
    } else {
        ravel(shape.drop_last(), index.drop_last()) * shape.last() + index.last()
    }
}

/// The index whose row-major position is `k`.
pub open spec fn unravel(shape: Seq<usize>, k: int) -> Seq<usize>
    decreases shape.len(),
{
    if shape.len() == 0 {
        Seq::empty()
    } else {
        unravel(shape.drop_last(), k / (shape.last() as int)).push((k % (shape.last() as int)) as usize)
    }
}

pub proof fn lemma_ravel_bound(shape: Seq<usize>, index: Seq<usize>)
    requires
        valid_index(shape, index),
    ensures
        0 <= ravel(shape, index) < product(shape),
    decreases shape.len(),
{
    if shape.len() > 0 {
        let n = shape.last() as int;
        let r = ravel(shape.drop_last(), index.drop_last());
        let p = product(shape.drop_last()) as int;
        assert forall|i: int| 0 <= i < shape.drop_last().len() implies #[trigger] index.drop_last()[i]
            < shape.drop_last()[i] by {
            assert(index[i] < shape[i]);
        }
        lemma_ravel_bound(shape.drop_last(), index.drop_last());
        assert(index[shape.len() - 1] < shape[shape.len() - 1]);
        assert(r * n + index.last() < p * n) by (nonlinear_arith)
            requires
                0 <= r < p,
                index.last() < n,
        ;
        lemma_mul_nonnegative(r, n);
    }
}

/// Distinct positions and valid indices correspond one to one.
pub proof fn lemma_unravel_ravel(shape: Seq<usize>, index: Seq<usize>)
    requires
        valid_index(shape, index),
    ensures
        unravel(shape, ravel(shape, index)) == index,
    decreases shape.len(),
{
    if shape.len() > 0 {
        let n = shape.last() as int;
        let r = ravel(shape.drop_last(), index.drop_last());
        assert forall|i: int| 0 <= i < shape.drop_last().len() implies #[trigger] index.drop_last()[i]
            < shape.drop_last()[i] by {
            assert(index[i] < shape[i]);
        }
        assert(index[shape.len() - 1] < shape[shape.len() - 1]);
        lemma_unravel_ravel(shape.drop_last(), index.drop_last());
        lemma_mul_is_commutative(r, n);
        lemma_fundamental_div_mod_converse(r * n + index.last(), n, r, index.last() as int);
        assert(index.drop_last().push(index.last()) =~= index);
    } else {
        assert(index =~= Seq::<usize>::empty());
    }
}

pub proof fn lemma_ravel_unravel(shape: Seq<usize>, k: int)
    requires
        0 <= k < product(shape),
    ensures
        valid_index(shape, unravel(shape, k)),
        ravel(shape, unravel(shape, k)) == k,
    decreases shape.len(),
{
    if shape.len() > 0 {
        let n = shape.last() as int;
        let p = product(shape.drop_last()) as int;
        assert(n > 0) by (nonlinear_arith)
            requires
                0 <= k < p * n,
                n >= 0,
        ;
        assert(0 <= k / n < p && 0 <= k % n < n) by (nonlinear_arith)
            requires
                0 <= k < p * n,
                n > 0,
        ;
        lemma_ravel_unravel(shape.drop_last(), k / n);
        let index = unravel(shape, k);
        let head = unravel(shape.drop_last(), k / n);
        assert(index.drop_last() =~= head);
        assert forall|i: int| 0 <= i < shape.len() implies #[trigger] index[i] < shape[i] by {
            if i < shape.len() - 1 {
                assert(head[i] < shape.drop_last()[i]);
            }
        }
        lemma_fundamental_div_mod(k, n);
        lemma_mul_is_commutative(k / n, n);
    }
}

/// A product that is not zero has no zero factor, and bounds that of every prefix.
pub proof fn lemma_product_prefix(shape: Seq<usize>, n: int)
    requires
        0 <= n <= shape.len(),
        forall|i: int| 0 <= i < shape.len() ==> #[trigger] shape[i] > 0,
    ensures
        1 <= product(shape.take(n)) <= product(shape),
    decreases shape.len(),
{
    if shape.len() == 0 {
        assert(shape.take(n) =~= shape);
    } else {
        let head = shape.drop_last();
        assert forall|i: int| 0 <= i < head.len() implies #[trigger] head[i] > 0 by {
            assert(shape[i] > 0);
        }
        assert(shape[shape.len() - 1] > 0);
        let last = shape.last() as int;
        if n == shape.len() {
            assert(shape.take(n) =~= shape);
            lemma_product_prefix(head, head.len() as int);
            assert(head.take(head.len() as int) =~= head);
            lemma_mul_inequality(1, product(head) as int, last);
        } else {
            assert(shape.take(n) =~= head.take(n));
            lemma_product_prefix(head, n);
            lemma_product_prefix(head, head.len() as int);
            assert(head.take(head.len() as int) =~= head);
            assert(product(head) <= product(head) * last) by (nonlinear_arith)
                requires
                    last >= 1,
            ;
        }
    }
}

pub proof fn lemma_product_bounded_by_volume(shape: Seq<usize>)
    ensures
        product(shape) <= volume(shape),
        1 <= volume(shape),
        (forall|i: int| 0 <= i < shape.len() ==> #[trigger] shape[i] > 0) ==> product(shape) == volume(shape),
    decreases shape.len(),
{
    let full = nonzero_extents(shape);
    if shape.len() > 0 {
        lemma_product_bounded_by_volume(shape.drop_last());
        assert(full.drop_last() =~= nonzero_extents(shape.drop_last()));
        let p = product(shape.drop_last()) as int;
        let v = product(full.drop_last()) as int;
        let n = shape.last() as int;
        let m = full.last() as int;
        assert(p * n <= v * m && 1 <= v * m) by (nonlinear_arith)
            requires
                0 <= p <= v,
                1 <= v,
                0 <= n <= m,
                1 <= m,
        ;
        if forall|i: int| 0 <= i < shape.len() ==> #[trigger] shape[i] > 0 {
            assert(full =~= shape);
        }
    }
}

/// Every prefix of fitting extents has a product that fits.
pub proof fn lemma_prefix_fits(shape: Seq<usize>, n: int)
    requires
        0 <= n <= shape.len(),
    ensures
        product(shape.take(n)) <= volume(shape.take(n)) <= volume(shape),
{
    lemma_product_bounded_by_volume(shape.take(n));
    let full = nonzero_extents(shape);
    assert(full.take(n) =~= nonzero_extents(shape.take(n)));
    lemma_product_prefix(full, n);
}

/// A factor can be taken out of the product, wherever it stands.
pub proof fn lemma_product_remove(shape: Seq<usize>, i: int)
    requires
        0 <= i < shape.len(),
    ensures
        product(shape) == product(shape.remove(i)) * shape[i],
    decreases shape.len(),
{
    let head = shape.drop_last();
    if i == shape.len() - 1 {
        assert(shape.remove(i) =~= head);
    } else {
        lemma_product_remove(head, i);
        assert(shape.remove(i).drop_last() =~= head.remove(i));
        let p = product(head.remove(i)) as int;
        let a = shape[i] as int;
        let b = shape.last() as int;
        assert((p * a) * b == (p * b) * a) by (nonlinear_arith);
    }
}

/// `axes` lists each of `0..n` once.
pub open spec fn is_permutation(axes: Seq<usize>, n: int) -> bool {
    &&& axes.len() == n
    &&& forall|i: int| 0 <= i < n ==> #[trigger] axes[i] < n
    &&& forall|i: int, j: int| 0 <= i < j < n ==> #[trigger] axes[i] != #[trigger] axes[j]
}

/// The extents read in the order that `axes` gives.
pub open spec fn permuted_shape(shape: Seq<usize>, axes: Seq<usize>) -> Seq<usize> {
    Seq::new(axes.len(), |i: int| shape[axes[i] as int])
}

/// Reading the extents in another order does not change their product.
pub proof fn lemma_product_permuted(shape: Seq<usize>, axes: Seq<usize>)
    requires
        is_permutation(axes, shape.len() as int),
    ensures
        product(permuted_shape(shape, axes)) == product(shape),
    decreases shape.len(),
{
    if shape.len() > 0 {
        let n = shape.len() as int;
        let last = axes[n - 1] as int;
        let rest = Seq::new(
            (n - 1) as nat,
            |i: int| if axes[i] > last { (axes[i] - 1) as usize } else { axes[i] },
        );
        let smaller = shape.remove(last);
        assert forall|i: int| 0 <= i < n - 1 implies #[trigger] rest[i] < n - 1 by {
            assert(axes[i] != axes[n - 1]);
        }
        assert forall|i: int, j: int| 0 <= i < j < n - 1 implies #[trigger] rest[i] != #[trigger] rest[j] by {
            assert(axes[i] != axes[j]);
            assert(axes[i] != axes[n - 1]);
            assert(axes[j] != axes[n - 1]);
        }
        lemma_product_permuted(smaller, rest);
        let out = permuted_shape(shape, axes);
        assert forall|i: int| 0 <= i < n - 1 implies out.drop_last()[i] == permuted_shape(smaller, rest)[i] by {
            assert(axes[i] != axes[n - 1]);
            assert(rest[i] < n - 1);
        }
        assert(out.drop_last() =~= permuted_shape(smaller, rest));
        lemma_product_remove(shape, last);
    } else {
        assert(permuted_shape(shape, axes) =~= shape);
    }
}

pub proof fn lemma_volume_permuted(shape: Seq<usize>, axes: Seq<usize>)
    requires
        is_permutation(axes, shape.len() as int),
    ensures
        volume(permuted_shape(shape, axes)) == volume(shape),
{
    let full = nonzero_extents(shape);
    assert(nonzero_extents(permuted_shape(shape, axes)) =~= permuted_shape(full, axes));
    lemma_product_permuted(full, axes);
}


/// Where part `p` starts along the axis, when the parts are laid end to end.
pub open spec fn axis_offset(shapes: Seq<Seq<usize>>, axis: int, p: int) -> int
    decreases p,
{
    if p <= 0 {
        0
    } else {
        axis_offset(shapes, axis, p - 1) + shapes[p - 1][axis]
    }
}

/// All the extents are those of the first, but for the length along the axis.
pub open spec fn agree_off_axis(shapes: Seq<Seq<usize>>, axis: int) -> bool {
    &&& shapes.len() > 0
    &&& 0 <= axis < shapes[0].len()
    &&& forall|p: int| 0 <= p < shapes.len() ==> (#[trigger] shapes[p]).len() == shapes[0].len()
    &&& forall|p: int, i: int|
        0 <= p < shapes.len() && 0 <= i < shapes[0].len() && i != axis ==> #[trigger] shapes[p][i] == shapes[0][i]
}

/// Extents of the parts laid end to end along the axis.
pub open spec fn joined_shape(shapes: Seq<Seq<usize>>, axis: int) -> Seq<usize> {
    shapes[0].update(axis, axis_offset(shapes, axis, shapes.len() as int) as usize)
}

/// The parts laid end to end can be held in memory.
pub open spec fn join_fits(shapes: Seq<Seq<usize>>, axis: int) -> bool {
    &&& axis_offset(shapes, axis, shapes.len() as int) <= usize::MAX
    &&& fits(joined_shape(shapes, axis))
}

pub proof fn lemma_axis_offset_monotone(shapes: Seq<Seq<usize>>, axis: int, p: int, q: int)
    requires
        0 <= p <= q,
    ensures
        0 <= axis_offset(shapes, axis, p) <= axis_offset(shapes, axis, q),
    decreases q,
{
    if p < q {
        lemma_axis_offset_monotone(shapes, axis, p, q - 1);
    } else if p > 0 {
        lemma_axis_offset_monotone(shapes, axis, p - 1, p - 1);
    }
}

/// Extent `i` out of `n`, when missing leading ones are read as one.
pub open spec fn aligned(shape: Seq<usize>, n: int, i: int) -> usize {
    if i < n - shape.len() {
        1
    } else {
        shape[i - (n - shape.len())]
    }
}

pub open spec fn max_ndim(a: Seq<usize>, b: Seq<usize>) -> nat {
    if a.len() >= b.len() {
        a.len()
    } else {
        b.len()
    }
}

/// Aligned at the last axis, the extents agree wherever neither is one.
pub open spec fn compatible(a: Seq<usize>, b: Seq<usize>) -> bool {
    let n = max_ndim(a, b) as int;
    forall|i: int|
        0 <= i < n ==> #[trigger] aligned(a, n, i) == aligned(b, n, i) || aligned(a, n, i) == 1 || aligned(b, n, i) == 1
}

/// Extents that both lists of extents stretch to.
pub open spec fn broadcast_shape(a: Seq<usize>, b: Seq<usize>) -> Seq<usize> {
    let n = max_ndim(a, b) as int;
    Seq::new(n as nat, |i: int| if aligned(a, n, i) == 1 { aligned(b, n, i) } else { aligned(a, n, i) })
}

/// The index in an array with extents `shape` that a wider index stands for: a
/// coordinate along an axis of extent one is always zero.
pub open spec fn narrowed_index(shape: Seq<usize>, index: Seq<usize>) -> Seq<usize> {
    Seq::new(shape.len(), |i: int| if shape[i] == 1 { 0usize } else { index[i + (index.len() - shape.len())] })
}

/// `shape` stretches to `wide`.
pub open spec fn stretches_to(shape: Seq<usize>, wide: Seq<usize>) -> bool {
    &&& shape.len() <= wide.len()
    &&& forall|i: int|
        0 <= i < shape.len() ==> #[trigger] shape[i] == 1 || shape[i] == wide[i + (wide.len() - shape.len())]
}

pub proof fn lemma_broadcast_stretches(a: Seq<usize>, b: Seq<usize>)
    requires
        compatible(a, b),
    ensures
        stretches_to(a, broadcast_shape(a, b)),
        stretches_to(b, broadcast_shape(a, b)),
{
    let n = max_ndim(a, b) as int;
    let wide = broadcast_shape(a, b);
    assert forall|i: int| 0 <= i < a.len() implies #[trigger] a[i] == 1 || a[i] == wide[i + (wide.len() - a.len())] by {
        let j = i + (n - a.len());
        assert(aligned(a, n, j) == a[i]);
    }
    assert forall|i: int| 0 <= i < b.len() implies #[trigger] b[i] == 1 || b[i] == wide[i + (wide.len() - b.len())] by {
        let j = i + (n - b.len());
        assert(aligned(b, n, j) == b[i]);
        assert(aligned(a, n, j) == aligned(b, n, j) || aligned(a, n, j) == 1 || aligned(b, n, j) == 1);
    }
}

pub proof fn lemma_narrowed_index(shape: Seq<usize>, wide: Seq<usize>, index: Seq<usize>)
    requires
        stretches_to(shape, wide),
        valid_index(wide, index),
    ensures
        valid_index(shape, narrowed_index(shape, index)),
{
    let narrow = narrowed_index(shape, index);
    assert forall|i: int| 0 <= i < shape.len() implies #[trigger] narrow[i] < shape[i] by {
        assert(shape[i] == 1 || shape[i] == wide[i + (wide.len() - shape.len())]);
        if shape[i] != 1 {
            assert(index[i + (wide.len() - shape.len())] < wide[i + (wide.len() - shape.len())]);
        }
    }
}

/// The extents can be brought to `target` by summing over leading axes, and over
/// axes whose target is one.
pub open spec fn collapses_to(shape: Seq<usize>, target: Seq<usize>) -> bool {
    &&& target.len() <= shape.len()
    &&& forall|i: int|
        0 <= i < target.len() ==> #[trigger] target[i] == shape[i + (shape.len() - target.len())] || (target[i] == 1
            && shape[i + (shape.len() - target.len())] > 1)
}

/// Smaller extents have a smaller product.
pub proof fn lemma_product_monotone(small: Seq<usize>, large: Seq<usize>)
    requires
        small.len() == large.len(),
        forall|i: int| 0 <= i < small.len() ==> #[trigger] small[i] <= large[i],
    ensures
        product(small) <= product(large),
    decreases small.len(),
{
    if small.len() > 0 {
        let s = small.drop_last();
        let l = large.drop_last();
        assert forall|i: int| 0 <= i < s.len() implies #[trigger] s[i] <= l[i] by {
            assert(small[i] <= large[i]);
        }
        lemma_product_monotone(s, l);
        assert(small[small.len() - 1] <= large[small.len() - 1]);
        let a = product(s) as int;
        let b = product(l) as int;
        let c = small.last() as int;
        let d = large.last() as int;
        assert(a * c <= b * d) by (nonlinear_arith)
            requires
                0 <= a <= b,
                0 <= c <= d,
        ;
    }
}

/// Shortening one axis keeps the extents fitting.
pub proof fn lemma_shorter_axis_fits(shape: Seq<usize>, axis: int, len: usize)
    requires
        0 <= axis < shape.len(),
        len <= shape[axis],
        fits(shape),
    ensures
        fits(shape.update(axis, len)),
{
    let small = nonzero_extents(shape.update(axis, len));
    let large = nonzero_extents(shape);
    assert forall|i: int| 0 <= i < small.len() implies #[trigger] small[i] <= large[i] by {}
    lemma_product_monotone(small, large);
}

/// Whether two lists of extents are the same.
pub fn same_extents(a: &Vec<usize>, b: &Vec<usize>) -> (r: bool)
    ensures
        r == (a@ == b@),
{
    if a.len() != b.len() {
        return false;
    }
    for i in 0..a.len()
        invariant
            a.len() == b.len(),
            forall|j: int| 0 <= j < i ==> a[j] == b[j],
    {
        if a[i] != b[i] {
            return false;
        }
    }
    assert(a@ =~= b@);
    true
}

/// Extents that two lists of extents stretch to.
pub fn broadcast_extents(a: &Vec<usize>, b: &Vec<usize>) -> (r: Option<Vec<usize>>)
    ensures
        r is Some <==> compatible(a@, b@),
        r matches Some(shape) ==> shape@ == broadcast_shape(a@, b@),
{
    let n: usize = if a.len() >= b.len() { a.len() } else { b.len() };
    let mut shape: Vec<usize> = Vec::with_capacity(n);
    for i in 0..n
        invariant
            n == max_ndim(a@, b@),
            shape@ == broadcast_shape(a@, b@).take(i as int),
            forall|j: int|
                0 <= j < i ==> #[trigger] aligned(a@, n as int, j) == aligned(b@, n as int, j) || aligned(a@, n as int, j)
                    == 1 || aligned(b@, n as int, j) == 1,
    {
        let x: usize = if i < n - a.len() { 1 } else { a[i - (n - a.len())] };
        let y: usize = if i < n - b.len() { 1 } else { b[i - (n - b.len())] };
        assert(x == aligned(a@, n as int, i as int) && y == aligned(b@, n as int, i as int));
        if x != y && x != 1 && y != 1 {
            return None;
        }
        shape.push(if x == 1 { y } else { x });
        assert(shape@ =~= broadcast_shape(a@, b@).take(i + 1));
    }
    assert(shape@ =~= broadcast_shape(a@, b@));
    Some(shape)
}

/// The index in a narrower array that a wider index stands for.
pub fn narrow_index(shape: &Vec<usize>, index: &Vec<usize>) -> (narrow: Vec<usize>)
    requires
        shape@.len() <= index@.len(),
    ensures
        narrow@ == narrowed_index(shape@, index@),
{
    let n: usize = index.len();
    let skip: usize = n - shape.len();
    let mut narrow: Vec<usize> = Vec::with_capacity(shape.len());
    for i in 0..shape.len()
        invariant
            n == index@.len(),
            skip == n - shape@.len(),
            narrow@ == narrowed_index(shape@, index@).take(i as int),
    {
        narrow.push(if shape[i] == 1 { 0 } else { index[i + skip] });
        assert(narrow@ =~= narrowed_index(shape@, index@).take(i + 1));
    }
    assert(narrow@ =~= narrowed_index(shape@, index@));
    narrow
}

/// Number of elements that the extents describe, or `None` where they do not
/// fit into an address.
pub fn checked_len(shape: &Vec<usize>) -> (r: Option<usize>)
    ensures
        r is Some <==> fits(shape@),
        r matches Some(n) ==> n == product(shape@),
{
    let mut volume_so_far: usize = 1;
    let mut len: usize = 1;
    for i in 0..shape.len()
        invariant
            volume_so_far == volume(shape@.take(i as int)),
            len == product(shape@.take(i as int)),
            len <= volume_so_far,
    {
        let d: usize = shape[i];
        let m: usize = if d == 0 { 1 } else { d };
        let ghost next = shape@.take(i + 1);
        let ghost head = shape@.take(i as int);
        proof {
            assert(next.drop_last() =~= head);
            assert(nonzero_extents(next).drop_last() =~= nonzero_extents(head));
            lemma_prefix_fits(shape@, i + 1);
            lemma_product_bounded_by_volume(next);
            assert(volume(next) == volume_so_far * m);
            assert(product(next) == len * d);
        }
        match volume_so_far.checked_mul(m) {
            None => {
                return None;
            },
            Some(v) => {
                len = len * d;
                volume_so_far = v;
            },
        }
    }
    assert(shape@.take(shape.len() as int) =~= shape@);
    proof {
        lemma_prefix_fits(shape@, shape.len() as int);
    }
    Some(len)
}

/// Number of elements of extents that fit.
pub fn element_count(shape: &Vec<usize>) -> (n: usize)
    requires
        fits(shape@),
    ensures
        n == product(shape@),
{
    match checked_len(shape) {
        Some(n) => n,
        None => 0,
    }
}

/// Row-major position of an element.
pub fn ravel_index(shape: &Vec<usize>, index: &Vec<usize>) -> (k: usize)
    requires
        valid_index(shape@, index@),
        product(shape@) <= usize::MAX,
    ensures
        k == ravel(shape@, index@),
        k < product(shape@),
{
    let mut k: usize = 0;
    proof {
        lemma_ravel_bound(shape@, index@);
    }
    for i in 0..shape.len()
        invariant
            valid_index(shape@, index@),
            product(shape@) <= usize::MAX,
            k == ravel(shape@.take(i as int), index@.take(i as int)),
    {
        let ghost s = shape@.take(i + 1);
        let ghost x = index@.take(i + 1);
        proof {
            assert(s.drop_last() =~= shape@.take(i as int));
            assert(x.drop_last() =~= index@.take(i as int));
            assert forall|j: int| 0 <= j < s.len() implies #[trigger] x[j] < s[j] by {
                assert(index@[j] < shape@[j]);
            }
            lemma_ravel_bound(s, x);
            assert forall|j: int| 0 <= j < shape@.len() implies #[trigger] shape@[j] > 0 by {
                assert(index@[j] < shape@[j]);
            }
            lemma_product_prefix(shape@, i + 1);
            assert(index@[i as int] < shape@[i as int]);
            lemma_mul_nonnegative(k as int, shape@[i as int] as int);
            assert(ravel(s, x) == k * shape@[i as int] + index@[i as int]);
        }
        k = k * shape[i] + index[i];
    }
    assert(shape@.take(shape.len() as int) =~= shape@);
    assert(index@.take(shape.len() as int) =~= index@);
    k
}

/// Index of the element at a row-major position.
pub fn unravel_index(shape: &Vec<usize>, k: usize) -> (index: Vec<usize>)
    requires
        k < product(shape@),
    ensures
        index@ == unravel(shape@, k as int),
        valid_index(shape@, index@),
        ravel(shape@, index@) == k,
{
    let n: usize = shape.len();
    let mut index: Vec<usize> = vec![0; n];
    let mut rest: usize = k;
    let mut i: usize = n;
    proof {
        lemma_ravel_unravel(shape@, k as int);
        assert(shape@.take(n as int) =~= shape@);
        assert(unravel(shape@, k as int) =~= unravel(shape@.take(n as int), rest as int) + index@.skip(n as int));
    }
    while i > 0
        invariant
            i <= n,
            n == shape.len(),
            index.len() == n,
            rest < product(shape@.take(i as int)),
            unravel(shape@, k as int) == unravel(shape@.take(i as int), rest as int) + index@.skip(i as int),
        decreases i,
    {
        let ghost s = shape@.take(i as int);
        let ghost before = index@;
        i = i - 1;
        let d: usize = shape[i];
        proof {
            assert(s.drop_last() =~= shape@.take(i as int));
            lemma_ravel_unravel(s, rest as int);
            assert(unravel(s, rest as int)[i as int] < s[i as int]);
            let p = product(shape@.take(i as int)) as int;
            assert(rest as int / (d as int) < p) by (nonlinear_arith)
                requires
                    0 <= rest < p * d,
                    d > 0,
            ;
        }
        index.set(i, rest % d);
        rest = rest / d;
        proof {
            assert(index@.skip(i as int) =~= seq![index@[i as int]] + before.skip(i + 1));
            assert(unravel(shape@, k as int) =~= unravel(shape@.take(i as int), rest as int) + index@.skip(i as int));
        }
    }
    proof {
        assert(shape@.take(0) =~= Seq::<usize>::empty());
        assert(unravel(shape@.take(0), rest as int) =~= Seq::<usize>::empty());
        assert(index@.skip(0) =~= index@);
    }
    index
}

pub proof fn lemma_product1(n: usize)
    ensures
        product(seq![n]) == n,
{
    let s = seq![n];
    let one = product(s.drop_last()) as int;
    assert(s.drop_last() =~= Seq::<usize>::empty());
    assert(one * n == n) by (nonlinear_arith)
        requires
            one == 1,
    ;
}

/// Number of elements of two extents.
pub proof fn lemma_product2(shape: Seq<usize>)
    requires
        shape.len() == 2,
    ensures
        product(shape) == shape[0] * shape[1],
{
    let head = shape.drop_last();
    let one = product(head.drop_last()) as int;
    let a = shape[0] as int;
    assert(one * a == a) by (nonlinear_arith)
        requires
            one == 1,
    ;
    assert(product(head) == a);
}

/// Number of elements of three extents.
pub proof fn lemma_product3(shape: Seq<usize>)
    requires
        shape.len() == 3,
    ensures
        product(shape) == (shape[0] * shape[1]) * shape[2],
{
    lemma_product2(shape.drop_last());
}

} // verus!
