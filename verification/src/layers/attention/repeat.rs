use crate::array::NdArray;
use crate::autograd;
use crate::autograd::{is_no_grad, BackwardOp, GradMode, Tensor, TensorStorage};
use crate::dims;
use crate::dims::{element_count, ravel_index, unravel_index};
use crate::fpu;
use crate::fpu::Fpu;
use std::sync::Arc;
use vstd::prelude::*;

verus! {

/// Extents with each head repeated.
pub open spec fn repeated_shape(shape: Seq<usize>, n_rep: usize) -> Seq<usize> {
    shape.update(1, (shape[1] * n_rep) as usize)
}

/// The heads can be repeated as far as the machine goes.
pub open spec fn repeatable(shape: Seq<usize>, n_rep: usize) -> bool {
    &&& shape.len() == 4
    &&& shape[1] * n_rep <= usize::MAX
    &&& dims::fits(repeated_shape(shape, n_rep))
}

/// Head `h` of `r` is head `h / n_rep` of `a`.
pub open spec fn is_repeated(a: NdArray<u32>, n_rep: usize, r: NdArray<u32>) -> bool {
    &&& r.wf()
    &&& r.shape@ == repeated_shape(a.shape@, n_rep)
    &&& forall|index: Seq<usize>| dims::valid_index(r.shape@, index) ==> #[trigger] r.at(index) == a.at(
        source_index(index, n_rep),
    )
}

pub open spec fn source_index(index: Seq<usize>, n_rep: usize) -> Seq<usize> {
    index.update(1, (index[1] as int / n_rep as int) as usize)
}

/// An index among repeated heads names one among the heads.
proof fn lemma_source_index(shape: Seq<usize>, n_rep: usize, index: Seq<usize>)
    requires
        shape.len() == 4,
        shape[1] * n_rep <= usize::MAX,
        dims::valid_index(repeated_shape(shape, n_rep), index),
    ensures
        n_rep > 0,
        dims::valid_index(shape, source_index(index, n_rep)),
{
    let h = index[1] as int;
    let n = n_rep as int;
    let k = shape[1] as int;
    assert(index[1] < repeated_shape(shape, n_rep)[1]);
    assert(n > 0 && 0 <= h / n < k) by (nonlinear_arith)
        requires
            0 <= h < k * n,
            n >= 0,
            k >= 0,
    ;
    let source = source_index(index, n_rep);
    assert forall|i: int| 0 <= i < shape.len() implies #[trigger] source[i] < shape[i] by {
        assert(index[i] < repeated_shape(shape, n_rep)[i]);
    }
}

fn repeated(a: &NdArray<u32>, n_rep: usize) -> (r: NdArray<u32>)
    requires
        a.wf(),
        repeatable(a.shape@, n_rep),
    ensures
        is_repeated(*a, n_rep, r),
{
    let mut shape: Vec<usize> = a.shape.clone();
    let heads: usize = a.shape[1] * n_rep;
    shape.set(1, heads);
    let n: usize = element_count(&shape);
    let len: usize = a.data.len();
    let mut data: Vec<u32> = Vec::with_capacity(n);
    for k in 0..n
        invariant
            a.wf(),
            repeatable(a.shape@, n_rep),
            shape@ == repeated_shape(a.shape@, n_rep),
            n == dims::product(shape@),
            len == a.data@.len(),
            data@.len() == k,
            forall|j: int|
                0 <= j < k ==> #[trigger] data@[j] == a.at(source_index(dims::unravel(shape@, j), n_rep)),
    {
        let mut index: Vec<usize> = unravel_index(&shape, k);
        proof {
            lemma_source_index(a.shape@, n_rep, index@);
            dims::lemma_ravel_bound(a.shape@, source_index(index@, n_rep));
        }
        let h: usize = index[1] / n_rep;
        index.set(1, h);
        let at: usize = ravel_index(&a.shape, &index);
        data.push(a.data[at]);
    }
    let r = NdArray { shape, data };
    proof {
        assert forall|index: Seq<usize>| dims::valid_index(r.shape@, index) implies #[trigger] r.at(index) == a.at(
            source_index(index, n_rep),
        ) by {
            dims::lemma_ravel_bound(r.shape@, index);
            dims::lemma_unravel_ravel(r.shape@, index);
        }
    }
    r
}

/// The elements of the heads that were made of the head of an index.
pub open spec fn copies_at(g: NdArray<u32>, n_rep: usize, index: Seq<usize>) -> Seq<u32> {
    Seq::new(n_rep as nat, |c: int| g.at(index.update(1, (index[1] * n_rep + c) as usize)))
}

/// Adds up the gradients of the copies of each head.
pub struct RepeatKvBackward {
    pub shape: Vec<usize>,
    pub n_rep: usize,
}

impl RepeatKvBackward {
    pub open spec fn suits(&self, out: Seq<usize>, operands: Seq<Seq<usize>>) -> bool {
        &&& operands == seq![self.shape@]
        &&& dims::fits(self.shape@)
        &&& repeatable(self.shape@, self.n_rep)
        &&& out == repeated_shape(self.shape@, self.n_rep)
    }

    pub open spec fn sends<F: Fpu>(&self, f: &F, g: NdArray<u32>, r: NdArray<u32>) -> bool {
        &&& r.wf()
        &&& r.shape@ == self.shape@
        &&& forall|index: Seq<usize>|
            dims::valid_index(r.shape@, index) ==> fpu::sums(f, copies_at(g, self.n_rep, index), #[trigger] r.at(index))
    }

    pub fn gradient<F: Fpu>(&self, g: &NdArray<u32>, f: &F) -> (r: NdArray<u32>)
        requires
            g.wf(),
            self.suits(g.shape@, seq![self.shape@]),
        ensures
            self.sends(f, *g, r),
    {
        let shape: Vec<usize> = self.shape.clone();
        let n: usize = element_count(&shape);
        let len: usize = g.data.len();
        let mut data: Vec<u32> = Vec::with_capacity(n);
        for k in 0..n
            invariant
                g.wf(),
                shape@ == self.shape@,
                self.suits(g.shape@, seq![self.shape@]),
                n == dims::product(shape@),
                len == g.data@.len(),
                data@.len() == k,
                forall|j: int|
                    0 <= j < k ==> fpu::sums(
                        f,
                        copies_at(*g, self.n_rep, dims::unravel(shape@, j)),
                        #[trigger] data@[j],
                    ),
        {
            let index: Vec<usize> = unravel_index(&shape, k);
            let mut copies: Vec<u32> = Vec::with_capacity(self.n_rep);
            for c in 0..self.n_rep
                invariant
                    g.wf(),
                    shape@ == self.shape@,
                    self.suits(g.shape@, seq![self.shape@]),
                    dims::valid_index(shape@, index@),
                    len == g.data@.len(),
                    copies@.len() == c,
                    forall|j: int| 0 <= j < c ==> #[trigger] copies@[j] == copies_at(*g, self.n_rep, index@)[j],
            {
                let mut at: Vec<usize> = index.clone();
                proof {
                    let h = index@[1] as int;
                    let kv = shape@[1] as int;
                    let m = self.n_rep as int;
                    assert(index@[1] < shape@[1]);
                    assert(0 <= h * m && h * m + c < kv * m) by (nonlinear_arith)
                        requires
                            0 <= h < kv,
                            0 <= c < m,
                    ;
                }
                let head: usize = index[1] * self.n_rep + c;
                at.set(1, head);
                proof {
                    assert forall|i: int| 0 <= i < g.shape@.len() implies #[trigger] at@[i] < g.shape@[i] by {
                        assert(index@[i] < shape@[i]);
                    }
                    dims::lemma_ravel_bound(g.shape@, at@);
                    dims::lemma_product_bounded_by_volume(g.shape@);
                }
                let position: usize = ravel_index(&g.shape, &at);
                copies.push(g.data[position]);
            }
            assert(copies@ =~= copies_at(*g, self.n_rep, index@));
            data.push(f.sum(copies.as_slice()));
        }
        let r = NdArray { shape, data };
        proof {
            assert forall|index: Seq<usize>| dims::valid_index(r.shape@, index) implies fpu::sums(
                f,
                copies_at(*g, self.n_rep, index),
                #[trigger] r.at(index),
            ) by {
                dims::lemma_ravel_bound(r.shape@, index);
                dims::lemma_unravel_ravel(r.shape@, index);
            }
        }
        r
    }
}

/// What is stored are the heads of an input, repeated.
pub open spec fn heads_repeated<F: Fpu>(f: &F, x: TensorStorage, n_rep: usize, s: TensorStorage) -> bool {
    exists|a: NdArray<u32>, r: NdArray<u32>|
        autograd::reads_as(f, x, a) && #[trigger] is_repeated(a, n_rep, r) && s == TensorStorage::F32(Arc::new(r))
}

/// The repeated heads, recorded unless recording is off.
pub open spec fn repeat_result<F: Fpu>(f: &F, x: Tensor, n_rep: usize, mode: GradMode, t: Tensor) -> bool {
    &&& t.wf()
    &&& t.spec_shape() == repeated_shape(x.spec_shape(), n_rep)
    &&& t.grad is None
    &&& t.requires_grad == !mode.no_grad()
    &&& heads_repeated(f, x.storage, n_rep, t.storage)
    &&& if mode.no_grad() {
        t.op is None
    } else {
        t.op matches Some(op) && *op matches BackwardOp::RepeatKv(back) && back.n_rep == n_rep && back.suits(
            t.spec_shape(),
            seq![x.spec_shape()],
        )
    }
}

/// Repeats each head of `x[B, H, S, D]`, so that queries that share a head of keys and
/// values each have one of their own.
pub fn repeat_kv<F: Fpu>(x: &Tensor, n_rep: usize, mode: &GradMode, f: &F) -> (t: Tensor)
    requires
        x.wf(),
        repeatable(x.spec_shape(), n_rep),
    ensures
        repeat_result(f, *x, n_rep, *mode, t),
{
    let a = x.data_arc(f);
    let r = repeated(&a, n_rep);
    assert(is_repeated(*a, n_rep, r));
    if is_no_grad(mode) {
        return Tensor::from_array_no_grad(r);
    }
    let shape: Vec<usize> = x.shape_vec();
    assert(seq![x.spec_shape()] =~= seq![shape@]);
    Tensor::recorded(r, BackwardOp::RepeatKv(RepeatKvBackward { shape, n_rep }))
}

} // verus!
