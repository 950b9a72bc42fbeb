use crate::autograd::{GradMode, Tensor};
use crate::dims;
use crate::fpu::Fpu;
use crate::layers::basic::linear;
use crate::layers::basic::Linear;
use crate::ops::matmul;
use crate::ops::shape;
use crate::ops::shape::{permute, reshape_exact};
use vstd::prelude::*;

verus! {

/// The product with a weight, split into heads, and with the heads in front of the
/// steps.
pub struct HeadSplit {
    pub product: Tensor,
    pub split: Tensor,
    pub heads: Tensor,
}

/// The order of axes that exchanges heads and steps.
pub open spec fn exchange() -> Seq<usize> {
    seq![0usize, 2usize, 1usize, 3usize]
}

/// The order of axes that exchanges steps and features.
pub open spec fn transposition() -> Seq<usize> {
    seq![0usize, 1usize, 3usize, 2usize]
}

pub proof fn lemma_exchange()
    ensures
        dims::is_permutation(exchange(), 4),
        dims::is_permutation(transposition(), 4),
{
}

/// Four extents with the second and third exchanged.
pub proof fn lemma_exchanged_shape(a: usize, b: usize, c: usize, d: usize)
    ensures
        dims::permuted_shape(seq![a, b, c, d], exchange()) == seq![a, c, b, d],
        dims::permuted_shape(seq![a, b, c, d], transposition()) == seq![a, b, d, c],
{
    assert(dims::permuted_shape(seq![a, b, c, d], exchange()) =~= seq![a, c, b, d]);
    assert(dims::permuted_shape(seq![a, b, c, d], transposition()) =~= seq![a, b, d, c]);
}

/// `h` is the product of `x[B, S, K]` with a weight, as `n` heads of `d` features.
pub open spec fn is_split<F: Fpu>(f: &F, x: Tensor, w: Tensor, n: usize, d: usize, mode: GradMode, h: HeadSplit) -> bool {
    let b = x.spec_shape()[0];
    let s = x.spec_shape()[1];
    &&& matmul::matmul_result(f, x, w, mode, h.product)
    &&& h.product.spec_shape() == seq![b, s, (n * d) as usize]
    &&& shape::reshape_result(f, h.product, seq![b, s, n, d], mode, h.split)
    &&& shape::permute_result(f, h.split, exchange(), mode, h.heads)
    &&& h.heads.spec_shape() == seq![b, n, s, d]
}

/// An axis split into two holds as many elements.
pub proof fn lemma_split_axis(b: usize, s: usize, n: usize, d: usize)
    requires
        n > 0,
        d > 0,
        n * d <= usize::MAX,
    ensures
        dims::product(seq![b, s, n, d]) == dims::product(seq![b, s, (n * d) as usize]),
        dims::fits(seq![b, s, (n * d) as usize]) ==> dims::fits(seq![b, s, n, d]),
{
    let m = (n * d) as usize;
    let three = seq![b, s, m];
    let four = seq![b, s, n, d];
    dims::lemma_product3(three);
    matmul::lemma_product4(four);
    assert(n * d > 0) by (nonlinear_arith)
        requires
            n > 0,
            d > 0,
    ;
    let p = if b == 0 {
        1usize
    } else {
        b
    };
    let q = if s == 0 {
        1usize
    } else {
        s
    };
    assert(dims::nonzero_extents(three) =~= seq![p, q, m]);
    assert(dims::nonzero_extents(four) =~= seq![p, q, n, d]);
    dims::lemma_product3(seq![p, q, m]);
    matmul::lemma_product4(seq![p, q, n, d]);
}

/// Multiplies by a weight and splits the result into heads.
pub fn split_heads<F: Fpu>(x: &Tensor, w: &Linear, n: usize, d: usize, mode: &GradMode, f: &F) -> (h: HeadSplit)
    requires
        w.wf(),
        w.bias is None,
        w.accepts(*x),
        x.spec_shape().len() == 3,
        x.spec_shape()[2] == w.in_features,
        n > 0,
        d > 0,
        n * d == w.out_features,
        x.spec_shape()[0] <= i32::MAX,
        x.spec_shape()[1] <= i32::MAX,
        n <= i32::MAX,
        d <= i32::MAX,
    ensures
        is_split(f, *x, w.weight, n, d, *mode, h),
{
    let xs: Vec<usize> = x.shape_vec();
    let product = match w.forward(x, mode, f) {
        Ok(steps) => {
            assert(linear::is_product(f, *x, w.weight, *mode, steps@[0]));
            steps[0].tensor.clone()
        },
        Err(_) => {
            assert(false);
            x.clone()
        },
    };
    let target: Vec<usize> = vec![xs[0], xs[1], n, d];
    let ghost b = x.spec_shape()[0];
    let ghost s = x.spec_shape()[1];
    proof {
        assert(target@ =~= seq![b, s, n, d]);
        assert(product.spec_shape() =~= seq![b, s, (n * d) as usize]);
        lemma_split_axis(b, s, n, d);
        assert forall|i: int| 0 <= i < target@.len() implies #[trigger] target@[i] <= i32::MAX by {}
        lemma_exchange();
        lemma_exchanged_shape(b, s, n, d);
    }
    let split = reshape_exact(&product, &target, mode, f);
    let axes: Vec<usize> = vec![0, 2, 1, 3];
    assert(axes@ =~= exchange());
    let heads = match permute(&split, axes, mode, f) {
        Ok(t) => t,
        Err(_) => {
            assert(false);
            split.clone()
        },
    };
    HeadSplit { product, split, heads }
}

} // verus!
