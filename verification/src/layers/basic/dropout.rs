use crate::array::NdArray;
use crate::autograd::{GradMode, Tensor, TensorStorage};
use crate::dims;
use crate::float_bits;
use crate::float_bits::is_above;
use crate::fpu;
use crate::fpu::Fpu;
use crate::graph::Node;
use crate::ops::arithmetic;
use crate::ops::arithmetic::{mul_tensors, BinaryOp};
use crate::trace;
use crate::trace::{add_binary, add_step};
use std::sync::Arc;
use vstd::prelude::*;

verus! {

/// Drops elements at random while training, and scales up the others.
pub struct Dropout {
    pub p: u32,
    pub training: bool,
}

/// `1 / (1 - p)`.
pub open spec fn keep_scale<F: Fpu>(f: &F, p: u32, r: u32) -> bool {
    exists|q: u32| fpu::subs(f, fpu::ONE, p, q) && #[trigger] fpu::divs(f, fpu::ONE, q, r)
}

/// One where an element is kept, and zero elsewhere, times a factor.
pub open spec fn is_mask<F: Fpu>(f: &F, shape: Seq<usize>, keep: Seq<bool>, scale: u32, a: NdArray<u32>) -> bool {
    &&& a.wf()
    &&& a.shape@ == shape
    &&& forall|i: int|
        0 <= i < a.data@.len() ==> fpu::muls(
            f,
            if keep[i] {
                fpu::ONE
            } else {
                fpu::ZERO
            },
            scale,
            #[trigger] a.data@[i],
        )
}

/// A leaf with the mask.
pub open spec fn mask_leaf<F: Fpu>(f: &F, p: u32, shape: Seq<usize>, keep: Seq<bool>, mode: GradMode, t: Tensor) -> bool {
    exists|scale: u32, a: NdArray<u32>| #[trigger]
        keep_scale(f, p, scale) && #[trigger] is_mask(f, shape, keep, scale, a) && t.is_leaf(
            TensorStorage::F32(Arc::new(a)),
            !mode.no_grad(),
        )
}

impl Dropout {
    pub fn new(p: u32) -> (d: Dropout)
        ensures
            d == (Dropout { p, training: true }),
    {
        Dropout { p, training: true }
    }

    /// Elements are dropped while training, if the share is above zero.
    pub open spec fn drops(&self) -> bool {
        self.training && float_bits::above(self.p, fpu::ZERO)
    }

    /// The steps of a pass: the mask, and the product with it; none if nothing is dropped.
    pub open spec fn computes<F: Fpu>(&self, f: &F, input: Tensor, keep: Seq<bool>, mode: GradMode, steps: Seq<Node>) -> bool {
        if self.drops() {
            &&& steps.len() == 2
            &&& mask_leaf(f, self.p, input.spec_shape(), keep, mode, steps[0].tensor)
            &&& arithmetic::combined(f, BinaryOp::Mul, input, steps[0].tensor, mode, steps[1].tensor)
            &&& trace::is_step(steps[0], steps[0].tensor, Seq::empty())
            &&& trace::is_step(steps[1], steps[1].tensor, seq![0usize, 1usize])
        } else {
            steps.len() == 0
        }
    }

    /// Drops the elements that a draw did not keep. Without a step the input is the
    /// result.
    pub fn forward<F: Fpu>(&self, input: &Tensor, keep: &Vec<bool>, mode: &GradMode, f: &F) -> (steps: Vec<Node>)
        requires
            input.wf(),
            self.drops() ==> keep@.len() == dims::product(input.spec_shape()),
        ensures
            self.computes(f, *input, keep@, *mode, steps@),
            steps@.len() > 0 ==> trace::steps_wf(seq![input.spec_shape()], steps@) && steps@.last().tensor.spec_shape()
                == input.spec_shape() && steps@.last().tensor.grad is None,
    {
        let mut steps: Vec<Node> = Vec::new();
        if self.training && is_above(self.p, fpu::ZERO) {
            let q: u32 = f.sub(fpu::ONE, self.p);
            let scale: u32 = f.div(fpu::ONE, q);
            assert(keep_scale(f, self.p, scale)) by {
                assert(fpu::subs(f, fpu::ONE, self.p, q) && fpu::divs(f, fpu::ONE, q, scale));
            }
            let mut data: Vec<u32> = Vec::with_capacity(keep.len());
            for i in 0..keep.len()
                invariant
                    data@.len() == i,
                    forall|j: int|
                        0 <= j < i ==> fpu::muls(
                            f,
                            if keep@[j] {
                                fpu::ONE
                            } else {
                                fpu::ZERO
                            },
                            scale,
                            #[trigger] data@[j],
                        ),
            {
                let one: u32 = if keep[i] { fpu::ONE } else { fpu::ZERO };
                data.push(f.mul(one, scale));
            }
            let a = NdArray { shape: input.shape_vec(), data };
            assert(is_mask(f, input.spec_shape(), keep@, scale, a));
            let mask = Tensor::new(a, mode);
            assert(mask_leaf(f, self.p, input.spec_shape(), keep@, *mode, mask));
            let ghost shape = input.spec_shape();
            proof {
                assert(dims::collapses_to(shape, shape));
                arithmetic::lemma_collapsing_is_compatible(shape, shape);
            }
            let t = mul_tensors(input, &mask, mode, f);
            let ghost ops = seq![shape];
            let ghost mask_g = mask;
            add_step(&mut steps, mask, Vec::new(), Ghost(ops));
            assert(steps@[0].tensor == mask_g);
            assert(steps@[0].parents@ =~= Seq::empty());
            add_binary(&mut steps, t, 0, 1, Ghost(ops));
        }
        steps
    }

    /// Nothing is learned.
    pub fn parameters(&self) -> (p: Vec<Tensor>)
        ensures
            p@ == Seq::<Tensor>::empty(),
    {
        Vec::new()
    }

    /// Drops elements from now on.
    pub fn train_mode(&mut self)
        ensures
            *final(self) == (Dropout { training: true, ..*old(self) }),
    {
        self.training = true;
    }

    /// Lets everything through from now on.
    pub fn eval_mode(&mut self)
        ensures
            *final(self) == (Dropout { training: false, ..*old(self) }),
    {
        self.training = false;
    }
}

} // verus!
