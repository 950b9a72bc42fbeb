use crate::autograd::{GradMode, Tensor};
use crate::dims;
use crate::fpu::Fpu;
use crate::ops::arithmetic;
use crate::ops::shape;
use crate::ops::shape::{permute, reshape, PermuteError, ReshapeError};
use vstd::prelude::*;

verus! {

/// All axes in order, but for two that change places.
pub open spec fn swapped_axes(n: int, a: int, b: int) -> Seq<usize> {
    Seq::new(
        n as nat,
        |i: int|
            if i == a {
                b as usize
            } else if i == b {
                a as usize
            } else {
                i as usize
            },
    )
}

impl Tensor {
    /// The sum of all elements.
    pub fn sum<F: Fpu>(&self, mode: &GradMode, f: &F) -> (t: Tensor)
        requires
            self.wf(),
        ensures
            arithmetic::sum_result(f, *self, *mode, t),
    {
        arithmetic::sum(self, mode, f)
    }

    /// The same elements under other extents, of which one may be left open.
    pub fn reshape<F: Fpu>(&self, shape: Vec<i32>, mode: &GradMode, f: &F) -> (r: Result<Tensor, ReshapeError>)
        requires
            self.wf(),
        ensures
            match shape::reshape_target(shape@, dims::product(self.spec_shape()) as int) {
                Err(e) => r == Err::<Tensor, ReshapeError>(e),
                Ok(target) => r matches Ok(t) && shape::reshape_result(f, *self, target, *mode, t),
            },
    {
        reshape(self, shape, mode, f)
    }

    /// The axes in another order.
    pub fn permute<F: Fpu>(&self, axes: Vec<usize>, mode: &GradMode, f: &F) -> (r: Result<Tensor, PermuteError>)
        requires
            self.wf(),
        ensures
            match shape::permute_error(self.spec_shape().len() as int, axes@) {
                Some(e) => r == Err::<Tensor, PermuteError>(e),
                None => r matches Ok(t) && shape::permute_result(f, *self, axes@, *mode, t),
            },
            r is Ok <==> dims::is_permutation(axes@, self.spec_shape().len() as int),
    {
        permute(self, axes, mode, f)
    }

    /// Two axes change places.
    pub fn transpose<F: Fpu>(&self, dim0: usize, dim1: usize, mode: &GradMode, f: &F) -> (t: Tensor)
        requires
            self.wf(),
            dim0 < self.spec_shape().len(),
            dim1 < self.spec_shape().len(),
        ensures
            shape::permute_result(
                f,
                *self,
                swapped_axes(self.spec_shape().len() as int, dim0 as int, dim1 as int),
                *mode,
                t,
            ),
    {
        let n: usize = self.ndim();
        let mut axes: Vec<usize> = Vec::with_capacity(n);
        for i in 0..n
            invariant
                axes@.len() == i,
                dim0 < n,
                dim1 < n,
                forall|j: int| 0 <= j < i ==> #[trigger] axes@[j] == swapped_axes(n as int, dim0 as int, dim1 as int)[j],
        {
            let axis: usize = if i == dim0 {
                dim1
            } else if i == dim1 {
                dim0
            } else {
                i
            };
            axes.push(axis);
        }
        assert(axes@ =~= swapped_axes(n as int, dim0 as int, dim1 as int));
        assert(dims::is_permutation(axes@, n as int));
        match self.permute(axes, mode, f) {
            Ok(t) => t,
            Err(_) => {
                assert(false);
                self.clone()
            },
        }
    }
}

} // verus!
