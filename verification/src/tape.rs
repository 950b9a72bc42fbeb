use crate::autograd::{is_no_grad, GradMode, Tensor};
use crate::dims;
use crate::fpu::Fpu;
use crate::graph;
use crate::graph::{Graph, Node};
use crate::loss;
use crate::loss::{CrossEntropyLoss, MSELoss};
use crate::module;
use crate::module::{LoadError, Module, ModuleError};
use crate::ops::arithmetic;
use crate::ops::arithmetic::{add_tensors, mul_tensors, sub_tensors, BinaryOp};
use crate::ops::convolution;
use crate::ops::convolution::{conv2d, max_pool2d};
use crate::ops::matmul;
use crate::ops::matmul::{batch_matmul, BatchMatmulError, MatmulError};
use crate::ops::shape;
use crate::ops::shape::{cat, slice_last_dim, CatError, PermuteError, ReshapeError, SliceError};
use crate::trace;
use crate::trace::step;
use vstd::prelude::*;

verus! {

/// All numbers are those of nodes.
pub open spec fn numbers_in(nodes: Seq<Node>, ids: Seq<usize>) -> bool {
    forall|i: int| 0 <= i < ids.len() ==> #[trigger] ids[i] < nodes.len()
}

/// `after` has one node more than `before`: a tensor that was made of some nodes.
pub open spec fn attached(before: Seq<Node>, parents: Seq<usize>, after: Seq<Node>) -> bool {
    &&& after.len() == before.len() + 1
    &&& forall|i: int| 0 <= i < before.len() ==> #[trigger] after[i] == before[i]
    &&& trace::is_step(after.last(), after.last().tensor, parents)
}

/// `after` has the steps of a computation on some nodes behind the nodes of `before`.
pub open spec fn extended(before: Seq<Node>, ids: Seq<usize>, steps: Seq<Node>, after: Seq<Node>) -> bool {
    &&& after.len() == before.len() + steps.len()
    &&& forall|i: int| 0 <= i < before.len() ==> #[trigger] after[i] == before[i]
    &&& forall|i: int|
        0 <= i < steps.len() ==> trace::placed_step(
            ids,
            before.len() as int,
            #[trigger] steps[i],
            after[before.len() + i],
        )
}

/// Why a module cannot be applied to nodes.
#[derive(Clone, Copy, Debug, PartialEq, Eq, Structural)]
pub enum ApplyError {
    NoSuchNode,
    Parameters(LoadError),
    Refused(ModuleError),
}

/// What a module adds to a graph: the steps of its pass over a node, with the tensors of
/// some nodes as its parameters. Without a step the result is the node itself.
pub open spec fn applied<F: Fpu, M: Module<F>>(
    f: &F,
    m: &M,
    before: Seq<Node>,
    input: usize,
    params: Seq<usize>,
    mode: GradMode,
    after: Seq<Node>,
    id: usize,
) -> bool {
    exists|steps: Seq<Node>| #[trigger]
        m.computes(graph::parent_tensors(before, params), f, before[input as int].tensor, mode, Ok(steps)) && extended(
            before,
            seq![input] + params,
            steps,
            after,
        ) && id == (if steps.len() == 0 {
            input as int
        } else {
            after.len() - 1
        })
}

impl Graph {
    /// Adds a tensor that was made of some nodes.
    fn attach(&mut self, tensor: Tensor, parents: Vec<usize>) -> (id: usize)
        requires
            old(self).wf(),
            tensor.wf(),
            numbers_in(old(self).nodes@, parents@),
            trace::made_of(tensor, graph::parent_shapes(old(self).nodes@, parents@)),
        ensures
            final(self).wf(),
            id == old(self).nodes@.len(),
            final(self).nodes@.last().tensor == tensor,
            attached(old(self).nodes@, parents@, final(self).nodes@),
    {
        let ghost own = parents@;
        let n = step(tensor, parents);
        assert(tensor.op is Some ==> n.parents@ == own);
        self.push(n.tensor, n.parents)
    }

    /// The sum, the difference or the product of two nodes.
    pub fn combine<F: Fpu>(&mut self, op: BinaryOp, a: usize, b: usize, mode: &GradMode, f: &F) -> (id: usize)
        requires
            old(self).wf(),
            a < old(self).nodes@.len(),
            b < old(self).nodes@.len(),
            arithmetic::shapes_combine(
                old(self).nodes@[a as int].tensor.spec_shape(),
                old(self).nodes@[b as int].tensor.spec_shape(),
            ),
        ensures
            final(self).wf(),
            id == old(self).nodes@.len(),
            arithmetic::combined(
                f,
                op,
                old(self).nodes@[a as int].tensor,
                old(self).nodes@[b as int].tensor,
                *mode,
                final(self).nodes@[id as int].tensor,
            ),
            attached(old(self).nodes@, seq![a, b], final(self).nodes@),
    {
        assert(graph::node_wf(self.nodes@, a as int) && graph::node_wf(self.nodes@, b as int));
        let parents: Vec<usize> = vec![a, b];
        let t = match op {
            BinaryOp::Add => add_tensors(&self.nodes[a].tensor, &self.nodes[b].tensor, mode, f),
            BinaryOp::Sub => sub_tensors(&self.nodes[a].tensor, &self.nodes[b].tensor, mode, f),
            BinaryOp::Mul => mul_tensors(&self.nodes[a].tensor, &self.nodes[b].tensor, mode, f),
        };
        proof {
            assert(parents@ =~= seq![a, b]);
            assert(graph::parent_shapes(self.nodes@, parents@) =~= seq![
                self.nodes@[a as int].tensor.spec_shape(),
                self.nodes@[b as int].tensor.spec_shape(),
            ]);
        }
        self.attach(t, parents)
    }

    /// The product of a node with the transpose of a weight.
    pub fn matmul<F: Fpu>(&mut self, a: usize, b: usize, mode: &GradMode, f: &F) -> (r: Result<usize, MatmulError>)
        requires
            old(self).wf(),
            a < old(self).nodes@.len(),
            b < old(self).nodes@.len(),
            old(self).nodes@[a as int].tensor.spec_shape().len() > 0,
            old(self).nodes@[a as int].tensor.spec_shape().last() > 0,
            old(self).nodes@[b as int].tensor.spec_shape().len() == 2 ==> dims::fits(
                matmul::matmul_shape(
                    old(self).nodes@[a as int].tensor.spec_shape(),
                    old(self).nodes@[b as int].tensor.spec_shape(),
                ),
            ),
        ensures
            final(self).wf(),
            match matmul::matmul_error(
                old(self).nodes@[a as int].tensor.spec_shape(),
                old(self).nodes@[b as int].tensor.spec_shape(),
            ) {
                Some(e) => r == Err::<usize, MatmulError>(e) && final(self).nodes@ == old(self).nodes@,
                None => r == Ok::<usize, MatmulError>(old(self).nodes@.len() as usize) && matmul::matmul_result(
                    f,
                    old(self).nodes@[a as int].tensor,
                    old(self).nodes@[b as int].tensor,
                    *mode,
                    final(self).nodes@.last().tensor,
                ) && attached(old(self).nodes@, seq![a, b], final(self).nodes@),
            },
    {
        assert(graph::node_wf(self.nodes@, a as int) && graph::node_wf(self.nodes@, b as int));
        let parents: Vec<usize> = vec![a, b];
        proof {
            assert(parents@ =~= seq![a, b]);
            assert(graph::parent_shapes(self.nodes@, parents@) =~= seq![
                self.nodes@[a as int].tensor.spec_shape(),
                self.nodes@[b as int].tensor.spec_shape(),
            ]);
        }
        match matmul::matmul(&self.nodes[a].tensor, &self.nodes[b].tensor, mode, f) {
            Ok(t) => Ok(self.attach(t, parents)),
            Err(e) => Err(e),
        }
    }

    /// The products of two batches of matrices.
    pub fn batch_matmul<F: Fpu>(&mut self, a: usize, b: usize, mode: &GradMode, f: &F) -> (r: Result<usize, BatchMatmulError>)
        requires
            old(self).wf(),
            a < old(self).nodes@.len(),
            b < old(self).nodes@.len(),
            old(self).nodes@[a as int].tensor.spec_shape().len() == 4,
            old(self).nodes@[b as int].tensor.spec_shape().len() == 4,
            dims::fits(
                matmul::batch_matmul_shape(
                    old(self).nodes@[a as int].tensor.spec_shape(),
                    old(self).nodes@[b as int].tensor.spec_shape(),
                ),
            ),
        ensures
            final(self).wf(),
            match matmul::batch_matmul_error(
                old(self).nodes@[a as int].tensor.spec_shape(),
                old(self).nodes@[b as int].tensor.spec_shape(),
            ) {
                Some(e) => r == Err::<usize, BatchMatmulError>(e) && final(self).nodes@ == old(self).nodes@,
                None => r == Ok::<usize, BatchMatmulError>(old(self).nodes@.len() as usize) && matmul::batch_matmul_result(
                    f,
                    old(self).nodes@[a as int].tensor,
                    old(self).nodes@[b as int].tensor,
                    *mode,
                    final(self).nodes@.last().tensor,
                ) && attached(old(self).nodes@, seq![a, b], final(self).nodes@),
            },
    {
        assert(graph::node_wf(self.nodes@, a as int) && graph::node_wf(self.nodes@, b as int));
        let parents: Vec<usize> = vec![a, b];
        proof {
            assert(parents@ =~= seq![a, b]);
            assert(graph::parent_shapes(self.nodes@, parents@) =~= seq![
                self.nodes@[a as int].tensor.spec_shape(),
                self.nodes@[b as int].tensor.spec_shape(),
            ]);
        }
        match batch_matmul(&self.nodes[a].tensor, &self.nodes[b].tensor, mode, f) {
            Ok(t) => Ok(self.attach(t, parents)),
            Err(e) => Err(e),
        }
    }

    /// The sum of all elements of a node.
    pub fn sum<F: Fpu>(&mut self, a: usize, mode: &GradMode, f: &F) -> (id: usize)
        requires
            old(self).wf(),
            a < old(self).nodes@.len(),
        ensures
            final(self).wf(),
            id == old(self).nodes@.len(),
            arithmetic::sum_result(f, old(self).nodes@[a as int].tensor, *mode, final(self).nodes@[id as int].tensor),
            attached(old(self).nodes@, seq![a], final(self).nodes@),
    {
        assert(graph::node_wf(self.nodes@, a as int));
        let parents: Vec<usize> = vec![a];
        let t = self.nodes[a].tensor.sum(mode, f);
        proof {
            assert(parents@ =~= seq![a]);
            assert(graph::parent_shapes(self.nodes@, parents@) =~= seq![self.nodes@[a as int].tensor.spec_shape()]);
            assert(t.spec_shape() =~= Seq::<usize>::empty());
        }
        self.attach(t, parents)
    }

    /// The elements of a node under other extents, of which one may be left open.
    pub fn reshape<F: Fpu>(&mut self, a: usize, target: Vec<i32>, mode: &GradMode, f: &F) -> (r: Result<usize, ReshapeError>)
        requires
            old(self).wf(),
            a < old(self).nodes@.len(),
        ensures
            final(self).wf(),
            match shape::reshape_target(target@, dims::product(old(self).nodes@[a as int].tensor.spec_shape()) as int) {
                Err(e) => r == Err::<usize, ReshapeError>(e) && final(self).nodes@ == old(self).nodes@,
                Ok(extents) => r == Ok::<usize, ReshapeError>(old(self).nodes@.len() as usize) && shape::reshape_result(
                    f,
                    old(self).nodes@[a as int].tensor,
                    extents,
                    *mode,
                    final(self).nodes@.last().tensor,
                ) && attached(old(self).nodes@, seq![a], final(self).nodes@),
            },
    {
        assert(graph::node_wf(self.nodes@, a as int));
        let parents: Vec<usize> = vec![a];
        proof {
            assert(parents@ =~= seq![a]);
            assert(graph::parent_shapes(self.nodes@, parents@) =~= seq![self.nodes@[a as int].tensor.spec_shape()]);
        }
        match self.nodes[a].tensor.reshape(target, mode, f) {
            Ok(t) => Ok(self.attach(t, parents)),
            Err(e) => Err(e),
        }
    }

    /// The axes of a node in another order.
    pub fn permute<F: Fpu>(&mut self, a: usize, axes: Vec<usize>, mode: &GradMode, f: &F) -> (r: Result<usize, PermuteError>)
        requires
            old(self).wf(),
            a < old(self).nodes@.len(),
        ensures
            final(self).wf(),
            match shape::permute_error(old(self).nodes@[a as int].tensor.spec_shape().len() as int, axes@) {
                Some(e) => r == Err::<usize, PermuteError>(e) && final(self).nodes@ == old(self).nodes@,
                None => r == Ok::<usize, PermuteError>(old(self).nodes@.len() as usize) && shape::permute_result(
                    f,
                    old(self).nodes@[a as int].tensor,
                    axes@,
                    *mode,
                    final(self).nodes@.last().tensor,
                ) && attached(old(self).nodes@, seq![a], final(self).nodes@),
            },
    {
        assert(graph::node_wf(self.nodes@, a as int));
        let parents: Vec<usize> = vec![a];
        proof {
            assert(parents@ =~= seq![a]);
            assert(graph::parent_shapes(self.nodes@, parents@) =~= seq![self.nodes@[a as int].tensor.spec_shape()]);
        }
        match self.nodes[a].tensor.permute(axes, mode, f) {
            Ok(t) => Ok(self.attach(t, parents)),
            Err(e) => Err(e),
        }
    }

    /// A part of the last axis of a node. Where nothing is recorded, the whole axis is the
    /// node itself.
    pub fn slice_last_dim<F: Fpu>(&mut self, a: usize, start: usize, end: usize, mode: &GradMode, f: &F) -> (r: Result<
        usize,
        SliceError,
    >)
        requires
            old(self).wf(),
            a < old(self).nodes@.len(),
        ensures
            final(self).wf(),
            match shape::slice_error(old(self).nodes@[a as int].tensor.spec_shape(), start as int, end as int) {
                Some(e) => r == Err::<usize, SliceError>(e) && final(self).nodes@ == old(self).nodes@,
                None => if whole_axis(old(self).nodes@[a as int].tensor, start as int, end as int, *mode) {
                    r == Ok::<usize, SliceError>(a) && final(self).nodes@ == old(self).nodes@
                } else {
                    r == Ok::<usize, SliceError>(old(self).nodes@.len() as usize) && shape::slice_result(
                        f,
                        old(self).nodes@[a as int].tensor,
                        start as int,
                        end as int,
                        *mode,
                        final(self).nodes@.last().tensor,
                    ) && attached(old(self).nodes@, seq![a], final(self).nodes@)
                },
            },
    {
        assert(graph::node_wf(self.nodes@, a as int));
        let parents: Vec<usize> = vec![a];
        proof {
            assert(parents@ =~= seq![a]);
            assert(graph::parent_shapes(self.nodes@, parents@) =~= seq![self.nodes@[a as int].tensor.spec_shape()]);
        }
        let extents: Vec<usize> = self.nodes[a].tensor.shape_vec();
        let constant: bool = is_no_grad(mode) || !self.nodes[a].tensor.requires_grad();
        match slice_last_dim(&self.nodes[a].tensor, start, end, mode, f) {
            Ok(t) => {
                if constant && start == 0 && end == extents[extents.len() - 1] {
                    Ok(a)
                } else {
                    Ok(self.attach(t, parents))
                }
            },
            Err(e) => Err(e),
        }
    }

    /// Some nodes, laid end to end along an axis. Where nothing is recorded, a single node
    /// is the result itself.
    pub fn cat<F: Fpu>(&mut self, ids: &Vec<usize>, axis: usize, mode: &GradMode, f: &F) -> (r: Result<usize, CatError>)
        requires
            old(self).wf(),
            numbers_in(old(self).nodes@, ids@),
            dims::agree_off_axis(shape::tensor_shapes(graph::parent_tensors(old(self).nodes@, ids@)), axis as int) ==> dims::join_fits(
                shape::tensor_shapes(graph::parent_tensors(old(self).nodes@, ids@)),
                axis as int,
            ),
        ensures
            final(self).wf(),
            match shape::cat_error(shape::tensor_shapes(graph::parent_tensors(old(self).nodes@, ids@)), axis as int) {
                Some(e) => r == Err::<usize, CatError>(e) && final(self).nodes@ == old(self).nodes@,
                None => if shape::single_constant(graph::parent_tensors(old(self).nodes@, ids@), *mode) {
                    r == Ok::<usize, CatError>(ids@[0]) && final(self).nodes@ == old(self).nodes@
                } else {
                    r == Ok::<usize, CatError>(old(self).nodes@.len() as usize) && shape::cat_result(
                        f,
                        graph::parent_tensors(old(self).nodes@, ids@),
                        axis as int,
                        *mode,
                        final(self).nodes@.last().tensor,
                    ) && attached(old(self).nodes@, ids@, final(self).nodes@)
                },
            },
    {
        let tensors = self.tensors_of(ids);
        proof {
            assert forall|p: int| 0 <= p < tensors@.len() implies (#[trigger] tensors@[p]).wf() by {
                assert(ids@[p] < self.nodes@.len());
                assert(graph::node_wf(self.nodes@, ids@[p] as int));
            }
            assert(graph::parent_shapes(self.nodes@, ids@) =~= shape::tensor_shapes(tensors@));
        }
        match cat(&tensors, axis, mode, f) {
            Ok(t) => {
                if tensors.len() == 1 && (is_no_grad(mode) || !tensors[0].requires_grad()) {
                    return Ok(ids[0]);
                }
                let parents: Vec<usize> = ids.clone();
                Ok(self.attach(t, parents))
            },
            Err(e) => Err(e),
        }
    }

    /// The mean of the squared differences of two nodes.
    pub fn mean_squared_error<F: Fpu>(&mut self, output: usize, target: usize, mode: &GradMode, f: &F) -> (id: usize)
        requires
            old(self).wf(),
            output < old(self).nodes@.len(),
            target < old(self).nodes@.len(),
            old(self).nodes@[output as int].tensor.spec_shape() == old(self).nodes@[target as int].tensor.spec_shape(),
        ensures
            final(self).wf(),
            id == old(self).nodes@.len(),
            loss::mse_result(
                f,
                old(self).nodes@[output as int].tensor,
                old(self).nodes@[target as int].tensor,
                *mode,
                final(self).nodes@[id as int].tensor,
            ),
            attached(old(self).nodes@, seq![output, target], final(self).nodes@),
    {
        assert(graph::node_wf(self.nodes@, output as int) && graph::node_wf(self.nodes@, target as int));
        let parents: Vec<usize> = vec![output, target];
        let t = MSELoss::apply(&self.nodes[output].tensor, &self.nodes[target].tensor, mode, f);
        proof {
            assert(parents@ =~= seq![output, target]);
            assert(graph::parent_shapes(self.nodes@, parents@) =~= seq![
                self.nodes@[output as int].tensor.spec_shape(),
                self.nodes@[target as int].tensor.spec_shape(),
            ]);
        }
        self.attach(t, parents)
    }

    /// The mean cross entropy of logits with target probabilities.
    pub fn cross_entropy<F: Fpu>(&mut self, logits: usize, target: usize, mode: &GradMode, f: &F) -> (id: usize)
        requires
            old(self).wf(),
            logits < old(self).nodes@.len(),
            target < old(self).nodes@.len(),
            old(self).nodes@[logits as int].tensor.spec_shape().len() == 2,
            old(self).nodes@[logits as int].tensor.spec_shape() == old(self).nodes@[target as int].tensor.spec_shape(),
            loss::entropy_shapes(
                old(self).nodes@[logits as int].tensor.spec_shape(),
                old(self).nodes@[target as int].tensor.spec_shape(),
            ),
        ensures
            final(self).wf(),
            id == old(self).nodes@.len(),
            loss::entropy_result(
                f,
                old(self).nodes@[logits as int].tensor,
                old(self).nodes@[target as int].tensor,
                *mode,
                final(self).nodes@[id as int].tensor,
            ),
            attached(old(self).nodes@, seq![logits, target], final(self).nodes@),
    {
        assert(graph::node_wf(self.nodes@, logits as int) && graph::node_wf(self.nodes@, target as int));
        let parents: Vec<usize> = vec![logits, target];
        let t = CrossEntropyLoss::apply(&self.nodes[logits].tensor, &self.nodes[target].tensor, mode, f);
        proof {
            assert(parents@ =~= seq![logits, target]);
            assert(graph::parent_shapes(self.nodes@, parents@) =~= seq![
                self.nodes@[logits as int].tensor.spec_shape(),
                self.nodes@[target as int].tensor.spec_shape(),
            ]);
        }
        self.attach(t, parents)
    }

    /// Two-dimensional convolution of a node with the weight and the bias of others.
    pub fn conv2d<F: Fpu>(
        &mut self,
        input: usize,
        weight: usize,
        bias: Option<usize>,
        stride: (usize, usize),
        padding: (usize, usize),
        mode: &GradMode,
        f: &F,
    ) -> (id: usize)
        requires
            old(self).wf(),
            input < old(self).nodes@.len(),
            weight < old(self).nodes@.len(),
            bias matches Some(b) ==> b < old(self).nodes@.len(),
            old(self).nodes@[input as int].tensor.spec_shape()[0] > 0,
            bias matches Some(b) ==> old(self).nodes@[b as int].tensor.spec_shape() == seq![
                old(self).nodes@[weight as int].tensor.spec_shape()[0],
            ],
            convolution::conv_ready(
                old(self).nodes@[input as int].tensor.spec_shape(),
                old(self).nodes@[weight as int].tensor.spec_shape(),
                match bias {
                    None => None,
                    Some(b) => Some(old(self).nodes@[b as int].tensor.spec_shape()),
                },
                stride,
                padding,
            ),
        ensures
            final(self).wf(),
            id == old(self).nodes@.len(),
            convolution::conv2d_result(
                f,
                old(self).nodes@[input as int].tensor,
                old(self).nodes@[weight as int].tensor,
                match bias {
                    None => None,
                    Some(b) => Some(old(self).nodes@[b as int].tensor),
                },
                stride,
                padding,
                *mode,
                final(self).nodes@[id as int].tensor,
            ),
            attached(
                old(self).nodes@,
                match bias {
                    None => seq![input, weight],
                    Some(b) => seq![input, weight, b],
                },
                final(self).nodes@,
            ),
    {
        assert(graph::node_wf(self.nodes@, input as int) && graph::node_wf(self.nodes@, weight as int));
        match bias {
            None => {
                let parents: Vec<usize> = vec![input, weight];
                let t = conv2d(&self.nodes[input].tensor, &self.nodes[weight].tensor, None, stride, padding, mode, f);
                proof {
                    assert(parents@ =~= seq![input, weight]);
                    assert(graph::parent_shapes(self.nodes@, parents@) =~= seq![
                        self.nodes@[input as int].tensor.spec_shape(),
                        self.nodes@[weight as int].tensor.spec_shape(),
                    ]);
                }
                self.attach(t, parents)
            },
            Some(b) => {
                assert(graph::node_wf(self.nodes@, b as int));
                let parents: Vec<usize> = vec![input, weight, b];
                let t = conv2d(
                    &self.nodes[input].tensor,
                    &self.nodes[weight].tensor,
                    Some(&self.nodes[b].tensor),
                    stride,
                    padding,
                    mode,
                    f,
                );
                proof {
                    assert(parents@ =~= seq![input, weight, b]);
                    assert(graph::parent_shapes(self.nodes@, parents@) =~= seq![
                        self.nodes@[input as int].tensor.spec_shape(),
                        self.nodes@[weight as int].tensor.spec_shape(),
                        self.nodes@[b as int].tensor.spec_shape(),
                    ]);
                }
                self.attach(t, parents)
            },
        }
    }

    /// The largest element of each window of a node.
    pub fn max_pool2d<F: Fpu>(
        &mut self,
        a: usize,
        kernel_size: (usize, usize),
        stride: (usize, usize),
        mode: &GradMode,
        f: &F,
    ) -> (id: usize)
        requires
            old(self).wf(),
            a < old(self).nodes@.len(),
            convolution::pool_ready(old(self).nodes@[a as int].tensor.spec_shape(), kernel_size, stride),
            old(self).nodes@[a as int].tensor.spec_shape()[0] > 0 && old(self).nodes@[a as int].tensor.spec_shape()[1] > 0
                ==> convolution::corners_inside(
                convolution::pool_patches(old(self).nodes@[a as int].tensor.spec_shape(), kernel_size, stride),
            ),
        ensures
            final(self).wf(),
            id == old(self).nodes@.len(),
            convolution::pool_result(
                f,
                old(self).nodes@[a as int].tensor,
                kernel_size,
                stride,
                *mode,
                final(self).nodes@[id as int].tensor,
            ),
            attached(old(self).nodes@, seq![a], final(self).nodes@),
    {
        assert(graph::node_wf(self.nodes@, a as int));
        let parents: Vec<usize> = vec![a];
        let t = max_pool2d(&self.nodes[a].tensor, kernel_size, stride, mode, f);
        proof {
            assert(parents@ =~= seq![a]);
            assert(graph::parent_shapes(self.nodes@, parents@) =~= seq![self.nodes@[a as int].tensor.spec_shape()]);
        }
        self.attach(t, parents)
    }

    /// A pass of a module over a node. The tensors of some nodes take the place of its
    /// parameters first: what is learned there is what the module computes with.
    pub fn apply<F: Fpu, M: Module<F>>(
        &mut self,
        m: &mut M,
        input: usize,
        params: &Vec<usize>,
        mode: &GradMode,
        f: &F,
    ) -> (r: Result<usize, ApplyError>)
        requires
            old(self).wf(),
        ensures
            final(self).wf(),
            old(m).valid() ==> final(m).valid(),
            r is Err ==> final(self).nodes@ == old(self).nodes@,
            if input >= old(self).nodes@.len() || !numbers_in(old(self).nodes@, params@) {
                r == Err::<usize, ApplyError>(ApplyError::NoSuchNode) && final(m).param_list() == old(m).param_list()
            } else if !old(m).valid() {
                r == Err::<usize, ApplyError>(ApplyError::Refused(ModuleError::Invalid)) && final(m).param_list() == old(
                    m,
                ).param_list()
            } else {
                let tensors = graph::parent_tensors(old(self).nodes@, params@);
                match module::set_error(old(m).param_list(), tensors) {
                    Some(e) => r == Err::<usize, ApplyError>(ApplyError::Parameters(e)) && final(m).param_list() == old(
                        m,
                    ).param_list(),
                    None => final(m).param_list() == tensors && match r {
                        Ok(id) => applied(f, old(m), old(self).nodes@, input, params@, *mode, final(self).nodes@, id),
                        Err(ApplyError::Refused(e)) => old(m).computes(
                            tensors,
                            f,
                            old(self).nodes@[input as int].tensor,
                            *mode,
                            Err(e),
                        ),
                        Err(_) => false,
                    },
                }
            },
    {
        let count: usize = self.nodes.len();
        if input >= count {
            return Err(ApplyError::NoSuchNode);
        }
        let mut ids: Vec<usize> = vec![input];
        for i in 0..params.len()
            invariant
                self == old(self),
                m == old(m),
                self.wf(),
                count == self.nodes@.len(),
                input < count,
                ids@ == seq![input] + params@.take(i as int),
                forall|j: int| 0 <= j < i ==> #[trigger] params@[j] < count,
        {
            if params[i] >= count {
                assert(!numbers_in(self.nodes@, params@));
                return Err(ApplyError::NoSuchNode);
            }
            ids.push(params[i]);
            assert(ids@ =~= seq![input] + params@.take(i + 1));
        }
        assert(ids@ =~= seq![input] + params@);
        if !m.is_valid() {
            return Err(ApplyError::Refused(ModuleError::Invalid));
        }
        let tensors = self.tensors_of(params);
        match m.set_parameters(&tensors) {
            Ok(()) => {},
            Err(e) => {
                return Err(ApplyError::Parameters(e));
            },
        }
        let ghost before = self.nodes@;
        assert(graph::node_wf(before, input as int));
        let steps = match m.forward(&self.nodes[input].tensor, mode, f) {
            Ok(steps) => steps,
            Err(e) => {
                return Err(ApplyError::Refused(e));
            },
        };
        assert(m.computes(tensors@, f, before[input as int].tensor, *mode, Ok(steps@)));
        assert(old(m).computes(tensors@, f, before[input as int].tensor, *mode, Ok(steps@)));
        if steps.len() == 0 {
            assert(extended(before, seq![input] + params@, steps@, self.nodes@));
            return Ok(input);
        }
        proof {
            let operands = module::module_operands(before[input as int].tensor.spec_shape(), tensors@);
            assert(trace::extents_of(before, ids@) =~= operands) by {
                assert forall|k: int| 0 <= k < ids@.len() implies trace::extents_of(before, ids@)[k] == operands[k] by {
                    if k > 0 {
                        assert(ids@[k] == params@[k - 1]);
                    }
                }
            }
            assert forall|k: int| 0 <= k < ids@.len() implies #[trigger] ids@[k] < before.len() by {
                if k > 0 {
                    assert(params@[k - 1] < count);
                }
            }
        }
        let id: usize = self.append(&ids, &steps);
        assert(extended(before, seq![input] + params@, steps@, self.nodes@));
        Ok(id)
    }
}

/// A sound tensor that no operation made.
pub open spec fn sound_leaf(t: Tensor) -> bool {
    t.wf() && t.op is None
}

/// All are sound tensors that no operation made.
pub open spec fn sound_leaves(tensors: Seq<Tensor>) -> bool {
    forall|i: int| 0 <= i < tensors.len() ==> sound_leaf(#[trigger] tensors[i])
}

/// `after` has the tensors as nodes without parents behind the nodes of `before`, and `ids`
/// are their numbers.
pub open spec fn adopted(before: Seq<Node>, tensors: Seq<Tensor>, after: Seq<Node>, ids: Seq<usize>) -> bool {
    &&& after.len() == before.len() + tensors.len()
    &&& ids.len() == tensors.len()
    &&& forall|i: int| 0 <= i < before.len() ==> #[trigger] after[i] == before[i]
    &&& forall|i: int|
        0 <= i < ids.len() ==> #[trigger] ids[i] == before.len() + i && after[before.len() + i].tensor == tensors[i]
            && after[before.len() + i].parents@.len() == 0
}

impl Graph {
    /// Adds the parameters of a module as nodes, and gives their numbers. A parameter has to
    /// be sound, and made by no operation.
    pub fn adopt<F: Fpu, M: Module<F>>(&mut self, m: &M) -> (r: Result<Vec<usize>, LoadError>)
        requires
            old(self).wf(),
        ensures
            final(self).wf(),
            if sound_leaves(m.param_list()) {
                r matches Ok(ids) && adopted(old(self).nodes@, m.param_list(), final(self).nodes@, ids@)
            } else {
                r == Err::<Vec<usize>, LoadError>(LoadError::BadEntry) && final(self).nodes@ == old(self).nodes@
            },
    {
        let params = m.parameters();
        let n: usize = params.len();
        for i in 0..n
            invariant
                n == params@.len(),
                params@ == m.param_list(),
                self == old(self),
                self.wf(),
                forall|j: int| 0 <= j < i ==> sound_leaf(#[trigger] params@[j]),
        {
            if params[i].op.is_some() || !params[i].is_sound() {
                assert(!sound_leaf(params@[i as int]));
                return Err(LoadError::BadEntry);
            }
        }
        let ghost before = self.nodes@;
        let mut ids: Vec<usize> = Vec::with_capacity(n);
        for i in 0..n
            invariant
                n == params@.len(),
                params@ == m.param_list(),
                sound_leaves(params@),
                before == old(self).nodes@,
                self.wf(),
                adopted(before, params@.take(i as int), self.nodes@, ids@),
        {
            assert(sound_leaf(params@[i as int]));
            let ghost mid = self.nodes@;
            let ghost mid_ids = ids@;
            let id: usize = self.push(params[i].clone(), Vec::new());
            ids.push(id);
            proof {
                let now = params@.take(i + 1);
                assert(id == before.len() + i);
                assert forall|j: int| 0 <= j < before.len() implies #[trigger] self.nodes@[j] == before[j] by {
                    assert(mid[j] == before[j]);
                }
                assert forall|j: int| 0 <= j < ids@.len() implies #[trigger] ids@[j] == before.len() + j
                    && self.nodes@[before.len() + j].tensor == now[j] && self.nodes@[before.len() + j].parents@.len() == 0 by {
                    if j < i {
                        assert(mid_ids[j] == before.len() + j);
                        assert(self.nodes@[before.len() + j] == mid[before.len() + j]);
                        assert(params@.take(i as int)[j] == now[j]);
                    }
                }
                assert(adopted(before, now, self.nodes@, ids@));
            }
        }
        assert(params@.take(n as int) =~= params@);
        Ok(ids)
    }

    /// Puts the tensors of some nodes in place of the parameters of a module.
    pub fn hand_back<F: Fpu, M: Module<F>>(&self, ids: &Vec<usize>, m: &mut M) -> (r: Result<(), ApplyError>)
        ensures
            old(m).valid() ==> final(m).valid(),
            if !numbers_in(self.nodes@, ids@) {
                r == Err::<(), ApplyError>(ApplyError::NoSuchNode) && final(m).param_list() == old(m).param_list()
            } else {
                match module::set_error(old(m).param_list(), graph::parent_tensors(self.nodes@, ids@)) {
                    Some(e) => r == Err::<(), ApplyError>(ApplyError::Parameters(e)) && final(m).param_list() == old(
                        m,
                    ).param_list(),
                    None => r is Ok && final(m).param_list() == graph::parent_tensors(self.nodes@, ids@),
                }
            },
            forall|p: Seq<Tensor>, f: &F, input: Tensor, mode: GradMode, r: Result<Seq<Node>, ModuleError>| #[trigger]
                final(m).computes(p, f, input, mode, r) == old(m).computes(p, f, input, mode, r),
    {
        let count: usize = self.nodes.len();
        for i in 0..ids.len()
            invariant
                m == old(m),
                count == self.nodes@.len(),
                forall|j: int| 0 <= j < i ==> #[trigger] ids@[j] < count,
        {
            if ids[i] >= count {
                assert(!numbers_in(self.nodes@, ids@));
                return Err(ApplyError::NoSuchNode);
            }
        }
        let tensors = self.tensors_of(ids);
        match m.set_parameters(&tensors) {
            Ok(()) => Ok(()),
            Err(e) => Err(ApplyError::Parameters(e)),
        }
    }
}

/// The parameters of a module that a graph has adopted fit in the places they came from:
/// the module can be applied with them, and they can be handed back.
pub proof fn law_adopted_parameters_fit(before: Seq<Node>, params: Seq<Tensor>, after: Seq<Node>, ids: Seq<usize>)
    requires
        sound_leaves(params),
        adopted(before, params, after, ids),
    ensures
        numbers_in(after, ids),
        graph::parent_tensors(after, ids) == params,
        module::set_error(params, graph::parent_tensors(after, ids)) is None,
{
    assert forall|i: int| 0 <= i < ids.len() implies #[trigger] ids[i] < after.len() && graph::parent_tensors(after, ids)[i] == params[i] by {
        assert(ids[i] == before.len() + i);
    }
    assert(graph::parent_tensors(after, ids) =~= params);
    assert forall|i: int| 0 <= i < params.len() implies module::fits_in(params[i], #[trigger] params[i]) by {
        assert(sound_leaf(params[i]));
    }
}

/// A part of the last axis that is all of it, where nothing is recorded.
pub open spec fn whole_axis(t: Tensor, start: int, end: int, mode: GradMode) -> bool {
    (mode.no_grad() || !t.requires_grad) && start == 0 && end == t.spec_shape().last()
}

} // verus!
