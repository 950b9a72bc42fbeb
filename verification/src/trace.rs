use crate::autograd::Tensor;
use crate::graph;
use crate::graph::{Graph, Node};
use vstd::prelude::*;

verus! {

/// The extents of the operands of a computation, and of the results of its steps.
pub open spec fn local_shapes(operands: Seq<Seq<usize>>, steps: Seq<Node>) -> Seq<Seq<usize>> {
    operands + Seq::new(steps.len(), |i: int| steps[i].tensor.spec_shape())
}

/// The extents of the parents of a step.
pub open spec fn step_shapes(operands: Seq<Seq<usize>>, steps: Seq<Node>, parents: Seq<usize>) -> Seq<Seq<usize>> {
    Seq::new(parents.len(), |p: int| local_shapes(operands, steps)[parents[p] as int])
}

/// A step of a computation is sound: operands count from zero, and steps behind them.
pub open spec fn step_wf(operands: Seq<Seq<usize>>, steps: Seq<Node>, i: int) -> bool {
    let step = steps[i];
    &&& step.tensor.wf()
    &&& forall|p: int| 0 <= p < step.parents@.len() ==> #[trigger] step.parents@[p] < operands.len() + i
    &&& step.tensor.op matches Some(op) ==> op.suits(
        step.tensor.spec_shape(),
        step_shapes(operands, steps, step.parents@),
    )
}

/// The steps of a computation, of which the last gives its result.
pub open spec fn steps_wf(operands: Seq<Seq<usize>>, steps: Seq<Node>) -> bool {
    &&& steps.len() > 0
    &&& forall|i: int| 0 <= i < steps.len() ==> #[trigger] step_wf(operands, steps, i)
}

/// The record of `t`, if there is one, belongs to operands of these extents.
pub open spec fn made_of(t: Tensor, operands: Seq<Seq<usize>>) -> bool {
    t.op matches Some(op) ==> op.suits(t.spec_shape(), operands)
}

/// A step remembers what it was made of only where it was recorded.
pub open spec fn step_parents(t: Tensor, parents: Seq<usize>) -> Seq<usize> {
    if t.op is Some {
        parents
    } else {
        Seq::empty()
    }
}

/// `n` is a step with this result.
pub open spec fn is_step(n: Node, t: Tensor, parents: Seq<usize>) -> bool {
    n.tensor == t && n.parents@ == step_parents(t, parents)
}

/// A step of a computation.
pub fn step(tensor: Tensor, parents: Vec<usize>) -> (n: Node)
    ensures
        is_step(n, tensor, parents@),
{
    if tensor.op.is_some() {
        Node { tensor, parents }
    } else {
        Node { tensor, parents: Vec::new() }
    }
}

/// Adds a step behind sound ones, or the first one.
pub(crate) fn add_step(steps: &mut Vec<Node>, tensor: Tensor, parents: Vec<usize>, Ghost(operands): Ghost<Seq<Seq<usize>>>)
    requires
        old(steps)@.len() > 0 ==> steps_wf(operands, old(steps)@),
        tensor.wf(),
        forall|p: int| 0 <= p < parents@.len() ==> #[trigger] parents@[p] < operands.len() + old(steps)@.len(),
        made_of(tensor, step_shapes(operands, old(steps)@, parents@)),
    ensures
        final(steps)@.len() == old(steps)@.len() + 1,
        forall|i: int| 0 <= i < old(steps)@.len() ==> #[trigger] final(steps)@[i] == old(steps)@[i],
        is_step(final(steps)@.last(), tensor, parents@),
        steps_wf(operands, final(steps)@),
{
    let ghost before = steps@;
    let ghost own = parents@;
    let n = step(tensor, parents);
    steps.push(n);
    proof {
        let after = steps@;
        assert forall|i: int| 0 <= i < after.len() implies #[trigger] step_wf(operands, after, i) by {
            if i < before.len() {
                assert(step_wf(operands, before, i));
                lemma_same_shapes(operands, before, after, i, after[i].parents@);
            } else {
                lemma_same_shapes(operands, before, after, i, after[i].parents@);
                if tensor.op is Some {
                    assert(after[i].parents@ == own);
                }
            }
        }
    }
}

/// Adds a step that was made of one operand or step.
pub(crate) fn add_unary(steps: &mut Vec<Node>, tensor: Tensor, parent: usize, Ghost(operands): Ghost<Seq<Seq<usize>>>)
    requires
        old(steps)@.len() > 0 ==> steps_wf(operands, old(steps)@),
        tensor.wf(),
        parent < operands.len() + old(steps)@.len(),
        made_of(tensor, seq![local_shapes(operands, old(steps)@)[parent as int]]),
    ensures
        final(steps)@.len() == old(steps)@.len() + 1,
        forall|i: int| 0 <= i < old(steps)@.len() ==> #[trigger] final(steps)@[i] == old(steps)@[i],
        is_step(final(steps)@[old(steps)@.len() as int], tensor, seq![parent]),
        steps_wf(operands, final(steps)@),
{
    let parents: Vec<usize> = vec![parent];
    proof {
        assert(parents@ =~= seq![parent]);
        assert(step_shapes(operands, steps@, parents@) =~= seq![local_shapes(operands, steps@)[parent as int]]);
    }
    add_step(steps, tensor, parents, Ghost(operands));
}

/// Adds a step that was made of two operands or steps.
pub(crate) fn add_binary(
    steps: &mut Vec<Node>,
    tensor: Tensor,
    left: usize,
    right: usize,
    Ghost(operands): Ghost<Seq<Seq<usize>>>,
)
    requires
        old(steps)@.len() > 0 ==> steps_wf(operands, old(steps)@),
        tensor.wf(),
        left < operands.len() + old(steps)@.len(),
        right < operands.len() + old(steps)@.len(),
        made_of(
            tensor,
            seq![
                local_shapes(operands, old(steps)@)[left as int],
                local_shapes(operands, old(steps)@)[right as int],
            ],
        ),
    ensures
        final(steps)@.len() == old(steps)@.len() + 1,
        forall|i: int| 0 <= i < old(steps)@.len() ==> #[trigger] final(steps)@[i] == old(steps)@[i],
        is_step(final(steps)@[old(steps)@.len() as int], tensor, seq![left, right]),
        steps_wf(operands, final(steps)@),
{
    let parents: Vec<usize> = vec![left, right];
    proof {
        assert(parents@ =~= seq![left, right]);
        assert(step_shapes(operands, steps@, parents@) =~= seq![
            local_shapes(operands, steps@)[left as int],
            local_shapes(operands, steps@)[right as int],
        ]);
    }
    add_step(steps, tensor, parents, Ghost(operands));
}

/// What comes later does not change what a step was made of.
proof fn lemma_same_shapes(operands: Seq<Seq<usize>>, before: Seq<Node>, after: Seq<Node>, n: int, parents: Seq<usize>)
    requires
        0 <= n <= before.len() <= after.len(),
        forall|i: int| 0 <= i < before.len() ==> #[trigger] after[i] == before[i],
        forall|p: int| 0 <= p < parents.len() ==> #[trigger] parents[p] < operands.len() + n,
    ensures
        step_shapes(operands, before, parents) == step_shapes(operands, after, parents),
{
    assert forall|p: int| 0 <= p < parents.len() implies step_shapes(operands, before, parents)[p] == step_shapes(
        operands,
        after,
        parents,
    )[p] by {
        assert(parents[p] < operands.len() + n);
        let q = parents[p] as int;
        if q >= operands.len() {
            assert(after[q - operands.len()] == before[q - operands.len()]);
        }
    }
    assert(step_shapes(operands, before, parents) =~= step_shapes(operands, after, parents));
}

/// The number that an operand or a step has in a graph.
pub open spec fn placed(ids: Seq<usize>, base: int, q: int) -> int {
    if q < ids.len() {
        ids[q] as int
    } else {
        base + (q - ids.len())
    }
}

/// `n` is the step with its parents renumbered.
pub open spec fn placed_step(ids: Seq<usize>, base: int, step: Node, n: Node) -> bool {
    &&& n.tensor == step.tensor
    &&& n.parents@.len() == step.parents@.len()
    &&& forall|p: int|
        0 <= p < n.parents@.len() ==> #[trigger] n.parents@[p] == placed(ids, base, step.parents@[p] as int)
}

/// `after` is `before` with the steps of an inner computation behind it, whose operands
/// are the operands and steps with these numbers.
pub open spec fn spliced(before: Seq<Node>, n_ops: int, ids: Seq<usize>, sub: Seq<Node>, after: Seq<Node>) -> bool {
    &&& after.len() == before.len() + sub.len()
    &&& forall|i: int| 0 <= i < before.len() ==> #[trigger] after[i] == before[i]
    &&& forall|i: int|
        0 <= i < sub.len() ==> placed_step(ids, n_ops + before.len(), #[trigger] sub[i], after[before.len() + i])
}

/// The extents of what has these numbers.
pub open spec fn numbered_shapes(operands: Seq<Seq<usize>>, steps: Seq<Node>, ids: Seq<usize>) -> Seq<Seq<usize>> {
    step_shapes(operands, steps, ids)
}

/// Adds the steps of an inner computation.
pub(crate) fn splice(steps: &mut Vec<Node>, n_ops: usize, ids: &Vec<usize>, sub: &Vec<Node>, Ghost(operands): Ghost<Seq<Seq<usize>>>)
    requires
        old(steps)@.len() > 0 ==> steps_wf(operands, old(steps)@),
        n_ops == operands.len(),
        n_ops + old(steps)@.len() + sub@.len() <= usize::MAX,
        forall|k: int| 0 <= k < ids@.len() ==> #[trigger] ids@[k] < n_ops + old(steps)@.len(),
        steps_wf(numbered_shapes(operands, old(steps)@, ids@), sub@),
    ensures
        spliced(old(steps)@, n_ops as int, ids@, sub@, final(steps)@),
        steps_wf(operands, final(steps)@),
{
    let ghost before = steps@;
    let ghost inner = numbered_shapes(operands, before, ids@);
    let base: usize = n_ops + steps.len();
    let k: usize = ids.len();
    for i in 0..sub.len()
        invariant
            k == ids@.len(),
            n_ops == operands.len(),
            base == n_ops + before.len(),
            base + sub@.len() <= usize::MAX,
            inner == numbered_shapes(operands, before, ids@),
            forall|j: int| 0 <= j < ids@.len() ==> #[trigger] ids@[j] < base,
            steps_wf(inner, sub@),
            steps@.len() > 0 ==> steps_wf(operands, steps@),
            steps@.len() == before.len() + i,
            forall|j: int| 0 <= j < before.len() ==> #[trigger] steps@[j] == before[j],
            forall|j: int|
                0 <= j < i ==> placed_step(ids@, base as int, #[trigger] sub@[j], steps@[before.len() + j]),
    {
        assert(step_wf(inner, sub@, i as int));
        let mut parents: Vec<usize> = Vec::new();
        let count: usize = sub[i].parents.len();
        for p in 0..count
            invariant
                count == sub@[i as int].parents@.len(),
                i < sub@.len(),
                k == ids@.len(),
                inner.len() == k,
                base + sub@.len() <= usize::MAX,
                step_wf(inner, sub@, i as int),
                forall|j: int| 0 <= j < ids@.len() ==> #[trigger] ids@[j] < base,
                parents@.len() == p,
                forall|q: int|
                    0 <= q < p ==> #[trigger] parents@[q] == placed(ids@, base as int, sub@[i as int].parents@[q] as int)
                        && parents@[q] < base + i,
        {
            let q: usize = sub[i].parents[p];
            assert(sub@[i as int].parents@[p as int] < inner.len() + i);
            if q < k {
                parents.push(ids[q]);
            } else {
                parents.push(base + (q - k));
            }
        }
        let ghost own = sub@[i as int].parents@;
        let ghost now = steps@;
        proof {
            assert(step_shapes(operands, now, parents@) =~= step_shapes(inner, sub@, own)) by {
                assert forall|p: int| 0 <= p < own.len() implies step_shapes(operands, now, parents@)[p] == step_shapes(
                    inner,
                    sub@,
                    own,
                )[p] by {
                    let q = own[p] as int;
                    assert(own[p] < inner.len() + i);
                    assert(parents@[p] == placed(ids@, base as int, q));
                    if q >= k {
                        assert(placed_step(ids@, base as int, sub@[q - k], now[before.len() + (q - k)]));
                    } else {
                        let id = ids@[q] as int;
                        assert(ids@[q] < base);
                        if id >= n_ops {
                            assert(now[id - n_ops] == before[id - n_ops]);
                        }
                    }
                }
            }
        }
        let n = Node { tensor: sub[i].tensor.clone(), parents };
        steps.push(n);
        proof {
            let after = steps@;
            assert forall|j: int| 0 <= j < after.len() implies #[trigger] step_wf(operands, after, j) by {
                if j < now.len() {
                    assert(step_wf(operands, now, j));
                    lemma_same_shapes(operands, now, after, j, after[j].parents@);
                } else {
                    assert forall|p: int| 0 <= p < after[j].parents@.len() implies #[trigger] after[j].parents@[p]
                        < operands.len() + j by {
                        assert(parents@[p] < base + i);
                    }
                    lemma_same_shapes(operands, now, after, j, after[j].parents@);
                }
            }
        }
    }
}

/// The extents of some nodes of a graph.
pub open spec fn extents_of(nodes: Seq<Node>, ids: Seq<usize>) -> Seq<Seq<usize>> {
    graph::parent_shapes(nodes, ids)
}

impl Graph {
    /// Adds the steps of a computation on some of the nodes, and gives the number of
    /// its result.
    pub fn append(&mut self, ids: &Vec<usize>, steps: &Vec<Node>) -> (id: usize)
        requires
            old(self).wf(),
            forall|k: int| 0 <= k < ids@.len() ==> #[trigger] ids@[k] < old(self).nodes@.len(),
            steps_wf(extents_of(old(self).nodes@, ids@), steps@),
        ensures
            final(self).wf(),
            final(self).nodes@.len() == old(self).nodes@.len() + steps@.len(),
            id == final(self).nodes@.len() - 1,
            forall|i: int| 0 <= i < old(self).nodes@.len() ==> #[trigger] final(self).nodes@[i] == old(self).nodes@[i],
            forall|i: int|
                0 <= i < steps@.len() ==> placed_step(
                    ids@,
                    old(self).nodes@.len() as int,
                    #[trigger] steps@[i],
                    final(self).nodes@[old(self).nodes@.len() + i],
                ),
    {
        let base: usize = self.nodes.len();
        let ghost before = self.nodes@;
        let ghost operands = extents_of(before, ids@);
        let k: usize = ids.len();
        for i in 0..steps.len()
            invariant
                self.wf(),
                k == ids@.len(),
                base == before.len(),
                operands == extents_of(before, ids@),
                forall|j: int| 0 <= j < ids@.len() ==> #[trigger] ids@[j] < before.len(),
                steps_wf(operands, steps@),
                self.nodes@.len() == base + i,
                forall|j: int| 0 <= j < before.len() ==> #[trigger] self.nodes@[j] == before[j],
                forall|j: int|
                    0 <= j < i ==> placed_step(ids@, base as int, #[trigger] steps@[j], self.nodes@[base + j]),
        {
            assert(step_wf(operands, steps@, i as int));
            let size: usize = self.nodes.len();
            let mut parents: Vec<usize> = Vec::new();
            let count: usize = steps[i].parents.len();
            for p in 0..count
                invariant
                    count == steps@[i as int].parents@.len(),
                    i < steps@.len(),
                    size == base + i,
                    k == ids@.len(),
                    operands.len() == k,
                    base == before.len(),
                    step_wf(operands, steps@, i as int),
                    forall|j: int| 0 <= j < ids@.len() ==> #[trigger] ids@[j] < before.len(),
                    parents@.len() == p,
                    forall|q: int|
                        0 <= q < p ==> #[trigger] parents@[q] == placed(ids@, base as int, steps@[i as int].parents@[q] as int)
                            && parents@[q] < size,
            {
                let q: usize = steps[i].parents[p];
                assert(steps@[i as int].parents@[p as int] < operands.len() + i);
                if q < k {
                    parents.push(ids[q]);
                } else {
                    parents.push(base + (q - k));
                }
            }
            proof {
                let own = steps@[i as int].parents@;
                assert(graph::parent_shapes(self.nodes@, parents@) =~= step_shapes(operands, steps@, own)) by {
                    assert forall|p: int| 0 <= p < own.len() implies graph::parent_shapes(self.nodes@, parents@)[p]
                        == step_shapes(operands, steps@, own)[p] by {
                        let q = own[p] as int;
                        assert(own[p] < operands.len() + i);
                        assert(parents@[p] == placed(ids@, base as int, q));
                        if q >= k {
                            assert(placed_step(ids@, base as int, steps@[q - k], self.nodes@[base + (q - k)]));
                        }
                    }
                }
            }
            self.push(steps[i].tensor.clone(), parents);
        }
        self.nodes.len() - 1
    }
}

} // verus!
