use crate::array::NdArray;
use crate::autograd;
use crate::autograd::{BackwardOp, Tensor};
use crate::fpu;
use crate::fpu::Fpu;
use crate::live;
use std::sync::Arc;
use vstd::prelude::*;

verus! {

/// A tensor and the nodes that it was made of.
pub struct Node {
    pub tensor: Tensor,
    pub parents: Vec<usize>,
}

/// Tensors in the order in which they were made: a node comes after its parents.
pub struct Graph {
    pub nodes: Vec<Node>,
}

/// The extents of the parents of a node.
pub open spec fn parent_shapes(nodes: Seq<Node>, parents: Seq<usize>) -> Seq<Seq<usize>> {
    Seq::new(parents.len(), |p: int| nodes[parents[p] as int].tensor.spec_shape())
}

/// The node is sound, comes after its parents, and its record belongs to them.
pub open spec fn node_wf(nodes: Seq<Node>, id: int) -> bool {
    let node = nodes[id];
    &&& node.tensor.wf()
    &&& forall|p: int| 0 <= p < node.parents@.len() ==> #[trigger] node.parents@[p] < id
    &&& node.tensor.op matches Some(op) ==> op.suits(
        node.tensor.spec_shape(),
        parent_shapes(nodes, node.parents@),
    )
}

pub open spec fn nodes_wf(nodes: Seq<Node>) -> bool {
    forall|id: int| 0 <= id < nodes.len() ==> #[trigger] node_wf(nodes, id)
}

/// The nodes in `done`, and behind them those from which `id` descends that are not
/// among them: parents first, in the order in which a depth-first walk leaves them.
pub open spec fn visited(nodes: Seq<Node>, id: int, done: Seq<usize>) -> Seq<usize>
    decreases id, nodes[id].parents@.len() + 1,
{
    if done.contains(id as usize) {
        done
    } else {
        visited_parents(nodes, id, nodes[id].parents@.len() as int, done).push(id as usize)
    }
}

/// The walk through the first `n` parents of a node.
pub open spec fn visited_parents(nodes: Seq<Node>, id: int, n: int, done: Seq<usize>) -> Seq<usize>
    decreases id, n,
{
    if n <= 0 {
        done
    } else {
        let parent = nodes[id].parents@[n - 1] as int;
        let before = visited_parents(nodes, id, n - 1, done);
        if parent < id {
            visited(nodes, parent, before)
        } else {
            before
        }
    }
}

impl Graph {
    pub open spec fn wf(&self) -> bool {
        nodes_wf(self.nodes@)
    }

    pub fn new() -> (g: Graph)
        ensures
            g.wf(),
            g.nodes@.len() == 0,
    {
        Graph { nodes: Vec::new() }
    }

    /// Adds a node, and gives its number.
    pub fn push(&mut self, tensor: Tensor, parents: Vec<usize>) -> (id: usize)
        requires
            old(self).wf(),
            tensor.wf(),
            forall|p: int| 0 <= p < parents@.len() ==> #[trigger] parents@[p] < old(self).nodes@.len(),
            tensor.op matches Some(op) ==> op.suits(tensor.spec_shape(), parent_shapes(old(self).nodes@, parents@)),
        ensures
            final(self).wf(),
            id == old(self).nodes@.len(),
            final(self).nodes@ == old(self).nodes@.push(Node { tensor, parents }),
    {
        let id: usize = self.nodes.len();
        let ghost before = self.nodes@;
        self.nodes.push(Node { tensor, parents });
        proof {
            let after = self.nodes@;
            assert forall|i: int| 0 <= i < after.len() implies #[trigger] node_wf(after, i) by {
                if i < before.len() {
                    assert(node_wf(before, i));
                    assert(parent_shapes(after, after[i].parents@) =~= parent_shapes(before, before[i].parents@)) by {
                        assert forall|p: int| 0 <= p < after[i].parents@.len() implies parent_shapes(
                            after,
                            after[i].parents@,
                        )[p] == parent_shapes(before, before[i].parents@)[p] by {
                            assert(before[i].parents@[p] < i);
                        }
                    }
                } else {
                    assert(parent_shapes(after, parents@) =~= parent_shapes(before, parents@));
                }
            }
        }
        id
    }

    /// Walks depth first from a node, and lists the nodes as it leaves them.
    fn build_topo(&self, id: usize, topo: &mut Vec<usize>, seen: &mut Vec<bool>)
        requires
            self.wf(),
            id < self.nodes@.len(),
            old(seen)@.len() == self.nodes@.len(),
            forall|i: int| 0 <= i <= id ==> (#[trigger] old(seen)@[i] <==> old(topo)@.contains(i as usize)),
        ensures
            final(topo)@ == visited(self.nodes@, id as int, old(topo)@),
            final(seen)@.len() == self.nodes@.len(),
            forall|i: int| 0 <= i <= id ==> (#[trigger] final(seen)@[i] <==> final(topo)@.contains(i as usize)),
            forall|i: int| id < i < self.nodes@.len() ==> #[trigger] final(seen)@[i] == old(seen)@[i],
            forall|i: int| id < i <= usize::MAX ==> final(topo)@.contains(i as usize) == #[trigger] old(topo)@.contains(i as usize),
        decreases id,
    {
        if seen[id] {
            return;
        }
        seen.set(id, true);
        let ghost start = topo@;
        assert(node_wf(self.nodes@, id as int));
        let count: usize = self.nodes[id].parents.len();
        for n in 0..count
            invariant
                self.wf(),
                id < self.nodes@.len(),
                node_wf(self.nodes@, id as int),
                count == self.nodes@[id as int].parents@.len(),
                seen@.len() == self.nodes@.len(),
                !start.contains(id),
                !topo@.contains(id),
                seen@[id as int],
                topo@ == visited_parents(self.nodes@, id as int, n as int, start),
                forall|i: int| 0 <= i < id ==> (#[trigger] seen@[i] <==> topo@.contains(i as usize)),
                forall|i: int| id < i < self.nodes@.len() ==> #[trigger] seen@[i] == old(seen)@[i],
                forall|i: int| id < i <= usize::MAX ==> topo@.contains(i as usize) == #[trigger] start.contains(i as usize),
        {
            let parent: usize = self.nodes[id].parents[n];
            assert(self.nodes@[id as int].parents@[n as int] < id);
            let ghost mid = topo@;
            let ghost mid_seen = seen@;
            self.build_topo(parent, topo, seen);
            proof {
                assert(topo@.contains(id) == mid.contains(id as int as usize));
                assert forall|i: int| 0 <= i < id implies (#[trigger] seen@[i] <==> topo@.contains(i as usize)) by {
                    if i > parent {
                        assert(seen@[i] == mid_seen[i]);
                        assert(topo@.contains(i as usize) == mid.contains(i as usize));
                    }
                }
            }
        }
        let ghost walked = topo@;
        topo.push(id);
        proof {
            assert forall|i: int| 0 <= i <= usize::MAX implies #[trigger] topo@.contains(i as usize) == (walked.contains(
                i as usize,
            ) || i == id) by {
                if walked.contains(i as usize) {
                    let k = choose|k: int| 0 <= k < walked.len() && walked[k] == i as usize;
                    assert(topo@[k] == i as usize);
                }
                if i == id {
                    assert(topo@[walked.len() as int] == i as usize);
                }
            }
            assert forall|i: int| id < i <= usize::MAX implies topo@.contains(i as usize) == #[trigger] start.contains(
                i as usize,
            ) by {
                assert(walked.contains(i as usize) == start.contains(i as usize));
            }
        }
    }
}

/// `after` is `before` with the gradient `g` added to a node.
pub open spec fn contributed<F: Fpu>(f: &F, before: Seq<Node>, id: int, g: NdArray<u32>, after: Seq<Node>) -> bool {
    &&& after.len() == before.len()
    &&& forall|i: int| 0 <= i < before.len() && i != id ==> #[trigger] after[i] == before[i]
    &&& autograd::accumulated(f, before[id].tensor.grad, g, after[id].tensor.grad)
    &&& after[id] == (Node {
        tensor: Tensor { grad: after[id].tensor.grad, ..before[id].tensor },
        parents: before[id].parents,
    })
}

/// The first `n` parents of a node have received their gradients, in turn.
pub open spec fn propagated<F: Fpu>(
    f: &F,
    before: Seq<Node>,
    parents: Seq<usize>,
    grads: Seq<Option<Arc<NdArray<u32>>>>,
    n: int,
    after: Seq<Node>,
) -> bool
    decreases n,
{
    if n <= 0 {
        after == before
    } else {
        exists|mid: Seq<Node>|
            propagated(f, before, parents, grads, n - 1, mid) && #[trigger] received(
                f,
                mid,
                parents[n - 1] as int,
                grads[n - 1],
                after,
            )
    }
}

/// A gradient has been added to a node, if there is one.
pub open spec fn received<F: Fpu>(f: &F, before: Seq<Node>, id: int, g: Option<Arc<NdArray<u32>>>, after: Seq<Node>) -> bool {
    match g {
        Some(g) => contributed(f, before, id, *g, after),
        None => after == before,
    }
}

/// The gradients that an operation sends to its operands.
pub open spec fn sent_by<F: Fpu>(f: &F, op: BackwardOp, g: NdArray<u32>, grads: Seq<Option<Arc<NdArray<u32>>>>) -> bool {
    forall|p: int|
        0 <= p < grads.len() ==> (#[trigger] grads[p] is Some <==> op.receives(p)) && (grads[p] is Some ==> op.sends(
            f,
            g,
            p,
            *grads[p]->0,
        ))
}

/// The tensors of the parents of a node.
pub open spec fn parent_tensors(nodes: Seq<Node>, parents: Seq<usize>) -> Seq<Tensor> {
    Seq::new(parents.len(), |p: int| nodes[parents[p] as int].tensor)
}

/// A node has sent its gradient to its parents, if it has one and was recorded. The
/// derivative is taken of what the parents hold now.
pub open spec fn node_sent<F: Fpu>(f: &F, before: Seq<Node>, id: int, after: Seq<Node>) -> bool {
    let node = before[id];
    match (node.tensor.grad, node.tensor.op) {
        (Some(g), Some(op)) => exists|grads: Seq<Option<Arc<NdArray<u32>>>>|
            grads.len() == node.parents@.len() && live::live_sent(
                f,
                *op,
                parent_tensors(before, node.parents@),
                *g,
                grads,
            ) && #[trigger] propagated(
                f,
                before,
                node.parents@,
                grads,
                grads.len() as int,
                after,
            ),
        _ => after == before,
    }
}

/// The last `n` nodes of the order have sent their gradients, from the end on.
pub open spec fn swept<F: Fpu>(f: &F, before: Seq<Node>, order: Seq<usize>, n: int, after: Seq<Node>) -> bool
    decreases n,
{
    if n <= 0 {
        after == before
    } else {
        exists|mid: Seq<Node>|
            swept(f, before, order, n - 1, mid) && #[trigger] node_sent(f, mid, order[order.len() - n] as int, after)
    }
}

/// An array of ones.
pub open spec fn all_ones(shape: Seq<usize>, a: NdArray<u32>) -> bool {
    &&& a.wf()
    &&& a.shape@ == shape
    &&& forall|i: int| 0 <= i < a.data@.len() ==> #[trigger] a.data@[i] == fpu::ONE
}

/// Nodes differ in their gradients alone.
pub open spec fn same_but_grads(a: Seq<Node>, b: Seq<Node>) -> bool {
    &&& a.len() == b.len()
    &&& forall|i: int|
        0 <= i < a.len() ==> #[trigger] b[i] == (Node {
            tensor: Tensor { grad: b[i].tensor.grad, ..a[i].tensor },
            parents: a[i].parents,
        })
}

/// New gradients of the right extents leave the graph sound.
proof fn lemma_still_wf(a: Seq<Node>, b: Seq<Node>)
    requires
        nodes_wf(a),
        same_but_grads(a, b),
        forall|i: int| 0 <= i < b.len() ==> (#[trigger] b[i]).tensor.wf(),
    ensures
        nodes_wf(b),
{
    assert forall|id: int| 0 <= id < b.len() implies #[trigger] node_wf(b, id) by {
        assert(node_wf(a, id));
        assert(b[id].tensor.wf());
        assert(parent_shapes(a, a[id].parents@) =~= parent_shapes(b, b[id].parents@)) by {
            assert forall|p: int| 0 <= p < a[id].parents@.len() implies parent_shapes(a, a[id].parents@)[p]
                == parent_shapes(b, b[id].parents@)[p] by {
                let q = a[id].parents@[p] as int;
                assert(a[id].parents@[p] < id);
                assert(b[q].parents == a[q].parents);
            }
        }
    }
}

impl Graph {
    /// Adds a gradient of the right extents to a node.
    fn contribute<F: Fpu>(&mut self, id: usize, g: Arc<NdArray<u32>>, f: &F)
        requires
            old(self).wf(),
            id < old(self).nodes@.len(),
            g.wf(),
            g.shape@ == old(self).nodes@[id as int].tensor.spec_shape(),
        ensures
            final(self).wf(),
            contributed(f, old(self).nodes@, id as int, *g, final(self).nodes@),
            same_but_grads(old(self).nodes@, final(self).nodes@),
    {
        let ghost before = self.nodes@;
        assert(node_wf(before, id as int));
        let node = &mut self.nodes[id];
        let _ = node.tensor.add_grad(f, g);
        proof {
            let after = self.nodes@;
            assert forall|i: int| 0 <= i < after.len() implies (#[trigger] after[i]).tensor.wf() by {
                assert(node_wf(before, i));
            }
            lemma_still_wf(before, after);
        }
    }

    /// The tensors of some nodes.
    pub(crate) fn tensors_of(&self, ids: &Vec<usize>) -> (tensors: Vec<Tensor>)
        requires
            forall|i: int| 0 <= i < ids@.len() ==> #[trigger] ids@[i] < self.nodes@.len(),
        ensures
            tensors@ == parent_tensors(self.nodes@, ids@),
    {
        let mut tensors: Vec<Tensor> = Vec::with_capacity(ids.len());
        for i in 0..ids.len()
            invariant
                forall|j: int| 0 <= j < ids@.len() ==> #[trigger] ids@[j] < self.nodes@.len(),
                tensors@ == parent_tensors(self.nodes@, ids@).take(i as int),
        {
            assert(ids@[i as int] < self.nodes@.len());
            tensors.push(self.nodes[ids[i]].tensor.clone());
            assert(tensors@ =~= parent_tensors(self.nodes@, ids@).take(i + 1));
        }
        assert(tensors@ =~= parent_tensors(self.nodes@, ids@));
        tensors
    }

    /// Sends the gradient of a node to its parents.
    fn send<F: Fpu>(&mut self, id: usize, f: &F)
        requires
            old(self).wf(),
            id < old(self).nodes@.len(),
        ensures
            final(self).wf(),
            node_sent(f, old(self).nodes@, id as int, final(self).nodes@),
            same_but_grads(old(self).nodes@, final(self).nodes@),
    {
        let ghost before = self.nodes@;
        assert(node_wf(before, id as int));
        let parents: Vec<usize> = self.nodes[id].parents.clone();
        assert(parents@ =~= before[id as int].parents@);
        let operands: Vec<Tensor> = self.tensors_of(&parents);
        proof {
            assert(live::operand_shapes(operands@) =~= parent_shapes(before, parents@));
            assert forall|p: int| 0 <= p < operands@.len() implies (#[trigger] operands@[p]).wf() by {
                assert(before[id as int].parents@[p] < id);
                assert(node_wf(before, parents@[p] as int));
            }
        }
        let grads = {
            let node = &self.nodes[id];
            match (&node.tensor.grad, &node.tensor.op) {
                (Some(g), Some(op)) => op.live_gradients(g, &operands, f),
                _ => {
                    return;
                },
            }
        };
        proof {
            assert(autograd::extents_agree(grads@, parent_shapes(before, parents@)));
        }
        for n in 0..parents.len()
            invariant
                self.wf(),
                same_but_grads(before, self.nodes@),
                parents@ == before[id as int].parents@,
                id < before.len(),
                node_wf(before, id as int),
                autograd::extents_agree(grads@, parent_shapes(before, parents@)),
                forall|p: int| 0 <= p < grads@.len() && #[trigger] grads@[p] is Some ==> grads@[p]->0.wf(),
                propagated(f, before, parents@, grads@, n as int, self.nodes@),
        {
            let parent: usize = parents[n];
            let ghost mid = self.nodes@;
            proof {
                assert(before[id as int].parents@[n as int] < id);
                assert(mid[parent as int].parents == before[parent as int].parents);
            }
            match &grads[n] {
                Some(g) => {
                    self.contribute(parent, g.clone(), f);
                },
                None => {},
            }
            proof {
                assert(received(f, mid, parents@[(n + 1) - 1] as int, grads@[(n + 1) - 1], self.nodes@));
                assert forall|i: int| 0 <= i < before.len() implies #[trigger] self.nodes@[i] == (Node {
                    tensor: Tensor { grad: self.nodes@[i].tensor.grad, ..before[i].tensor },
                    parents: before[i].parents,
                }) by {
                    assert(mid[i] == (Node {
                        tensor: Tensor { grad: mid[i].tensor.grad, ..before[i].tensor },
                        parents: before[i].parents,
                    }));
                }
            }
        }
        assert(propagated(f, before, parents@, grads@, grads@.len() as int, self.nodes@));
    }

    /// Computes the gradient of the sum of a node's elements, and adds it to that of
    /// every node from which the node descends.
    pub fn backward<F: Fpu>(&mut self, root: usize, f: &F)
        requires
            old(self).wf(),
            root < old(self).nodes@.len(),
        ensures
            final(self).wf(),
            same_but_grads(old(self).nodes@, final(self).nodes@),
            exists|ones: NdArray<u32>, seeded: Seq<Node>|
                all_ones(old(self).nodes@[root as int].tensor.spec_shape(), ones) && #[trigger] contributed(
                    f,
                    old(self).nodes@,
                    root as int,
                    ones,
                    seeded,
                ) && swept(
                    f,
                    seeded,
                    visited(old(self).nodes@, root as int, Seq::empty()),
                    visited(old(self).nodes@, root as int, Seq::empty()).len() as int,
                    final(self).nodes@,
                ),
    {
        let ghost start = self.nodes@;
        let mut topo: Vec<usize> = Vec::new();
        let mut seen: Vec<bool> = vec![false; self.nodes.len()];
        self.build_topo(root, &mut topo, &mut seen);
        assert(node_wf(start, root as int));
        proof {
            law_topological_order(start, root as int);
            assert(walk_ok(start, Seq::empty(), Seq::empty())) by {
                assert(Seq::<usize>::empty().is_prefix_of(Seq::empty()));
            }
            lemma_walk(start, root as int, Seq::empty());
        }
        let shape: Vec<usize> = self.nodes[root].tensor.shape_vec();
        let ones = Arc::new(NdArray::filled(shape, fpu::ONE));
        self.contribute(root, ones.clone(), f);
        let ghost seeded = self.nodes@;
        let count: usize = topo.len();
        for n in 0..count
            invariant
                self.wf(),
                count == topo@.len(),
                forall|k: int| 0 <= k < topo@.len() ==> #[trigger] topo@[k] < start.len(),
                same_but_grads(start, seeded),
                same_but_grads(start, self.nodes@),
                swept(f, seeded, topo@, n as int, self.nodes@),
        {
            let id: usize = topo[count - 1 - n];
            let ghost mid = self.nodes@;
            self.send(id, f);
            proof {
                assert(topo@[topo@.len() - (n + 1)] == id);
                assert(node_sent(f, mid, topo@[topo@.len() - (n + 1)] as int, self.nodes@));
                assert(swept(f, seeded, topo@, n + 1, self.nodes@));
                assert forall|i: int| 0 <= i < start.len() implies #[trigger] self.nodes@[i] == (Node {
                    tensor: Tensor { grad: self.nodes@[i].tensor.grad, ..start[i].tensor },
                    parents: start[i].parents,
                }) by {
                    assert(mid[i] == (Node {
                        tensor: Tensor { grad: mid[i].tensor.grad, ..start[i].tensor },
                        parents: start[i].parents,
                    }));
                }
            }
        }
    }
}

/// Node `to` is `from` or one of those from which it descends.
pub open spec fn reaches(nodes: Seq<Node>, from: int, to: int) -> bool
    decreases from,
{
    from == to || exists|p: int|
        0 <= p < nodes[from].parents@.len() && #[trigger] nodes[from].parents@[p] < from && reaches(
            nodes,
            nodes[from].parents@[p] as int,
            to,
        )
}

/// Each node in the list stands behind its parents.
pub open spec fn parents_first(nodes: Seq<Node>, list: Seq<usize>) -> bool {
    forall|k: int, p: int|
        0 <= k < list.len() && 0 <= p < nodes[list[k] as int].parents@.len() ==> list.take(k).contains(
            #[trigger] nodes[list[k] as int].parents@[p],
        )
}

/// What holds of a walk: it extends the list, repeats nothing, keeps parents first,
/// ends with what was asked for, and adds only what that descends from.
pub open spec fn walk_ok(nodes: Seq<Node>, done: Seq<usize>, list: Seq<usize>) -> bool {
    &&& done.is_prefix_of(list)
    &&& list.no_duplicates()
    &&& parents_first(nodes, list)
    &&& forall|k: int| 0 <= k < list.len() ==> #[trigger] list[k] < nodes.len()
}

proof fn lemma_walk(nodes: Seq<Node>, id: int, done: Seq<usize>)
    requires
        nodes_wf(nodes),
        nodes.len() <= usize::MAX,
        0 <= id < nodes.len(),
        walk_ok(nodes, done, done),
    ensures
        walk_ok(nodes, done, visited(nodes, id, done)),
        visited(nodes, id, done).contains(id as usize),
        forall|k: int|
            0 <= k < visited(nodes, id, done).len() ==> done.contains(#[trigger] visited(nodes, id, done)[k]) || reaches(
                nodes,
                id,
                visited(nodes, id, done)[k] as int,
            ),
    decreases id, nodes[id].parents@.len() + 1,
{
    let list = visited(nodes, id, done);
    if !done.contains(id as usize) {
        let n = nodes[id].parents@.len() as int;
        lemma_walk_parents(nodes, id, n, done);
        let before = visited_parents(nodes, id, n, done);
        assert(list == before.push(id as usize));
        assert(!before.contains(id as usize)) by {
            if before.contains(id as usize) {
                let k = choose|k: int| 0 <= k < before.len() && before[k] == id as usize;
                assert(done.contains(before[k]) || before[k] < id);
            }
        }
        assert(list[before.len() as int] == id as usize);
        assert forall|k: int, p: int| 0 <= k < list.len() && 0 <= p < nodes[list[k] as int].parents@.len() implies list.take(
            k,
        ).contains(#[trigger] nodes[list[k] as int].parents@[p]) by {
            if k < before.len() {
                assert(list.take(k) =~= before.take(k));
                assert(before.take(k).contains(nodes[before[k] as int].parents@[p]));
            } else {
                assert(list.take(k) =~= before);
                assert(before.contains(nodes[id].parents@[p]));
            }
        }
        assert forall|k: int| 0 <= k < list.len() implies done.contains(#[trigger] list[k]) || reaches(
            nodes,
            id,
            list[k] as int,
        ) by {
            if k < before.len() {
                assert(done.contains(before[k]) || reaches(nodes, id, before[k] as int));
            }
        }
    } else {
        assert(done.is_prefix_of(done));
    }
}

proof fn lemma_walk_parents(nodes: Seq<Node>, id: int, n: int, done: Seq<usize>)
    requires
        nodes_wf(nodes),
        nodes.len() <= usize::MAX,
        0 <= id < nodes.len(),
        0 <= n <= nodes[id].parents@.len(),
        walk_ok(nodes, done, done),
    ensures
        walk_ok(nodes, done, visited_parents(nodes, id, n, done)),
        forall|p: int| 0 <= p < n ==> visited_parents(nodes, id, n, done).contains(#[trigger] nodes[id].parents@[p]),
        forall|k: int|
            0 <= k < visited_parents(nodes, id, n, done).len() ==> done.contains(
                #[trigger] visited_parents(nodes, id, n, done)[k],
            ) || (visited_parents(nodes, id, n, done)[k] < id && reaches(
                nodes,
                id,
                visited_parents(nodes, id, n, done)[k] as int,
            )),
    decreases id, n,
{
    if n > 0 {
        lemma_walk_parents(nodes, id, n - 1, done);
        let before = visited_parents(nodes, id, n - 1, done);
        assert(node_wf(nodes, id));
        let parent = nodes[id].parents@[n - 1] as int;
        assert(nodes[id].parents@[n - 1] < id);
        assert(walk_ok(nodes, before, before)) by {
            assert(before.is_prefix_of(before));
        }
        lemma_walk(nodes, parent, before);
        let list = visited_parents(nodes, id, n, done);
        assert(list == visited(nodes, parent, before));
        assert forall|p: int| 0 <= p < n implies list.contains(#[trigger] nodes[id].parents@[p]) by {
            if p < n - 1 {
                assert(before.contains(nodes[id].parents@[p]));
                let k = choose|k: int| 0 <= k < before.len() && before[k] == nodes[id].parents@[p];
                assert(list[k] == before[k]);
            }
        }
        assert(done.is_prefix_of(list)) by {
            assert(list.subrange(0, before.len() as int) =~= before);
            assert(list.subrange(0, done.len() as int) =~= done);
        }
        assert forall|k: int| 0 <= k < list.len() implies done.contains(#[trigger] list[k]) || (list[k] < id && reaches(
            nodes,
            id,
            list[k] as int,
        )) by {
            if before.contains(list[k]) {
                let j = choose|j: int| 0 <= j < before.len() && before[j] == list[k];
                assert(done.contains(before[j]) || reaches(nodes, id, before[j] as int));
            } else {
                assert(reaches(nodes, parent, list[k] as int));
                lemma_reached_is_older(nodes, parent, list[k] as int);
            }
        }
    } else {
        assert(done.is_prefix_of(done));
    }
}

/// What a node descends from has a smaller number.
proof fn lemma_reached_is_older(nodes: Seq<Node>, from: int, to: int)
    requires
        reaches(nodes, from, to),
    ensures
        to <= from,
    decreases from,
{
    if from != to {
        let p = choose|p: int|
            0 <= p < nodes[from].parents@.len() && #[trigger] nodes[from].parents@[p] < from && reaches(
                nodes,
                nodes[from].parents@[p] as int,
                to,
            );
        lemma_reached_is_older(nodes, nodes[from].parents@[p] as int, to);
    }
}

/// A list that keeps parents first and holds a node holds all that it descends from.
proof fn lemma_holds_ancestors(nodes: Seq<Node>, list: Seq<usize>, from: int, to: int)
    requires
        parents_first(nodes, list),
        0 <= from <= usize::MAX,
        list.contains(from as usize),
        reaches(nodes, from, to),
    ensures
        list.contains(to as usize),
    decreases from,
{
    if from != to {
        let p = choose|p: int|
            0 <= p < nodes[from].parents@.len() && #[trigger] nodes[from].parents@[p] < from && reaches(
                nodes,
                nodes[from].parents@[p] as int,
                to,
            );
        let k = choose|k: int| 0 <= k < list.len() && list[k] == from as usize;
        let parent = nodes[list[k] as int].parents@[p];
        assert(list.take(k).contains(parent));
        let j = choose|j: int| 0 <= j < list.take(k).len() && list.take(k)[j] == parent;
        assert(list[j] == parent);
        lemma_holds_ancestors(nodes, list, parent as int, to);
    }
}

/// The order in which a backward pass is prepared: it holds the root and the nodes
/// that the root descends from, and no others; each once; each behind its parents;
/// and the root at the end.
pub proof fn law_topological_order(nodes: Seq<Node>, root: int)
    requires
        nodes_wf(nodes),
        nodes.len() <= usize::MAX,
        0 <= root < nodes.len(),
    ensures
        visited(nodes, root, Seq::empty()).no_duplicates(),
        parents_first(nodes, visited(nodes, root, Seq::empty())),
        visited(nodes, root, Seq::empty()).last() == root,
        forall|id: int|
            0 <= id < nodes.len() ==> (#[trigger] visited(nodes, root, Seq::empty()).contains(id as usize) <==> reaches(
                nodes,
                root,
                id,
            )),
{
    let list = visited(nodes, root, Seq::empty());
    assert(walk_ok(nodes, Seq::empty(), Seq::empty())) by {
        assert(Seq::<usize>::empty().is_prefix_of(Seq::empty()));
    }
    lemma_walk(nodes, root, Seq::empty());
    assert forall|id: int| 0 <= id < nodes.len() implies (#[trigger] list.contains(id as usize) <==> reaches(
        nodes,
        root,
        id,
    )) by {
        if list.contains(id as usize) {
            let k = choose|k: int| 0 <= k < list.len() && list[k] == id as usize;
            assert(Seq::<usize>::empty().contains(list[k]) || reaches(nodes, root, list[k] as int));
        }
        if reaches(nodes, root, id) {
            lemma_holds_ancestors(nodes, list, root, id);
        }
    }
}

} // verus!
