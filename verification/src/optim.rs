use crate::array::NdArray;
use crate::autograd;
use crate::autograd::{Tensor, TensorStorage};
use crate::dims;
use crate::float_bits;
use crate::float_bits::same_value;
use crate::fpu;
use crate::fpu::Fpu;
use crate::graph;
use crate::graph::{Graph, Node};
use crate::kv_cache;
use crate::kv_cache::blank;
use crate::precision::{DType, PrecisionConfig};
use std::sync::Arc;
use vstd::prelude::*;

verus! {

/// Optimizer state is held in floating point.
#[derive(Clone, Copy, Debug, PartialEq, Eq, Structural)]
pub struct StateNotFloat {}

/// `after` is `before` with another tensor at a node.
pub open spec fn node_replaced(before: Seq<Node>, id: int, t: Tensor, after: Seq<Node>) -> bool {
    &&& after.len() == before.len()
    &&& forall|i: int| 0 <= i < before.len() && i != id ==> #[trigger] after[i] == before[i]
    &&& after[id] == (Node { tensor: t, parents: before[id].parents })
}

/// A tensor of the same extents and with the same record leaves the graph sound.
proof fn lemma_replaced_wf(before: Seq<Node>, id: int, t: Tensor, after: Seq<Node>)
    requires
        graph::nodes_wf(before),
        0 <= id < before.len(),
        node_replaced(before, id, t, after),
        t.wf(),
        t.spec_shape() == before[id].tensor.spec_shape(),
        t.op == before[id].tensor.op,
    ensures
        graph::nodes_wf(after),
{
    assert forall|i: int| 0 <= i < after.len() implies #[trigger] graph::node_wf(after, i) by {
        assert(graph::node_wf(before, i));
        assert(graph::parent_shapes(after, after[i].parents@) =~= graph::parent_shapes(before, before[i].parents@)) by {
            assert forall|p: int| 0 <= p < after[i].parents@.len() implies graph::parent_shapes(after, after[i].parents@)[p]
                == graph::parent_shapes(before, before[i].parents@)[p] by {
                assert(before[i].parents@[p] < i);
                let q = before[i].parents@[p] as int;
                if q != id {
                    assert(after[q] == before[q]);
                }
            }
        }
    }
}

/// Puts another tensor of the same extents at a node.
fn replace(g: &mut Graph, id: usize, t: Tensor)
    requires
        old(g).wf(),
        id < old(g).nodes@.len(),
        t.wf(),
        t.spec_shape() == old(g).nodes@[id as int].tensor.spec_shape(),
        t.op == old(g).nodes@[id as int].tensor.op,
    ensures
        final(g).wf(),
        node_replaced(old(g).nodes@, id as int, t, final(g).nodes@),
{
    let ghost before = g.nodes@;
    let node = &mut g.nodes[id];
    node.tensor = t;
    proof {
        lemma_replaced_wf(before, id as int, t, g.nodes@);
    }
}

/// Changes parameters, which are nodes of a graph, by their gradients.
pub trait Optimizer<F: Fpu> {
    /// The numbers of the parameters.
    spec fn ids(&self) -> Seq<usize>;

    /// The parameters are in the graph, and the state fits them.
    spec fn serves(&self, g: &Graph) -> bool;

    /// `after` and `g1` are what a step makes of `before` and `g0`.
    spec fn steps(f: &F, before: &Self, g0: Seq<Node>, after: &Self, g1: Seq<Node>) -> bool;

    fn params(&self) -> (p: &Vec<usize>)
        ensures
            p@ == self.ids(),
    ;

    /// Changes each parameter that has a gradient.
    fn step(&mut self, g: &mut Graph, f: &F)
        requires
            old(self).serves(old(g)),
            old(g).wf(),
        ensures
            final(g).wf(),
            final(self).serves(final(g)),
            final(self).ids() == old(self).ids(),
            Self::steps(f, old(self), old(g).nodes@, final(self), final(g).nodes@),
    ;

    /// Forgets the gradients of the parameters.
    fn zero_grad(&self, g: &mut Graph)
        requires
            old(g).wf(),
            forall|k: int| 0 <= k < self.ids().len() ==> #[trigger] self.ids()[k] < old(g).nodes@.len(),
        ensures
            final(g).wf(),
            cleared(self.ids(), self.ids().len() as int, old(g).nodes@, final(g).nodes@),
    {
        let ghost before = g.nodes@;
        let ids: &Vec<usize> = self.params();
        let total: usize = g.nodes.len();
        for k in 0..ids.len()
            invariant
                g.wf(),
                total == before.len(),
                ids@ == self.ids(),
                forall|j: int| 0 <= j < ids@.len() ==> #[trigger] ids@[j] < before.len(),
                cleared(ids@, k as int, before, g.nodes@),
        {
            let id: usize = ids[k];
            assert(ids@[k as int] < before.len());
            let mut t = g.nodes[id].tensor.clone();
            let ghost now = g.nodes@;
            assert(graph::node_wf(now, id as int));
            t.zero_grad();
            replace(g, id, t);
            proof {
                assert forall|i: int| 0 <= i < before.len() implies #[trigger] g.nodes@[i] == clear_at(
                    ids@,
                    k + 1,
                    before,
                    i,
                ) by {
                    assert(now[i] == clear_at(ids@, k as int, before, i));
                    if i == id {
                        assert(ids@.take(k + 1)[k as int] == id);
                    } else {
                        assert(ids@.take(k + 1).contains(i as usize) ==> ids@.take(k as int).contains(i as usize)) by {
                            if ids@.take(k + 1).contains(i as usize) {
                                let more = ids@.take(k + 1);
                                let j = choose|j: int| 0 <= j < more.len() && more[j] == i as usize;
                                assert(ids@.take(k as int)[j] == i as usize);
                            }
                        }
                        assert(ids@.take(k as int).contains(i as usize) ==> ids@.take(k + 1).contains(i as usize)) by {
                            if ids@.take(k as int).contains(i as usize) {
                                let less = ids@.take(k as int);
                                let j = choose|j: int| 0 <= j < less.len() && less[j] == i as usize;
                                assert(ids@.take(k + 1)[j] == i as usize);
                            }
                        }
                    }
                }
            }
        }
    }
}

/// A node, without its gradient if it is among the first `n` parameters.
pub open spec fn clear_at(ids: Seq<usize>, n: int, before: Seq<Node>, i: int) -> Node {
    if ids.take(n).contains(i as usize) {
        Node { tensor: Tensor { grad: None, ..before[i].tensor }, parents: before[i].parents }
    } else {
        before[i]
    }
}

/// The first `n` parameters have no gradient; everything else is as before.
pub open spec fn cleared(ids: Seq<usize>, n: int, before: Seq<Node>, after: Seq<Node>) -> bool {
    &&& after.len() == before.len()
    &&& forall|i: int| 0 <= i < before.len() ==> #[trigger] after[i] == clear_at(ids, n, before, i)
}

/// `w - lr * d` for each element.
pub open spec fn descended<F: Fpu>(f: &F, w: Seq<u32>, d: Seq<u32>, lr: u32, r: Seq<u32>) -> bool {
    &&& r.len() == w.len()
    &&& forall|i: int| 0 <= i < w.len() ==> descends(f, w[i], d[i], lr, #[trigger] r[i])
}

pub open spec fn descends<F: Fpu>(f: &F, w: u32, d: u32, lr: u32, r: u32) -> bool {
    exists|p: u32| fpu::muls(f, lr, d, p) && #[trigger] fpu::subs(f, w, p, r)
}

/// `m * v + g` for each element.
pub open spec fn accelerated<F: Fpu>(f: &F, v: Seq<u32>, g: Seq<u32>, m: u32, r: Seq<u32>) -> bool {
    &&& r.len() == v.len()
    &&& forall|i: int| 0 <= i < v.len() ==> accelerates(f, v[i], g[i], m, #[trigger] r[i])
}

pub open spec fn accelerates<F: Fpu>(f: &F, v: u32, g: u32, m: u32, r: u32) -> bool {
    exists|p: u32| fpu::muls(f, m, v, p) && #[trigger] fpu::adds(f, p, g, r)
}

fn descend<F: Fpu>(w: &Vec<u32>, d: &Vec<u32>, lr: u32, f: &F) -> (r: Vec<u32>)
    requires
        w@.len() == d@.len(),
    ensures
        descended(f, w@, d@, lr, r@),
{
    let mut r: Vec<u32> = Vec::with_capacity(w.len());
    for i in 0..w.len()
        invariant
            w@.len() == d@.len(),
            r@.len() == i,
            forall|j: int| 0 <= j < i ==> descends(f, w@[j], d@[j], lr, #[trigger] r@[j]),
    {
        let p: u32 = f.mul(lr, d[i]);
        let v: u32 = f.sub(w[i], p);
        assert(descends(f, w@[i as int], d@[i as int], lr, v)) by {
            assert(fpu::muls(f, lr, d@[i as int], p) && fpu::subs(f, w@[i as int], p, v));
        }
        r.push(v);
    }
    r
}

fn accelerate<F: Fpu>(v: &Vec<u32>, g: &Vec<u32>, m: u32, f: &F) -> (r: Vec<u32>)
    requires
        v@.len() == g@.len(),
    ensures
        accelerated(f, v@, g@, m, r@),
{
    let mut r: Vec<u32> = Vec::with_capacity(v.len());
    for i in 0..v.len()
        invariant
            v@.len() == g@.len(),
            r@.len() == i,
            forall|j: int| 0 <= j < i ==> accelerates(f, v@[j], g@[j], m, #[trigger] r@[j]),
    {
        let p: u32 = f.mul(m, v[i]);
        let s: u32 = f.add(p, g[i]);
        assert(accelerates(f, v@[i as int], g@[i as int], m, s)) by {
            assert(fpu::muls(f, m, v@[i as int], p) && fpu::adds(f, p, g@[i as int], s));
        }
        r.push(s);
    }
    r
}

/// State for a parameter: what is held already, or zeros.
pub open spec fn state_from<F: Fpu>(f: &F, held: Option<Tensor>, shape: Seq<usize>, dtype: DType, s: Tensor) -> bool {
    match held {
        Some(t) => s == t,
        None => s.wf() && s.is_leaf(s.storage, false) && kv_cache::is_blank(f, shape, dtype, s.storage),
    }
}

/// State that is held has the extents of the parameter, and the precision of states.
pub open spec fn state_fits(held: Option<Tensor>, shape: Seq<usize>, dtype: DType) -> bool {
    held matches Some(t) ==> t.wf() && t.spec_shape() == shape && t.spec_dtype() == dtype
}

fn state_of<F: Fpu>(held: &Option<Tensor>, shape: Vec<usize>, dtype: DType, f: &F) -> (s: Tensor)
    requires
        dims::fits(shape@),
        state_fits(*held, shape@, dtype),
    ensures
        state_from(f, *held, shape@, dtype, s),
        s.wf(),
        s.spec_shape() == shape@,
        s.spec_dtype() == dtype,
{
    match held {
        Some(t) => t.clone(),
        None => blank(shape, dtype, f),
    }
}

/// `after` holds new elements in the precision of `before`, and is the same otherwise.
pub open spec fn rewritten<F: Fpu>(f: &F, before: Tensor, data: Seq<u32>, after: Tensor) -> bool {
    &&& after == (Tensor { storage: after.storage, ..before })
    &&& exists|a: NdArray<u32>|
        a.shape@ == before.spec_shape() && a.data@ == data && #[trigger] autograd::stored_as(
            f,
            a,
            before.spec_dtype(),
            after.storage,
        )
}

fn rewrite<F: Fpu>(t: &Tensor, data: Vec<u32>, f: &F) -> (r: Tensor)
    requires
        t.wf(),
        data@.len() == dims::product(t.spec_shape()),
    ensures
        rewritten(f, *t, data@, r),
        r.wf(),
        r.spec_shape() == t.spec_shape(),
        r.spec_dtype() == t.spec_dtype(),
{
    let a = Arc::new(NdArray { shape: t.shape_vec(), data });
    let storage = TensorStorage::from_single(f, a.clone(), t.dtype());
    assert(autograd::stored_as(f, *a, t.spec_dtype(), storage));
    let grad = t.grad_arc();
    let op = match &t.op {
        Some(op) => Some(op.clone()),
        None => None,
    };
    Tensor { storage, grad, op, requires_grad: t.requires_grad }
}

/// Descent along the gradient, with momentum if there is any.
pub struct SGD {
    pub params: Vec<usize>,
    pub lr: u32,
    pub momentum: u32,
    pub state_dtype: DType,
    pub velocities: Vec<Option<Tensor>>,
}

/// A parameter without a gradient stays. Without momentum it moves against its gradient;
/// with momentum, against its velocity, which takes up the gradient.
pub open spec fn sgd_moves<F: Fpu>(
    f: &F,
    lr: u32,
    momentum: u32,
    dtype: DType,
    p: Tensor,
    held: Option<Tensor>,
    p2: Tensor,
    held2: Option<Tensor>,
) -> bool {
    match p.grad {
        None => p2 == p && held2 == held,
        Some(g) => if float_bits::equal_values(momentum, fpu::ZERO) {
            held2 == held && sgd_plain(f, lr, p, *g, p2)
        } else {
            held2 matches Some(v2) && sgd_with_momentum(f, lr, momentum, dtype, p, *g, held, p2, v2)
        },
    }
}

pub open spec fn sgd_plain<F: Fpu>(f: &F, lr: u32, p: Tensor, g: NdArray<u32>, p2: Tensor) -> bool {
    exists|a: NdArray<u32>, w: Seq<u32>|
        autograd::reads_as(f, p.storage, a) && #[trigger] descended(f, a.data@, g.data@, lr, w) && rewritten(f, p, w, p2)
}

pub open spec fn sgd_with_momentum<F: Fpu>(
    f: &F,
    lr: u32,
    momentum: u32,
    dtype: DType,
    p: Tensor,
    g: NdArray<u32>,
    held: Option<Tensor>,
    p2: Tensor,
    v2: Tensor,
) -> bool {
    exists|state: Tensor, b: NdArray<u32>, v: Seq<u32>, a: NdArray<u32>, w: Seq<u32>|
        state_from(f, held, p.spec_shape(), dtype, state) && autograd::reads_as(f, state.storage, b) && #[trigger] accelerated(
            f,
            b.data@,
            g.data@,
            momentum,
            v,
        ) && autograd::reads_as(f, p.storage, a) && #[trigger] descended(f, a.data@, v, lr, w) && rewritten(f, p, w, p2)
            && #[trigger] rewritten(f, state, v, v2)
}

/// The first `n` parameters have been moved, in turn.
pub open spec fn sgd_swept<F: Fpu>(
    f: &F,
    opt: SGD,
    g0: Seq<Node>,
    n: int,
    held: Seq<Option<Tensor>>,
    g1: Seq<Node>,
) -> bool
    decreases n,
{
    if n <= 0 {
        held == opt.velocities@ && g1 == g0
    } else {
        exists|h: Seq<Option<Tensor>>, g: Seq<Node>|
            sgd_swept(f, opt, g0, n - 1, h, g) && #[trigger] sgd_turn(f, opt, n - 1, h, g, held, g1)
    }
}

/// Parameter `k` has been moved.
pub open spec fn sgd_turn<F: Fpu>(
    f: &F,
    opt: SGD,
    k: int,
    h: Seq<Option<Tensor>>,
    g: Seq<Node>,
    h2: Seq<Option<Tensor>>,
    g2: Seq<Node>,
) -> bool {
    let id = opt.params@[k] as int;
    &&& sgd_moves(f, opt.lr, opt.momentum, opt.state_dtype, g[id].tensor, h[k], g2[id].tensor, h2[k])
    &&& node_replaced(g, id, g2[id].tensor, g2)
    &&& h2 == h.update(k, h2[k])
}

/// Each state that is held fits its parameter.
pub open spec fn states_fit(held: Seq<Option<Tensor>>, ids: Seq<usize>, dtype: DType, nodes: Seq<Node>) -> bool {
    forall|k: int|
        0 <= k < ids.len() ==> state_fits(#[trigger] held[k], nodes[ids[k] as int].tensor.spec_shape(), dtype)
}

/// The parameters are in the graph.
pub open spec fn ids_in(ids: Seq<usize>, nodes: Seq<Node>) -> bool {
    forall|k: int| 0 <= k < ids.len() ==> #[trigger] ids[k] < nodes.len()
}

/// Gradients and extents stay as they are.
pub open spec fn same_extents_at(a: Seq<Node>, b: Seq<Node>) -> bool {
    &&& a.len() == b.len()
    &&& forall|i: int| 0 <= i < a.len() ==> (#[trigger] b[i]).tensor.spec_shape() == a[i].tensor.spec_shape()
}

impl SGD {
    /// A new optimizer without momentum, whose state has the precision of runtime
    /// buffers.
    pub fn new(params: Vec<usize>, lr: u32, precision: &PrecisionConfig) -> (r: Result<SGD, StateNotFloat>)
        ensures
            r is Ok <==> precision.runtime_dtype.float(),
            r matches Ok(o) ==> o.is_new(params@, lr, precision.runtime_dtype),
    {
        SGD::new_with_dtype(params, lr, precision.runtime_dtype)
    }

    pub open spec fn is_new(&self, params: Seq<usize>, lr: u32, dtype: DType) -> bool {
        &&& self.params@ == params
        &&& self.lr == lr
        &&& self.momentum == fpu::ZERO
        &&& self.state_dtype == dtype
        &&& self.velocities@.len() == params.len()
        &&& forall|k: int| 0 <= k < params.len() ==> #[trigger] self.velocities@[k] is None
    }

    /// A new optimizer without momentum, whose state has the given precision.
    pub fn new_with_dtype(params: Vec<usize>, lr: u32, state_dtype: DType) -> (r: Result<SGD, StateNotFloat>)
        ensures
            r is Ok <==> state_dtype.float(),
            r matches Ok(o) ==> o.is_new(params@, lr, state_dtype),
    {
        if !state_dtype.is_float() {
            return Err(StateNotFloat {  });
        }
        let velocities = no_states(params.len());
        Ok(SGD { params, lr, momentum: fpu::ZERO, state_dtype, velocities })
    }

    pub fn state_dtype(&self) -> (d: DType)
        ensures
            d == self.state_dtype,
    {
        self.state_dtype
    }

    /// The same optimizer with a momentum.
    pub fn with_momentum(self, momentum: u32) -> (o: SGD)
        ensures
            o == (SGD { momentum, ..self }),
    {
        SGD { momentum, ..self }
    }

    /// The parameter at a node moves.
    fn move_one<F: Fpu>(&self, p: &Tensor, held: &Option<Tensor>, f: &F) -> (r: (Tensor, Option<Tensor>))
        requires
            p.wf(),
            state_fits(*held, p.spec_shape(), self.state_dtype),
        ensures
            sgd_moves(f, self.lr, self.momentum, self.state_dtype, *p, *held, r.0, r.1),
            r.0.wf(),
            r.0.spec_shape() == p.spec_shape(),
            r.0.op == p.op,
            state_fits(r.1, p.spec_shape(), self.state_dtype),
    {
        let g = match p.grad_arc() {
            Some(g) => g,
            None => {
                let kept = match held {
                    Some(t) => Some(t.clone()),
                    None => None,
                };
                return (p.clone(), kept);
            },
        };
        let a = p.data_arc(f);
        if same_value(self.momentum, fpu::ZERO) {
            let w: Vec<u32> = descend(&a.data, &g.data, self.lr, f);
            let ghost ws = w@;
            let p2 = rewrite(p, w, f);
            let kept = match held {
                Some(t) => Some(t.clone()),
                None => None,
            };
            assert(descended(f, a.data@, g.data@, self.lr, ws));
            assert(sgd_plain(f, self.lr, *p, *g, p2));
            return (p2, kept);
        }
        let state = state_of(held, p.shape_vec(), self.state_dtype, f);
        let b = state.data_arc(f);
        let v: Vec<u32> = accelerate(&b.data, &g.data, self.momentum, f);
        let w: Vec<u32> = descend(&a.data, &v, self.lr, f);
        let ghost vs = v@;
        let ghost ws = w@;
        let p2 = rewrite(p, w, f);
        let v2 = rewrite(&state, v, f);
        proof {
            assert(accelerated(f, b.data@, g.data@, self.momentum, vs));
            assert(descended(f, a.data@, vs, self.lr, ws));
            assert(rewritten(f, state, vs, v2));
            assert(sgd_with_momentum(f, self.lr, self.momentum, self.state_dtype, *p, *g, *held, p2, v2));
        }
        (p2, Some(v2))
    }
}

fn no_states(n: usize) -> (v: Vec<Option<Tensor>>)
    ensures
        v@.len() == n,
        forall|k: int| 0 <= k < n ==> #[trigger] v@[k] is None,
{
    let mut v: Vec<Option<Tensor>> = Vec::with_capacity(n);
    for i in 0..n
        invariant
            v@.len() == i,
            forall|k: int| 0 <= k < i ==> #[trigger] v@[k] is None,
    {
        v.push(None);
    }
    v
}

fn copy_state(held: &Option<Tensor>) -> (r: Option<Tensor>)
    ensures
        r == *held,
{
    match held {
        Some(t) => Some(t.clone()),
        None => None,
    }
}

/// A replaced tensor of the same extents keeps all states fitting.
proof fn lemma_states_fit(
    held: Seq<Option<Tensor>>,
    held2: Seq<Option<Tensor>>,
    ids: Seq<usize>,
    dtype: DType,
    before: Seq<Node>,
    after: Seq<Node>,
    k: int,
)
    requires
        0 <= k < ids.len(),
        held.len() == ids.len(),
        ids_in(ids, before),
        states_fit(held, ids, dtype, before),
        same_extents_at(before, after),
        held2 == held.update(k, held2[k]),
        state_fits(held2[k], before[ids[k] as int].tensor.spec_shape(), dtype),
    ensures
        states_fit(held2, ids, dtype, after),
{
    assert forall|j: int| 0 <= j < ids.len() implies state_fits(
        #[trigger] held2[j],
        after[ids[j] as int].tensor.spec_shape(),
        dtype,
    ) by {
        assert(ids[j] < before.len());
        assert(after[ids[j] as int].tensor.spec_shape() == before[ids[j] as int].tensor.spec_shape());
        if j != k {
            assert(held2[j] == held[j]);
        }
    }
}

impl<F: Fpu> Optimizer<F> for SGD {
    open spec fn ids(&self) -> Seq<usize> {
        self.params@
    }

    open spec fn serves(&self, g: &Graph) -> bool {
        &&& ids_in(self.params@, g.nodes@)
        &&& self.velocities@.len() == self.params@.len()
        &&& states_fit(self.velocities@, self.params@, self.state_dtype, g.nodes@)
    }

    /// All parameters are moved, in turn; nothing but the velocities changes in the
    /// optimizer.
    open spec fn steps(f: &F, before: &SGD, g0: Seq<Node>, after: &SGD, g1: Seq<Node>) -> bool {
        &&& after.params == before.params
        &&& after.lr == before.lr
        &&& after.momentum == before.momentum
        &&& after.state_dtype == before.state_dtype
        &&& sgd_swept(f, *before, g0, before.params@.len() as int, after.velocities@, g1)
    }

    fn params(&self) -> (p: &Vec<usize>) {
        &self.params
    }

    fn step(&mut self, g: &mut Graph, f: &F) {
        let ghost first = *self;
        let ghost g0 = g.nodes@;
        let n: usize = self.params.len();
        for k in 0..n
            invariant
                n == self.params@.len(),
                g.wf(),
                ids_in(self.params@, g.nodes@),
                self.velocities@.len() == self.params@.len(),
                states_fit(self.velocities@, self.params@, self.state_dtype, g.nodes@),
                self.params == first.params,
                self.lr == first.lr,
                self.momentum == first.momentum,
                self.state_dtype == first.state_dtype,
                sgd_swept(f, first, g0, k as int, self.velocities@, g.nodes@),
        {
            let id: usize = self.params[k];
            let ghost now = g.nodes@;
            let ghost held = self.velocities@;
            assert(self.params@[k as int] < now.len());
            assert(graph::node_wf(now, id as int));
            assert(state_fits(held[k as int], now[id as int].tensor.spec_shape(), self.state_dtype));
            let p = g.nodes[id].tensor.clone();
            let state = copy_state(&self.velocities[k]);
            let (p2, state2) = self.move_one(&p, &state, f);
            replace(g, id, p2);
            self.velocities.set(k, state2);
            proof {
                let after = g.nodes@;
                assert(same_extents_at(now, after)) by {
                    assert forall|i: int| 0 <= i < now.len() implies (#[trigger] after[i]).tensor.spec_shape()
                        == now[i].tensor.spec_shape() by {}
                }
                assert(self.velocities@ =~= held.update(k as int, self.velocities@[k as int]));
                lemma_states_fit(held, self.velocities@, self.params@, self.state_dtype, now, after, k as int);
                assert(ids_in(self.params@, after)) by {
                    assert forall|j: int| 0 <= j < self.params@.len() implies #[trigger] self.params@[j] < after.len() by {}
                }
                assert(sgd_turn(f, first, (k + 1) - 1, held, now, self.velocities@, after));
            }
        }
    }
}

/// The default decay of the first moment: `0.9`.
pub const BETA1: u32 = 0x3f66_6666;

/// The default decay of the second moment: `0.999`.
pub const BETA2: u32 = 0x3f7f_be77;

/// What keeps a quotient finite: `1e-8`.
pub const ADAM_EPS: u32 = 0x322b_cc77;

/// Descent by the first two moments of the gradient.
pub struct Adam {
    pub params: Vec<usize>,
    pub lr: u32,
    pub betas: (u32, u32),
    pub eps: u32,
    pub step_count: usize,
    pub state_dtype: DType,
    pub exp_avg: Vec<Option<Tensor>>,
    pub exp_avg_sq: Vec<Option<Tensor>>,
}

/// `1 - beta^n`.
pub open spec fn bias_correction<F: Fpu>(f: &F, beta: u32, n: i32, r: u32) -> bool {
    exists|p: u32| fpu::powis(f, beta, n, p) && #[trigger] fpu::subs(f, fpu::ONE, p, r)
}

/// `beta * m + (1 - beta) * g`.
pub open spec fn first_moment<F: Fpu>(f: &F, beta: u32, m: u32, g: u32, r: u32) -> bool {
    exists|a: u32, c: u32, b: u32|
        #[trigger] fpu::muls(f, beta, m, a) && #[trigger] fpu::subs(f, fpu::ONE, beta, c) && fpu::muls(f, c, g, b)
            && #[trigger] fpu::adds(f, a, b, r)
}

/// `beta * v + (1 - beta) * g * g`.
pub open spec fn second_moment<F: Fpu>(f: &F, beta: u32, v: u32, g: u32, r: u32) -> bool {
    exists|a: u32, c: u32, b: u32, d: u32|
        #[trigger] fpu::muls(f, beta, v, a) && #[trigger] fpu::subs(f, fpu::ONE, beta, c) && #[trigger] fpu::muls(f, c, g, b)
            && fpu::muls(f, b, g, d) && #[trigger] fpu::adds(f, a, d, r)
}

/// `(m / c1) / (sqrt(v / c2) + eps)`.
pub open spec fn adam_direction<F: Fpu>(f: &F, m: u32, v: u32, c1: u32, c2: u32, eps: u32, r: u32) -> bool {
    exists|mh: u32, vh: u32, s: u32, e: u32|
        #[trigger] fpu::divs(f, m, c1, mh) && #[trigger] fpu::divs(f, v, c2, vh) && fpu::sqrts(f, vh, s) && #[trigger] fpu::adds(
            f,
            s,
            eps,
            e,
        ) && fpu::divs(f, mh, e, r)
}

/// `w - lr * direction`.
pub open spec fn adam_moves<F: Fpu>(f: &F, w: u32, m: u32, v: u32, c1: u32, c2: u32, eps: u32, lr: u32, r: u32) -> bool {
    exists|d: u32| adam_direction(f, m, v, c1, c2, eps, d) && #[trigger] descends(f, w, d, lr, r)
}

/// The new elements, first moments and second moments of a parameter.
pub open spec fn adam_elements<F: Fpu>(
    f: &F,
    opt: Adam,
    c1: u32,
    c2: u32,
    w: Seq<u32>,
    m: Seq<u32>,
    v: Seq<u32>,
    g: Seq<u32>,
    w2: Seq<u32>,
    m2: Seq<u32>,
    v2: Seq<u32>,
) -> bool {
    &&& w2.len() == w.len()
    &&& m2.len() == w.len()
    &&& v2.len() == w.len()
    &&& forall|i: int| 0 <= i < w.len() ==> first_moment(f, opt.betas.0, m[i], g[i], #[trigger] m2[i])
    &&& forall|i: int| 0 <= i < w.len() ==> second_moment(f, opt.betas.1, v[i], g[i], #[trigger] v2[i])
    &&& forall|i: int| 0 <= i < w.len() ==> adam_moves(f, w[i], m2[i], v2[i], c1, c2, opt.eps, opt.lr, #[trigger] w2[i])
}

/// What a step computes for a parameter on its way.
pub struct AdamTurn {
    pub m_state: Tensor,
    pub v_state: Tensor,
    pub w: NdArray<u32>,
    pub m: NdArray<u32>,
    pub v: NdArray<u32>,
    pub w2: Seq<u32>,
    pub m2: Seq<u32>,
    pub v2: Seq<u32>,
}

spec fn adam_turn_of(
    m_state: Tensor,
    v_state: Tensor,
    w: Arc<NdArray<u32>>,
    m: Arc<NdArray<u32>>,
    v: Arc<NdArray<u32>>,
    w2: Seq<u32>,
    m2: Seq<u32>,
    v2: Seq<u32>,
) -> AdamTurn {
    AdamTurn { m_state, v_state, w: *w, m: *m, v: *v, w2, m2, v2 }
}

/// A parameter with a gradient moves, and its moments take up the gradient.
pub open spec fn adam_updates<F: Fpu>(
    f: &F,
    opt: Adam,
    c1: u32,
    c2: u32,
    p: Tensor,
    g: NdArray<u32>,
    held_m: Option<Tensor>,
    held_v: Option<Tensor>,
    t: AdamTurn,
    p2: Tensor,
    m2: Tensor,
    v2: Tensor,
) -> bool {
    &&& state_from(f, held_m, p.spec_shape(), opt.state_dtype, t.m_state)
    &&& state_from(f, held_v, p.spec_shape(), opt.state_dtype, t.v_state)
    &&& autograd::reads_as(f, p.storage, t.w)
    &&& autograd::reads_as(f, t.m_state.storage, t.m)
    &&& autograd::reads_as(f, t.v_state.storage, t.v)
    &&& adam_elements(f, opt, c1, c2, t.w.data@, t.m.data@, t.v.data@, g.data@, t.w2, t.m2, t.v2)
    &&& rewritten(f, p, t.w2, p2)
    &&& rewritten(f, t.m_state, t.m2, m2)
    &&& rewritten(f, t.v_state, t.v2, v2)
}

pub open spec fn adam_updated<F: Fpu>(
    f: &F,
    opt: Adam,
    c1: u32,
    c2: u32,
    p: Tensor,
    g: NdArray<u32>,
    held_m: Option<Tensor>,
    held_v: Option<Tensor>,
    p2: Tensor,
    m2: Tensor,
    v2: Tensor,
) -> bool {
    exists|t: AdamTurn| adam_updates(f, opt, c1, c2, p, g, held_m, held_v, t, p2, m2, v2)
}

/// A parameter without a gradient stays.
pub open spec fn adam_moved<F: Fpu>(
    f: &F,
    opt: Adam,
    c1: u32,
    c2: u32,
    p: Tensor,
    held_m: Option<Tensor>,
    held_v: Option<Tensor>,
    p2: Tensor,
    held_m2: Option<Tensor>,
    held_v2: Option<Tensor>,
) -> bool {
    match p.grad {
        None => p2 == p && held_m2 == held_m && held_v2 == held_v,
        Some(g) => {
            &&& held_m2 is Some
            &&& held_v2 is Some
            &&& adam_updated(f, opt, c1, c2, p, *g, held_m, held_v, p2, held_m2->0, held_v2->0)
        },
    }
}

/// Parameter `k` has been moved.
pub open spec fn adam_turn<F: Fpu>(
    f: &F,
    opt: Adam,
    c1: u32,
    c2: u32,
    k: int,
    ms: Seq<Option<Tensor>>,
    vs: Seq<Option<Tensor>>,
    g: Seq<Node>,
    ms2: Seq<Option<Tensor>>,
    vs2: Seq<Option<Tensor>>,
    g2: Seq<Node>,
) -> bool {
    let id = opt.params@[k] as int;
    &&& adam_moved(f, opt, c1, c2, g[id].tensor, ms[k], vs[k], g2[id].tensor, ms2[k], vs2[k])
    &&& node_replaced(g, id, g2[id].tensor, g2)
    &&& ms2 == ms.update(k, ms2[k])
    &&& vs2 == vs.update(k, vs2[k])
}

/// The first `n` parameters have been moved, in turn.
pub open spec fn adam_swept<F: Fpu>(
    f: &F,
    opt: Adam,
    c1: u32,
    c2: u32,
    g0: Seq<Node>,
    n: int,
    ms: Seq<Option<Tensor>>,
    vs: Seq<Option<Tensor>>,
    g1: Seq<Node>,
) -> bool
    decreases n,
{
    if n <= 0 {
        ms == opt.exp_avg@ && vs == opt.exp_avg_sq@ && g1 == g0
    } else {
        exists|m: Seq<Option<Tensor>>, v: Seq<Option<Tensor>>, g: Seq<Node>|
            adam_swept(f, opt, c1, c2, g0, n - 1, m, v, g) && #[trigger] adam_turn(f, opt, c1, c2, n - 1, m, v, g, ms, vs, g1)
    }
}

impl Adam {
    pub open spec fn is_new(&self, params: Seq<usize>, lr: u32, dtype: DType) -> bool {
        &&& self.params@ == params
        &&& self.lr == lr
        &&& self.betas == (BETA1, BETA2)
        &&& self.eps == ADAM_EPS
        &&& self.step_count == 0
        &&& self.state_dtype == dtype
        &&& self.exp_avg@.len() == params.len()
        &&& self.exp_avg_sq@.len() == params.len()
        &&& forall|k: int| 0 <= k < params.len() ==> #[trigger] self.exp_avg@[k] is None
        &&& forall|k: int| 0 <= k < params.len() ==> #[trigger] self.exp_avg_sq@[k] is None
    }

    /// A new optimizer, whose state has the precision of runtime buffers.
    pub fn new(params: Vec<usize>, lr: u32, precision: &PrecisionConfig) -> (r: Result<Adam, StateNotFloat>)
        ensures
            r is Ok <==> precision.runtime_dtype.float(),
            r matches Ok(o) ==> o.is_new(params@, lr, precision.runtime_dtype),
    {
        Adam::new_with_dtype(params, lr, precision.runtime_dtype)
    }

    /// A new optimizer, whose state has the given precision.
    pub fn new_with_dtype(params: Vec<usize>, lr: u32, state_dtype: DType) -> (r: Result<Adam, StateNotFloat>)
        ensures
            r is Ok <==> state_dtype.float(),
            r matches Ok(o) ==> o.is_new(params@, lr, state_dtype),
    {
        if !state_dtype.is_float() {
            return Err(StateNotFloat {  });
        }
        let exp_avg = no_states(params.len());
        let exp_avg_sq = no_states(params.len());
        Ok(
            Adam {
                params,
                lr,
                betas: (BETA1, BETA2),
                eps: ADAM_EPS,
                step_count: 0,
                state_dtype,
                exp_avg,
                exp_avg_sq,
            },
        )
    }

    pub fn state_dtype(&self) -> (d: DType)
        ensures
            d == self.state_dtype,
    {
        self.state_dtype
    }

    fn correction<F: Fpu>(beta: u32, n: i32, f: &F) -> (r: u32)
        ensures
            bias_correction(f, beta, n, r),
    {
        let p: u32 = f.powi(beta, n);
        let r: u32 = f.sub(fpu::ONE, p);
        assert(fpu::powis(f, beta, n, p) && fpu::subs(f, fpu::ONE, p, r));
        r
    }

    fn move_element<F: Fpu>(&self, c1: u32, c2: u32, w: u32, m: u32, v: u32, g: u32, f: &F) -> (r: (u32, u32, u32))
        ensures
            first_moment(f, self.betas.0, m, g, r.1),
            second_moment(f, self.betas.1, v, g, r.2),
            adam_moves(f, w, r.1, r.2, c1, c2, self.eps, self.lr, r.0),
    {
        let (b1, b2) = self.betas;
        let a: u32 = f.mul(b1, m);
        let c: u32 = f.sub(fpu::ONE, b1);
        let b: u32 = f.mul(c, g);
        let m2: u32 = f.add(a, b);
        assert(first_moment(f, b1, m, g, m2)) by {
            assert(fpu::muls(f, b1, m, a) && fpu::subs(f, fpu::ONE, b1, c) && fpu::muls(f, c, g, b) && fpu::adds(f, a, b, m2));
        }
        let a: u32 = f.mul(b2, v);
        let c: u32 = f.sub(fpu::ONE, b2);
        let b: u32 = f.mul(c, g);
        let d: u32 = f.mul(b, g);
        let v2: u32 = f.add(a, d);
        assert(second_moment(f, b2, v, g, v2)) by {
            assert(fpu::muls(f, b2, v, a) && fpu::subs(f, fpu::ONE, b2, c) && fpu::muls(f, c, g, b) && fpu::muls(f, b, g, d)
                && fpu::adds(f, a, d, v2));
        }
        let mh: u32 = f.div(m2, c1);
        let vh: u32 = f.div(v2, c2);
        let s: u32 = f.sqrt(vh);
        let e: u32 = f.add(s, self.eps);
        let dir: u32 = f.div(mh, e);
        assert(adam_direction(f, m2, v2, c1, c2, self.eps, dir)) by {
            assert(fpu::divs(f, m2, c1, mh) && fpu::divs(f, v2, c2, vh) && fpu::sqrts(f, vh, s) && fpu::adds(
                f,
                s,
                self.eps,
                e,
            ) && fpu::divs(f, mh, e, dir));
        }
        let p: u32 = f.mul(self.lr, dir);
        let w2: u32 = f.sub(w, p);
        assert(descends(f, w, dir, self.lr, w2)) by {
            assert(fpu::muls(f, self.lr, dir, p) && fpu::subs(f, w, p, w2));
        }
        assert(adam_moves(f, w, m2, v2, c1, c2, self.eps, self.lr, w2));
        (w2, m2, v2)
    }

    /// The parameter at a node moves.
    fn move_one<F: Fpu>(&self, c1: u32, c2: u32, p: &Tensor, held_m: &Option<Tensor>, held_v: &Option<Tensor>, f: &F) -> (r: (
        Tensor,
        Option<Tensor>,
        Option<Tensor>,
    ))
        requires
            p.wf(),
            state_fits(*held_m, p.spec_shape(), self.state_dtype),
            state_fits(*held_v, p.spec_shape(), self.state_dtype),
        ensures
            adam_moved(f, *self, c1, c2, *p, *held_m, *held_v, r.0, r.1, r.2),
            r.0.wf(),
            r.0.spec_shape() == p.spec_shape(),
            r.0.op == p.op,
            state_fits(r.1, p.spec_shape(), self.state_dtype),
            state_fits(r.2, p.spec_shape(), self.state_dtype),
    {
        let g = match p.grad_arc() {
            Some(g) => g,
            None => {
                return (p.clone(), copy_state(held_m), copy_state(held_v));
            },
        };
        let m_state = state_of(held_m, p.shape_vec(), self.state_dtype, f);
        let v_state = state_of(held_v, p.shape_vec(), self.state_dtype, f);
        let w = p.data_arc(f);
        let m = m_state.data_arc(f);
        let v = v_state.data_arc(f);
        let len: usize = w.data.len();
        let mut w2: Vec<u32> = Vec::with_capacity(len);
        let mut m2: Vec<u32> = Vec::with_capacity(len);
        let mut v2: Vec<u32> = Vec::with_capacity(len);
        for i in 0..len
            invariant
                len == w.data@.len() == m.data@.len() == v.data@.len() == g.data@.len(),
                w2@.len() == i,
                m2@.len() == i,
                v2@.len() == i,
                forall|j: int| 0 <= j < i ==> first_moment(f, self.betas.0, m.data@[j], g.data@[j], #[trigger] m2@[j]),
                forall|j: int| 0 <= j < i ==> second_moment(f, self.betas.1, v.data@[j], g.data@[j], #[trigger] v2@[j]),
                forall|j: int|
                    0 <= j < i ==> adam_moves(f, w.data@[j], m2@[j], v2@[j], c1, c2, self.eps, self.lr, #[trigger] w2@[j]),
        {
            let (a, b, c) = self.move_element(c1, c2, w.data[i], m.data[i], v.data[i], g.data[i], f);
            let ghost (w0, m0, v0) = (w2@, m2@, v2@);
            w2.push(a);
            m2.push(b);
            v2.push(c);
            proof {
                assert forall|j: int| 0 <= j < i + 1 implies adam_moves(
                    f,
                    w.data@[j],
                    m2@[j],
                    v2@[j],
                    c1,
                    c2,
                    self.eps,
                    self.lr,
                    #[trigger] w2@[j],
                ) by {
                    if j < i {
                        assert(w2@[j] == w0[j] && m2@[j] == m0[j] && v2@[j] == v0[j]);
                    }
                }
            }
        }
        let ghost (ws, ms, vs) = (w2@, m2@, v2@);
        let p2 = rewrite(p, w2, f);
        let m_next = rewrite(&m_state, m2, f);
        let v_next = rewrite(&v_state, v2, f);
        proof {
            let t = adam_turn_of(m_state, v_state, w, m, v, ws, ms, vs);
            assert(adam_updates(f, *self, c1, c2, *p, *g, *held_m, *held_v, t, p2, m_next, v_next));
            assert(adam_updated(f, *self, c1, c2, *p, *g, *held_m, *held_v, p2, m_next, v_next));
        }
        (p2, Some(m_next), Some(v_next))
    }
}

impl<F: Fpu> Optimizer<F> for Adam {
    open spec fn ids(&self) -> Seq<usize> {
        self.params@
    }

    open spec fn serves(&self, g: &Graph) -> bool {
        &&& ids_in(self.params@, g.nodes@)
        &&& self.exp_avg@.len() == self.params@.len()
        &&& self.exp_avg_sq@.len() == self.params@.len()
        &&& states_fit(self.exp_avg@, self.params@, self.state_dtype, g.nodes@)
        &&& states_fit(self.exp_avg_sq@, self.params@, self.state_dtype, g.nodes@)
    }

    /// The count of steps grows, and all parameters are moved, in turn.
    open spec fn steps(f: &F, before: &Adam, g0: Seq<Node>, after: &Adam, g1: Seq<Node>) -> bool {
        &&& after.params == before.params
        &&& after.lr == before.lr
        &&& after.betas == before.betas
        &&& after.eps == before.eps
        &&& after.state_dtype == before.state_dtype
        &&& after.step_count == (if before.step_count == usize::MAX {
            0
        } else {
            before.step_count + 1
        })
        &&& adam_stepped(f, *before, after.step_count, g0, after.exp_avg@, after.exp_avg_sq@, g1)
    }

    fn params(&self) -> (p: &Vec<usize>) {
        &self.params
    }

    fn step(&mut self, g: &mut Graph, f: &F) {
        let ghost first = *self;
        let ghost g0 = g.nodes@;
        let count: usize = self.step_count.wrapping_add(1);
        self.step_count = count;
        let c1: u32 = Adam::correction(self.betas.0, count as i32, f);
        let c2: u32 = Adam::correction(self.betas.1, count as i32, f);
        let n: usize = self.params.len();
        for k in 0..n
            invariant
                n == self.params@.len(),
                g.wf(),
                ids_in(self.params@, g.nodes@),
                self.exp_avg@.len() == self.params@.len(),
                self.exp_avg_sq@.len() == self.params@.len(),
                states_fit(self.exp_avg@, self.params@, self.state_dtype, g.nodes@),
                states_fit(self.exp_avg_sq@, self.params@, self.state_dtype, g.nodes@),
                self.params == first.params,
                self.lr == first.lr,
                self.betas == first.betas,
                self.eps == first.eps,
                self.step_count == count,
                self.state_dtype == first.state_dtype,
                adam_swept(f, first, c1, c2, g0, k as int, self.exp_avg@, self.exp_avg_sq@, g.nodes@),
        {
            let id: usize = self.params[k];
            let ghost now = g.nodes@;
            let ghost ms = self.exp_avg@;
            let ghost vs = self.exp_avg_sq@;
            assert(self.params@[k as int] < now.len());
            assert(graph::node_wf(now, id as int));
            assert(state_fits(ms[k as int], now[id as int].tensor.spec_shape(), self.state_dtype));
            assert(state_fits(vs[k as int], now[id as int].tensor.spec_shape(), self.state_dtype));
            let p = g.nodes[id].tensor.clone();
            let m = copy_state(&self.exp_avg[k]);
            let v = copy_state(&self.exp_avg_sq[k]);
            let (p2, m2, v2) = self.move_one(c1, c2, &p, &m, &v, f);
            let ghost own = *self;
            proof {
                lemma_same_moves(f, own, first, c1, c2, p, m, v, p2, m2, v2);
            }
            replace(g, id, p2);
            self.exp_avg.set(k, m2);
            self.exp_avg_sq.set(k, v2);
            proof {
                let after = g.nodes@;
                assert(same_extents_at(now, after)) by {
                    assert forall|i: int| 0 <= i < now.len() implies (#[trigger] after[i]).tensor.spec_shape()
                        == now[i].tensor.spec_shape() by {}
                }
                assert(self.exp_avg@ =~= ms.update(k as int, self.exp_avg@[k as int]));
                assert(self.exp_avg_sq@ =~= vs.update(k as int, self.exp_avg_sq@[k as int]));
                lemma_states_fit(ms, self.exp_avg@, self.params@, self.state_dtype, now, after, k as int);
                lemma_states_fit(vs, self.exp_avg_sq@, self.params@, self.state_dtype, now, after, k as int);
                assert(ids_in(self.params@, after)) by {
                    assert forall|j: int| 0 <= j < self.params@.len() implies #[trigger] self.params@[j] < after.len() by {}
                }
                assert(adam_turn(
                    f,
                    first,
                    c1,
                    c2,
                    (k + 1) - 1,
                    ms,
                    vs,
                    now,
                    self.exp_avg@,
                    self.exp_avg_sq@,
                    after,
                ));
            }
        }
        assert(adam_stepped(f, first, count, g0, self.exp_avg@, self.exp_avg_sq@, g.nodes@));
    }
}

/// The corrections for a count of steps, and all parameters moved.
pub open spec fn adam_stepped<F: Fpu>(
    f: &F,
    opt: Adam,
    count: usize,
    g0: Seq<Node>,
    ms: Seq<Option<Tensor>>,
    vs: Seq<Option<Tensor>>,
    g1: Seq<Node>,
) -> bool {
    exists|c1: u32, c2: u32| #[trigger]
        bias_correction(f, opt.betas.0, count as i32, c1) && #[trigger] bias_correction(f, opt.betas.1, count as i32, c2)
            && adam_swept(f, opt, c1, c2, g0, opt.params@.len() as int, ms, vs, g1)
}

/// How a parameter moves depends on the constants of the optimizer alone.
proof fn lemma_same_moves<F: Fpu>(
    f: &F,
    a: Adam,
    b: Adam,
    c1: u32,
    c2: u32,
    p: Tensor,
    m: Option<Tensor>,
    v: Option<Tensor>,
    p2: Tensor,
    m2: Option<Tensor>,
    v2: Option<Tensor>,
)
    requires
        a.lr == b.lr,
        a.betas == b.betas,
        a.eps == b.eps,
        a.state_dtype == b.state_dtype,
        adam_moved(f, a, c1, c2, p, m, v, p2, m2, v2),
    ensures
        adam_moved(f, b, c1, c2, p, m, v, p2, m2, v2),
{
    if let Some(g) = p.grad {
        let t = choose|t: AdamTurn| adam_updates(f, a, c1, c2, p, *g, m, v, t, p2, m2->0, v2->0);
        assert(adam_updates(f, b, c1, c2, p, *g, m, v, t, p2, m2->0, v2->0));
    }
}

} // verus!
