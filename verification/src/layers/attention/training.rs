use crate::autograd::{GradMode, Tensor};
use crate::dims;
use crate::fpu::Fpu;
use crate::graph::Node;
use crate::layers::attention::heads;
use crate::layers::attention::heads::{split_heads, HeadSplit};
use crate::layers::attention::repeat;
use crate::layers::attention::repeat::repeat_kv;
use crate::layers::attention::self_attention::SelfAttention;
use crate::layers::basic::linear;
use crate::ops::fused;
use crate::ops::fused::fused_softmax;
use crate::ops::matmul;
use crate::ops::matmul::batch_matmul;
use crate::ops::shape;
use crate::ops::shape::{permute, reshape_exact};
use crate::trace;
use crate::trace::{add_binary, add_unary};
use vstd::prelude::*;

verus! {

/// The product, its split and the heads, at their places among the steps.
pub open spec fn split_at(steps: Seq<Node>, product: int, split: int) -> HeadSplit {
    HeadSplit { product: steps[product].tensor, split: steps[split].tensor, heads: steps[split + 1].tensor }
}

/// A step with these parents.
pub open spec fn from1(steps: Seq<Node>, i: int, p: usize) -> bool {
    trace::is_step(steps[i], steps[i].tensor, seq![p])
}

pub open spec fn from2(steps: Seq<Node>, i: int, p: usize, q: usize) -> bool {
    trace::is_step(steps[i], steps[i].tensor, seq![p, q])
}

/// The first nine steps: queries, keys and values, projected and split into heads.
pub open spec fn projects<F: Fpu>(f: &F, att: SelfAttention, x: Tensor, mode: GradMode, steps: Seq<Node>) -> bool {
    &&& heads::is_split(f, x, att.w_q.weight, att.n_head, att.head_dim, mode, split_at(steps, 0, 3))
    &&& heads::is_split(f, x, att.w_k.weight, att.n_kv_head, att.head_dim, mode, split_at(steps, 1, 5))
    &&& heads::is_split(f, x, att.w_v.weight, att.n_kv_head, att.head_dim, mode, split_at(steps, 2, 7))
    &&& from2(steps, 0, 0, 1)
    &&& from2(steps, 1, 0, 2)
    &&& from2(steps, 2, 0, 3)
    &&& from1(steps, 3, 5)
    &&& from1(steps, 4, 8)
    &&& from1(steps, 5, 6)
    &&& from1(steps, 6, 10)
    &&& from1(steps, 7, 7)
    &&& from1(steps, 8, 12)
}

/// The next two or four steps: queries and keys, rotated from the first position on;
/// and keys and values repeated, where heads share them.
pub open spec fn rotates<F: Fpu>(f: &F, att: SelfAttention, mode: GradMode, steps: Seq<Node>) -> bool {
    &&& att.rope.rope_result(f, steps[4].tensor, 0, mode, steps[9].tensor)
    &&& att.rope.rope_result(f, steps[6].tensor, 0, mode, steps[10].tensor)
    &&& from1(steps, 9, 9)
    &&& from1(steps, 10, 11)
    &&& att.n_rep() > 1 ==> {
        &&& repeat::repeat_result(f, steps[10].tensor, att.n_rep() as usize, mode, steps[11].tensor)
        &&& repeat::repeat_result(f, steps[8].tensor, att.n_rep() as usize, mode, steps[12].tensor)
        &&& from1(steps, 11, 15)
        &&& from1(steps, 12, 13)
    }
}

/// Number of steps before the attention itself.
pub open spec fn prepared(att: SelfAttention) -> int {
    if att.n_rep() > 1 {
        13
    } else {
        11
    }
}

/// The step that holds the keys for all heads.
pub open spec fn key_step(att: SelfAttention) -> int {
    if att.n_rep() > 1 {
        11
    } else {
        10
    }
}

/// The step that holds the values for all heads.
pub open spec fn value_step(att: SelfAttention) -> int {
    if att.n_rep() > 1 {
        12
    } else {
        8
    }
}

/// The last seven steps: scores, their softmax, the weighted values, the heads joined
/// again, and the product with the output weight.
pub open spec fn attends<F: Fpu>(f: &F, att: SelfAttention, x: Tensor, mode: GradMode, steps: Seq<Node>) -> bool {
    let n = prepared(att);
    let xs = x.spec_shape();
    &&& steps.len() == n + 7
    &&& shape::permute_result(f, steps[key_step(att)].tensor, heads::transposition(), mode, steps[n].tensor)
    &&& matmul::batch_matmul_result(f, steps[9].tensor, steps[n].tensor, mode, steps[n + 1].tensor)
    &&& fused::fused_softmax_result(f, steps[n + 1].tensor, att.scale, att.causal, mode, steps[n + 2].tensor)
    &&& matmul::batch_matmul_result(f, steps[n + 2].tensor, steps[value_step(att)].tensor, mode, steps[n + 3].tensor)
    &&& shape::permute_result(f, steps[n + 3].tensor, heads::exchange(), mode, steps[n + 4].tensor)
    &&& shape::reshape_result(f, steps[n + 4].tensor, seq![xs[0], xs[1], att.w_o.in_features], mode, steps[n + 5].tensor)
    &&& matmul::matmul_result(f, steps[n + 5].tensor, att.w_o.weight, mode, steps[n + 6].tensor)
    &&& from1(steps, n, (5 + key_step(att)) as usize)
    &&& from2(steps, n + 1, 14, (5 + n) as usize)
    &&& from1(steps, n + 2, (6 + n) as usize)
    &&& from2(steps, n + 3, (7 + n) as usize, (5 + value_step(att)) as usize)
    &&& from1(steps, n + 4, (8 + n) as usize)
    &&& from1(steps, n + 5, (9 + n) as usize)
    &&& from2(steps, n + 6, (10 + n) as usize, 4)
}

/// The extents of the input and of the four weights.
pub open spec fn attention_operands(att: SelfAttention, x: Seq<usize>) -> Seq<Seq<usize>> {
    seq![
        x,
        att.w_q.weight.spec_shape(),
        att.w_k.weight.spec_shape(),
        att.w_v.weight.spec_shape(),
        att.w_o.weight.spec_shape(),
    ]
}

/// Attention with a record of every step.
pub open spec fn trained<F: Fpu>(f: &F, att: SelfAttention, x: Tensor, mode: GradMode, steps: Seq<Node>) -> bool {
    &&& attends(f, att, x, mode, steps)
    &&& projects(f, att, x, mode, steps)
    &&& rotates(f, att, mode, steps)
}

impl SelfAttention {
    fn record_projections<F: Fpu>(&self, x: &Tensor, mode: &GradMode, f: &F) -> (steps: Vec<Node>)
        requires
            self.wf(),
            x.wf(),
            x.spec_shape().len() == 3,
            x.spec_shape()[2] == self.w_q.in_features,
            self.manageable(x.spec_shape()),
        ensures
            steps@.len() == 9,
            projects(f, *self, *x, *mode, steps@),
            trace::steps_wf(attention_operands(*self, x.spec_shape()), steps@),
    {
        proof {
            self.lemma_accepts(*x);
        }
        let d: usize = self.head_dim;
        let q = split_heads(x, &self.w_q, self.n_head, d, mode, f);
        let k = split_heads(x, &self.w_k, self.n_kv_head, d, mode, f);
        let v = split_heads(x, &self.w_v, self.n_kv_head, d, mode, f);
        let ghost ops = attention_operands(*self, x.spec_shape());
        let mut steps: Vec<Node> = Vec::new();
        let ghost (qp, kp, vp) = (q.product, k.product, v.product);
        add_binary(&mut steps, q.product, 0, 1, Ghost(ops));
        add_binary(&mut steps, k.product, 0, 2, Ghost(ops));
        add_binary(&mut steps, v.product, 0, 3, Ghost(ops));
        assert(steps@[0].tensor == qp && steps@[1].tensor == kp && steps@[2].tensor == vp);
        let ghost (qs, ks, vs) = (q.split, k.split, v.split);
        add_unary(&mut steps, q.split, 5, Ghost(ops));
        assert(steps@[3].tensor == qs);
        let ghost (qh, kh, vh) = (q.heads, k.heads, v.heads);
        add_unary(&mut steps, q.heads, 8, Ghost(ops));
        assert(steps@[1].tensor == kp && steps@[2].tensor == vp);
        add_unary(&mut steps, k.split, 6, Ghost(ops));
        assert(steps@[5].tensor == ks);
        add_unary(&mut steps, k.heads, 10, Ghost(ops));
        assert(steps@[2].tensor == vp);
        add_unary(&mut steps, v.split, 7, Ghost(ops));
        assert(steps@[7].tensor == vs);
        add_unary(&mut steps, v.heads, 12, Ghost(ops));
        proof {
            assert(split_at(steps@, 0, 3) == (HeadSplit { product: qp, split: qs, heads: qh }));
            assert(split_at(steps@, 1, 5) == (HeadSplit { product: kp, split: ks, heads: kh }));
            assert(split_at(steps@, 2, 7) == (HeadSplit { product: vp, split: vs, heads: vh }));
        }
        steps
    }

    fn record_rotations<F: Fpu>(&self, x: &Tensor, steps: &mut Vec<Node>, mode: &GradMode, f: &F)
        requires
            self.wf(),
            x.wf(),
            x.spec_shape().len() == 3,
            x.spec_shape()[2] == self.w_q.in_features,
            x.spec_shape()[1] <= self.max_seq,
            self.manageable(x.spec_shape()),
            old(steps)@.len() == 9,
            projects(f, *self, *x, *mode, old(steps)@),
            trace::steps_wf(attention_operands(*self, x.spec_shape()), old(steps)@),
        ensures
            final(steps)@.len() == prepared(*self),
            forall|i: int| 0 <= i < 9 ==> #[trigger] final(steps)@[i] == old(steps)@[i],
            rotates(f, *self, *mode, final(steps)@),
            trace::steps_wf(attention_operands(*self, x.spec_shape()), final(steps)@),
    {
        let ghost ops = attention_operands(*self, x.spec_shape());
        let ghost before = steps@;
        let ghost b = x.spec_shape()[0];
        let ghost s = x.spec_shape()[1];
        proof {
            self.lemma_accepts(*x);
            assert(trace::step_wf(ops, before, 4));
            assert(trace::step_wf(ops, before, 6));
            assert(trace::step_wf(ops, before, 8));
        }
        let qh = steps[4].tensor.clone();
        let kh = steps[6].tensor.clone();
        let vh = steps[8].tensor.clone();
        let q_rot = match self.rope.forward(&qh, 0, mode, f) {
            Ok(t) => t,
            Err(_) => {
                assert(false);
                qh.clone()
            },
        };
        let k_rot = match self.rope.forward(&kh, 0, mode, f) {
            Ok(t) => t,
            Err(_) => {
                assert(false);
                kh.clone()
            },
        };
        let ghost q_rot_g = q_rot;
        add_unary(steps, q_rot, 9, Ghost(ops));
        assert(steps@[6] == before[6]);
        let k_copy = k_rot.clone();
        add_unary(steps, k_rot, 11, Ghost(ops));
        assert(steps@[9].tensor == q_rot_g && steps@[10].tensor == k_copy);
        let n_rep: usize = self.n_head / self.n_kv_head;
        if n_rep > 1 {
            proof {
                assert(k_copy.spec_shape() =~= seq![b, self.n_kv_head, s, self.head_dim]);
                assert(repeat::repeated_shape(k_copy.spec_shape(), n_rep) =~= seq![b, self.n_head, s, self.head_dim]);
                self.lemma_heads_fit(*x);
            }
            let k_up = repeat_kv(&k_copy, n_rep, mode, f);
            let v_up = repeat_kv(&vh, n_rep, mode, f);
            let ghost k_up_g = k_up;
            add_unary(steps, k_up, 15, Ghost(ops));
            assert(steps@[8] == before[8]);
            add_unary(steps, v_up, 13, Ghost(ops));
            assert(steps@[11].tensor == k_up_g);
        }
        assert(steps@[4] == before[4] && steps@[6] == before[6] && steps@[8] == before[8]);
    }

    /// The heads of all queries fit.
    proof fn lemma_heads_fit(&self, x: Tensor)
        requires
            self.wf(),
            x.wf(),
            x.spec_shape().len() == 3,
            x.spec_shape()[2] == self.w_q.in_features,
        ensures
            dims::fits(seq![x.spec_shape()[0], self.n_head, x.spec_shape()[1], self.head_dim]),
            dims::fits(seq![x.spec_shape()[0], x.spec_shape()[1], self.n_head, self.head_dim]),
    {
        let b = x.spec_shape()[0];
        let s = x.spec_shape()[1];
        assert(x.spec_shape() =~= seq![b, s, self.w_q.in_features]);
        heads::lemma_split_axis(b, s, self.n_head, self.head_dim);
        heads::lemma_exchange();
        heads::lemma_exchanged_shape(b, s, self.n_head, self.head_dim);
        dims::lemma_volume_permuted(seq![b, s, self.n_head, self.head_dim], heads::exchange());
    }

    fn record_scores<F: Fpu>(&self, x: &Tensor, steps: &mut Vec<Node>, mode: &GradMode, f: &F)
        requires
            self.wf(),
            x.wf(),
            x.spec_shape().len() == 3,
            x.spec_shape()[2] == self.w_q.in_features,
            self.manageable(x.spec_shape()),
            old(steps)@.len() == prepared(*self),
            old(steps)@[9].tensor.spec_shape() == seq![x.spec_shape()[0], self.n_head, x.spec_shape()[1], self.head_dim],
            old(steps)@[key_step(*self)].tensor.spec_shape() == seq![
                x.spec_shape()[0],
                self.n_head,
                x.spec_shape()[1],
                self.head_dim,
            ],
            old(steps)@[value_step(*self)].tensor.spec_shape() == seq![
                x.spec_shape()[0],
                self.n_head,
                x.spec_shape()[1],
                self.head_dim,
            ],
            trace::steps_wf(attention_operands(*self, x.spec_shape()), old(steps)@),
        ensures
            attends(f, *self, *x, *mode, final(steps)@),
            forall|i: int| 0 <= i < old(steps)@.len() ==> #[trigger] final(steps)@[i] == old(steps)@[i],
            trace::steps_wf(attention_operands(*self, x.spec_shape()), final(steps)@),
            final(steps)@.last().tensor.spec_shape() == x.spec_shape(),
            final(steps)@.last().tensor.grad is None,
    {
        let ghost ops = attention_operands(*self, x.spec_shape());
        let ghost before = steps@;
        let xs: Vec<usize> = x.shape_vec();
        let b: usize = xs[0];
        let s: usize = xs[1];
        let h: usize = self.n_head;
        let d: usize = self.head_dim;
        let n_rep: usize = self.n_head / self.n_kv_head;
        let key_at: usize = if n_rep > 1 { 11 } else { 10 };
        let value_at: usize = if n_rep > 1 { 12 } else { 8 };
        let n: usize = steps.len();
        proof {
            self.lemma_accepts(*x);
            self.lemma_heads_fit(*x);
            heads::lemma_exchange();
            assert(trace::step_wf(ops, before, 9));
            assert(trace::step_wf(ops, before, key_at as int));
            assert(trace::step_wf(ops, before, value_at as int));
        }
        let q_rot = steps[9].tensor.clone();
        let keys = steps[key_at].tensor.clone();
        let values = steps[value_at].tensor.clone();
        let axes: Vec<usize> = vec![0, 1, 3, 2];
        proof {
            assert(axes@ =~= heads::transposition());
            heads::lemma_exchanged_shape(b, h, s, d);
        }
        let k_t = match permute(&keys, axes, mode, f) {
            Ok(t) => t,
            Err(_) => {
                assert(false);
                keys.clone()
            },
        };
        proof {
            assert(matmul::batch_matmul_shape(q_rot.spec_shape(), k_t.spec_shape()) =~= seq![b, h, s, s]);
        }
        let scores = match batch_matmul(&q_rot, &k_t, mode, f) {
            Ok(t) => t,
            Err(_) => {
                assert(false);
                keys.clone()
            },
        };
        let probs = match fused_softmax(&scores, self.scale, self.causal, mode, f) {
            Ok(t) => t,
            Err(_) => {
                assert(false);
                keys.clone()
            },
        };
        proof {
            assert(matmul::batch_matmul_shape(probs.spec_shape(), values.spec_shape()) =~= seq![b, h, s, d]);
        }
        let context = match batch_matmul(&probs, &values, mode, f) {
            Ok(t) => t,
            Err(_) => {
                assert(false);
                keys.clone()
            },
        };
        let back: Vec<usize> = vec![0, 2, 1, 3];
        proof {
            assert(back@ =~= heads::exchange());
        }
        let exchanged = match permute(&context, back, mode, f) {
            Ok(t) => t,
            Err(_) => {
                assert(false);
                keys.clone()
            },
        };
        let target: Vec<usize> = vec![b, s, self.w_o.in_features];
        proof {
            assert(target@ =~= seq![b, s, self.w_o.in_features]);
            assert(target@ =~= x.spec_shape());
            assert(exchanged.spec_shape() =~= seq![b, s, h, d]);
            heads::lemma_split_axis(b, s, h, d);
            assert forall|i: int| 0 <= i < target@.len() implies #[trigger] target@[i] <= i32::MAX by {}
        }
        let joined = reshape_exact(&exchanged, &target, mode, f);
        proof {
            self.lemma_accepts(joined);
        }
        let out = match self.w_o.forward(&joined, mode, f) {
            Ok(done) => {
                assert(linear::is_product(f, joined, self.w_o.weight, *mode, done@[0]));
                done[0].tensor.clone()
            },
            Err(_) => {
                assert(false);
                keys.clone()
            },
        };
        proof {
            assert(self.w_o.output_shape(joined.spec_shape()) =~= x.spec_shape());
        }
        let ghost (t0, t1, t2, t3, t4, t5, t6) = (k_t, scores, probs, context, exchanged, joined, out);
        add_unary(steps, k_t, 5 + key_at, Ghost(ops));
        assert(steps@[9] == before[9]);
        add_binary(steps, scores, 14, 5 + n, Ghost(ops));
        add_unary(steps, probs, 6 + n, Ghost(ops));
        assert(steps@[value_at as int] == before[value_at as int]);
        add_binary(steps, context, 7 + n, 5 + value_at, Ghost(ops));
        add_unary(steps, exchanged, 8 + n, Ghost(ops));
        add_unary(steps, joined, 9 + n, Ghost(ops));
        add_binary(steps, out, 10 + n, 4, Ghost(ops));
        proof {
            let m = n as int;
            assert(steps@[m].tensor == t0 && steps@[m + 1].tensor == t1 && steps@[m + 2].tensor == t2 && steps@[m + 3].tensor
                == t3 && steps@[m + 4].tensor == t4 && steps@[m + 5].tensor == t5 && steps@[m + 6].tensor == t6);
            assert(steps@[9] == before[9] && steps@[key_at as int] == before[key_at as int] && steps@[value_at as int]
                == before[value_at as int]);
        }
    }

    /// Attention with a record of every step.
    pub(crate) fn record<F: Fpu>(&self, x: &Tensor, mode: &GradMode, f: &F) -> (steps: Vec<Node>)
        requires
            self.wf(),
            x.wf(),
            x.spec_shape().len() == 3,
            x.spec_shape()[2] == self.w_q.in_features,
            x.spec_shape()[1] <= self.max_seq,
            self.manageable(x.spec_shape()),
        ensures
            trained(f, *self, *x, *mode, steps@),
            trace::steps_wf(attention_operands(*self, x.spec_shape()), steps@),
            steps@.last().tensor.spec_shape() == x.spec_shape(),
            steps@.last().tensor.grad is None,
    {
        let mut steps = self.record_projections(x, mode, f);
        let ghost first = steps@;
        self.record_rotations(x, &mut steps, mode, f);
        let ghost second = steps@;
        proof {
            self.lemma_accepts(*x);
            let b = x.spec_shape()[0];
            let s = x.spec_shape()[1];
            assert(second[8] == first[8] && second[6] == first[6] && second[4] == first[4]);
            let n = self.n_rep();
            let kv = self.n_kv_head;
            assert(second[6].tensor.spec_shape() =~= seq![b, kv, s, self.head_dim]);
            assert(second[8].tensor.spec_shape() =~= seq![b, kv, s, self.head_dim]);
            assert(second[10].tensor.spec_shape() =~= seq![b, kv, s, self.head_dim]);
            if n <= 1 {
                assert(kv == self.n_head) by (nonlinear_arith)
                    requires
                        self.n_head == kv * n,
                        self.n_head > 0,
                        n <= 1,
                ;
            }
            assert(second[key_step(*self)].tensor.spec_shape() =~= seq![b, self.n_head, s, self.head_dim]);
            assert(second[value_step(*self)].tensor.spec_shape() =~= seq![b, self.n_head, s, self.head_dim]);
        }
        self.record_scores(x, &mut steps, mode, f);
        proof {
            let last = steps@;
            assert forall|i: int| 0 <= i < 9 implies #[trigger] last[i] == first[i] by {
                assert(second[i] == first[i]);
            }
            assert(split_at(last, 0, 3) == split_at(first, 0, 3));
            assert(split_at(last, 1, 5) == split_at(first, 1, 5));
            assert(split_at(last, 2, 7) == split_at(first, 2, 7));
            assert(last[0] == first[0] && last[1] == first[1] && last[2] == first[2] && last[3] == first[3] && last[4]
                == first[4] && last[5] == first[5] && last[6] == first[6] && last[7] == first[7] && last[8] == first[8]);
            assert(last[9] == second[9] && last[10] == second[10]);
            if self.n_rep() > 1 {
                assert(last[11] == second[11] && last[12] == second[12]);
            }
        }
        steps
    }
}

} // verus!
