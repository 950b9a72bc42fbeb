use crate::array::NdArray;
use crate::autograd;
use crate::autograd::{Tensor, TensorStorage};
use crate::dims;
use crate::float_bits;
use crate::float_bits::is_at_most;
use crate::fpu;
use crate::fpu::Fpu;
use crate::sampling;
use crate::ops::matvec;
use crate::sampling::{SampleError, SamplingConfig};
use vstd::prelude::*;
use vstd::slice::slice_subrange;
use vstd::slice::slice_to_vec;

verus! {

/// Logits that do not have three axes: batch, position and vocabulary.
#[derive(Clone, Copy, Debug, PartialEq, Eq, Structural)]
pub struct NotThreeAxes {}

/// The input of a model: the tokens, as one row of real numbers.
pub fn tensor_from_token_ids<F: Fpu>(ids: &[usize], f: &F) -> (t: Tensor)
    requires
        dims::fits(seq![1usize, ids@.len() as usize]),
    ensures
        t.wf(),
        t.is_leaf(t.storage, false),
        t.storage matches TensorStorage::F32(a) && a.shape@ == seq![1usize, ids@.len() as usize] && a.data@.len()
            == ids@.len() && forall|i: int| 0 <= i < ids@.len() ==> fpu::counts(f, ids@[i], #[trigger] a.data@[i]),
{
    let n: usize = ids.len();
    let mut data: Vec<u32> = Vec::with_capacity(n);
    for i in 0..n
        invariant
            n == ids@.len(),
            data@.len() == i,
            forall|j: int| 0 <= j < i ==> fpu::counts(f, ids@[j], #[trigger] data@[j]),
    {
        data.push(f.from_count(ids[i]));
    }
    let shape: Vec<usize> = vec![1, n];
    proof {
        assert(shape@ =~= seq![1usize, n]);
        dims::lemma_product2(shape@);
    }
    Tensor::from_array_no_grad(NdArray { shape, data })
}

/// `row` are the logits of the last position of the first sequence.
pub open spec fn is_last_row(a: NdArray<u32>, row: Seq<u32>) -> bool {
    &&& row.len() == a.shape@[2]
    &&& forall|v: usize|
        v < row.len() ==> #[trigger] row[v as int] == a.at(seq![0usize, (a.shape@[1] - 1) as usize, v])
}

pub open spec fn last_logits<F: Fpu>(f: &F, s: TensorStorage, row: Seq<u32>) -> bool {
    exists|a: NdArray<u32>| #[trigger] autograd::reads_as(f, s, a) && is_last_row(a, row)
}

/// The logits of the last position of the first sequence.
pub fn last_step_logits_vec<F: Fpu>(logits: &Tensor, f: &F) -> (r: Result<Vec<u32>, NotThreeAxes>)
    requires
        logits.wf(),
        logits.spec_shape().len() == 3 ==> logits.spec_shape()[0] > 0 && logits.spec_shape()[1] > 0,
    ensures
        match r {
            Ok(row) => logits.spec_shape().len() == 3 && last_logits(f, logits.storage, row@),
            Err(_) => logits.spec_shape().len() != 3,
        },
{
    let a = logits.data_arc(f);
    if a.shape.len() != 3 {
        return Err(NotThreeAxes {  });
    }
    let t: usize = a.shape[1] - 1;
    let v: usize = a.shape[2];
    let len: usize = a.data.len();
    let ghost shape = a.shape@;
    proof {
        lemma_last_row(shape);
        assert(len == dims::product(shape));
    }
    let start: usize = t * v;
    let row = slice_to_vec(slice_subrange(a.data.as_slice(), start, start + v));
    proof {
        assert forall|c: usize| c < row@.len() implies #[trigger] row@[c as int] == a.at(seq![0usize, t, c]) by {
            lemma_row_ravel(shape, t, c);
        }
        assert(is_last_row(*a, row@));
    }
    Ok(row)
}

/// The last row of the first sequence lies within the elements.
proof fn lemma_last_row(shape: Seq<usize>)
    requires
        shape.len() == 3,
        shape[0] > 0,
        shape[1] > 0,
    ensures
        (shape[1] - 1) * shape[2] + shape[2] <= dims::product(shape),
        0 <= (shape[1] - 1) * shape[2],
{
    dims::lemma_product3(shape);
    let (b, s, v) = (shape[0] as int, shape[1] as int, shape[2] as int);
    assert((s - 1) * v + v <= (b * s) * v && 0 <= (s - 1) * v) by (nonlinear_arith)
        requires
            b > 0,
            s > 0,
            v >= 0,
    ;
}

/// Where an element of a row of the first sequence lies.
proof fn lemma_row_ravel(shape: Seq<usize>, t: usize, c: usize)
    requires
        shape.len() == 3,
    ensures
        dims::ravel(shape, seq![0usize, t, c]) == t * shape[2] + c,
{
    let index = seq![0usize, t, c];
    let (s1, i1) = (shape.drop_last(), index.drop_last());
    let (s2, i2) = (s1.drop_last(), i1.drop_last());
    assert(dims::ravel(s2.drop_last(), i2.drop_last()) == 0);
    let first = s2.last() as int;
    assert(0 * first == 0) by (nonlinear_arith);
    assert(dims::ravel(s2, i2) == 0);
    let second = s1.last() as int;
    assert(0 * second == 0) by (nonlinear_arith);
    assert(dims::ravel(s1, i1) == t);
}

/// Scores that leave no choice: all of them are out of the question but one, if it is
/// there.
pub open spec fn is_only_choice(token: usize, scores: Seq<u32>) -> bool {
    forall|i: int|
        0 <= i < scores.len() ==> #[trigger] scores[i] == (if i == token {
            fpu::ZERO
        } else {
            fpu::NEG_INFINITY
        })
}

/// Puts a token that is known in place of the scores it was found by.
pub fn only_choice(token: usize, scores: &mut Vec<u32>)
    ensures
        final(scores)@.len() == old(scores)@.len(),
        is_only_choice(token, final(scores)@),
{
    let n: usize = scores.len();
    for i in 0..n
        invariant
            n == scores@.len() == old(scores)@.len(),
            forall|j: int|
                0 <= j < i ==> #[trigger] scores@[j] == (if j == token {
                    fpu::ZERO
                } else {
                    fpu::NEG_INFINITY
                }),
    {
        scores.set(
            i,
            if i == token {
                fpu::ZERO
            } else {
                fpu::NEG_INFINITY
            },
        );
    }
}

/// The next token does not depend on the size of the scores, only on which is greatest.
pub open spec fn needs_best_only(c: SamplingConfig) -> bool {
    sampling::is_greedy(c.temperature) && float_bits::at_most(c.repetition_penalty, fpu::ONE)
}

/// Whether it is enough to know the token with the greatest score.
pub fn best_is_enough(c: &SamplingConfig) -> (r: bool)
    ensures
        r == needs_best_only(*c),
{
    is_at_most(c.temperature, sampling::GREEDY_LIMIT) && is_at_most(c.repetition_penalty, fpu::ONE)
}

/// Where the best token is enough, scores that leave no choice lead to it again.
pub proof fn law_only_choice_is_taken<F: Fpu>(
    f: &F,
    c: SamplingConfig,
    token: usize,
    scores: Seq<u32>,
    recent: Seq<usize>,
    draw: u32,
    r: Result<usize, SampleError>,
)
    requires
        needs_best_only(c),
        token < scores.len(),
        is_only_choice(token, scores),
        sampling::sampled(f, c, scores, recent, draw, r),
    ensures
        r == Ok::<usize, SampleError>(token),
{
    let got = choose|got: Seq<u32>| #[trigger]
        sampling::adjusted(f, c, scores, recent, got) && (r matches Ok(t) && matvec::is_first_best(
            got,
            fpu::NEG_INFINITY,
            t as int,
        ));
    assert(got == scores);
    assert(scores[token as int] == fpu::ZERO);
    assert(float_bits::above(fpu::ZERO, fpu::NEG_INFINITY));
    assert(matvec::any_above(scores, fpu::NEG_INFINITY));
    assert(!float_bits::above(fpu::NEG_INFINITY, fpu::NEG_INFINITY));
}

} // verus!
