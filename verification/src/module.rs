use crate::array::NdArray;
use crate::autograd;
use crate::autograd::{set_inference_mode, GradMode, Tensor, TensorStorage};
use crate::dims;
use crate::dims::{checked_len, same_extents};
use crate::fpu::Fpu;
use crate::graph::Node;
use crate::layers::activation::SoftmaxError;
use crate::layers::attention::self_attention::AttentionError;
use crate::layers::basic::embedding::EmbeddingError;
use crate::ops::matmul::MatmulError;
use crate::trace;
use crate::trace::splice;
use vstd::prelude::*;

verus! {

/// The parameters of a model: extents and elements, one after the other.
pub struct ModelCheckpoint {
    pub params: Vec<(Vec<usize>, Vec<u32>)>,
}

/// Why a module refuses an input.
#[derive(Clone, Copy, Debug, PartialEq, Eq, Structural)]
pub enum ModuleError {
    NoAxis,
    EmptyAxis,
    TooLarge,
    WidthMismatch,
    Inner(MatmulError),
    Index(EmbeddingError),
    Softmax(SoftmaxError),
    Attention(AttentionError),
    UseForwardStep,
    /// More than all elements would be dropped.
    Share,
    /// The parameters have not the extents that the module was built for.
    Invalid,
    UnsoundInput,
}

/// Why a checkpoint, or a list of tensors, does not belong to a model: there are not as
/// many as parameters; or one of them is not sound, or has not the extents that it should.
#[derive(Clone, Copy, Debug, PartialEq, Eq, Structural)]
pub enum LoadError {
    CountMismatch,
    BadEntry,
}

/// The extents of what a module computes with: its input, and its parameters.
pub open spec fn module_operands(input: Seq<usize>, params: Seq<Tensor>) -> Seq<Seq<usize>> {
    seq![input] + Seq::new(params.len(), |i: int| params[i].spec_shape())
}

/// What comes out of steps: the result of the last one, or the input if there is none.
pub open spec fn output_of(input: Tensor, steps: Seq<Node>) -> Tensor {
    if steps.len() == 0 {
        input
    } else {
        steps.last().tensor
    }
}

/// A layer, or several, with parameters.
pub trait Module<F: Fpu> {
    /// The parameters have the extents that the module was built for.
    spec fn valid(&self) -> bool;

    spec fn param_list(&self) -> Seq<Tensor>;

    /// What a pass does with these parameters: it gives the steps of a computation, or is
    /// refused.
    spec fn computes(&self, params: Seq<Tensor>, f: &F, input: Tensor, mode: GradMode, r: Result<Seq<Node>, ModuleError>) -> bool;

    /// A pass. Operand zero is the input, and the parameters follow; without a step the
    /// input is the result.
    fn forward(&self, input: &Tensor, mode: &GradMode, f: &F) -> (r: Result<Vec<Node>, ModuleError>)
        requires
            self.valid(),
            input.wf(),
        ensures
            self.computes(self.param_list(), f, *input, *mode, steps_of(r)),
            r matches Ok(steps) ==> steps@.len() > 0 ==> trace::steps_wf(
                module_operands(input.spec_shape(), self.param_list()),
                steps@,
            ),
    ;

    /// Whether the module is valid.
    fn is_valid(&self) -> (r: bool)
        ensures
            r == self.valid(),
    ;

    /// A pass that asks nothing of the module or the input before.
    fn checked_forward(&self, input: &Tensor, mode: &GradMode, f: &F) -> (r: Result<Vec<Node>, ModuleError>)
        ensures
            if !self.valid() {
                r matches Err(e) && e == ModuleError::Invalid
            } else if !input.wf() {
                r matches Err(e) && e == ModuleError::UnsoundInput
            } else {
                &&& self.computes(self.param_list(), f, *input, *mode, steps_of(r))
                &&& r matches Ok(steps) ==> steps@.len() > 0 ==> trace::steps_wf(
                    module_operands(input.spec_shape(), self.param_list()),
                    steps@,
                )
            },
    {
        if !self.is_valid() {
            return Err(ModuleError::Invalid);
        }
        if !input.is_sound() {
            return Err(ModuleError::UnsoundInput);
        }
        self.forward(input, mode, f)
    }

    fn parameters(&self) -> (p: Vec<Tensor>)
        ensures
            p@ == self.param_list(),
    ;

    /// Puts tensors in place of the parameters; nothing else about the module changes.
    fn replace_parameters(&mut self, params: &Vec<Tensor>)
        requires
            params@.len() == old(self).param_list().len(),
        ensures
            final(self).param_list() == params@,
            forall|p: Seq<Tensor>, f: &F, input: Tensor, mode: GradMode, r: Result<Seq<Node>, ModuleError>| #[trigger]
                final(self).computes(p, f, input, mode, r) == old(self).computes(p, f, input, mode, r),
            old(self).valid() && fit(old(self).param_list(), params@) ==> final(self).valid(),
    ;

    /// Puts tensors in place of the parameters, if each has the extents of the one that it
    /// replaces. A pass then computes with them.
    fn set_parameters(&mut self, params: &Vec<Tensor>) -> (r: Result<(), LoadError>)
        ensures
            match set_error(old(self).param_list(), params@) {
                Some(e) => r == Err::<(), LoadError>(e) && final(self).param_list() == old(self).param_list(),
                None => r is Ok && final(self).param_list() == params@,
            },
            old(self).valid() ==> final(self).valid(),
            forall|p: Seq<Tensor>, f: &F, input: Tensor, mode: GradMode, r: Result<Seq<Node>, ModuleError>| #[trigger]
                final(self).computes(p, f, input, mode, r) == old(self).computes(p, f, input, mode, r),
    {
        let own = self.parameters();
        let n: usize = own.len();
        if params.len() != n {
            return Err(LoadError::CountMismatch);
        }
        let ghost before = self.param_list();
        for i in 0..n
            invariant
                n == own@.len(),
                n == params@.len(),
                own@ == before,
                before == self.param_list(),
                self == old(self),
                forall|j: int| 0 <= j < i ==> fits_in(before[j], #[trigger] params@[j]),
        {
            if !has_place(&own[i], &params[i]) {
                assert(!fits_in(before[i as int], params@[i as int]));
                assert(!fit(before, params@));
                return Err(LoadError::BadEntry);
            }
        }
        self.replace_parameters(params);
        Ok(())
    }

    /// Switches to training. A module that does not say otherwise has operations recorded.
    fn train_mode(&mut self, mode: &mut GradMode)
        ensures
            *final(mode) == *old(mode) || *final(mode) == switched(*old(mode), false),
            final(self).param_list() == old(self).param_list(),
            old(self).valid() ==> final(self).valid(),
        default_ensures
            *final(mode) == switched(*old(mode), false),
    {
        set_inference_mode(mode, false);
    }

    /// Switches to inference. A module that does not say otherwise has operations leave no
    /// record.
    fn eval_mode(&mut self, mode: &mut GradMode)
        ensures
            *final(mode) == *old(mode) || *final(mode) == switched(*old(mode), true),
            final(self).param_list() == old(self).param_list(),
            old(self).valid() ==> final(self).valid(),
        default_ensures
            *final(mode) == switched(*old(mode), true),
    {
        set_inference_mode(mode, true);
    }

    /// The parameters as they are stored in a file.
    fn save(&self, f: &F) -> (c: ModelCheckpoint)
        requires
            forall|i: int| 0 <= i < self.param_list().len() ==> (#[trigger] self.param_list()[i]).wf(),
        ensures
            saved(f, self.param_list(), c),
    {
        let params = self.parameters();
        checkpoint(&params, f)
    }

    /// Puts the entries of a checkpoint into the parameters. A pass then computes with them.
    fn load(&mut self, c: ModelCheckpoint) -> (r: Result<(), LoadError>)
        ensures
            match load_error(old(self).param_list().len() as int, c) {
                Some(e) => r == Err::<(), LoadError>(e) && final(self).param_list() == old(self).param_list() && (old(
                    self,
                ).valid() ==> final(self).valid()),
                None => r is Ok && loaded(old(self).param_list(), c, final(self).param_list()),
            },
            old(self).valid() && fit(old(self).param_list(), final(self).param_list()) ==> final(self).valid(),
            forall|p: Seq<Tensor>, f: &F, input: Tensor, mode: GradMode, r: Result<Seq<Node>, ModuleError>| #[trigger]
                final(self).computes(p, f, input, mode, r) == old(self).computes(p, f, input, mode, r),
    {
        let mut params = self.parameters();
        match load(&mut params, c) {
            Ok(()) => {
                self.replace_parameters(&params);
                Ok(())
            },
            Err(e) => Err(e),
        }
    }
}

/// The recording of operations after a switch.
pub open spec fn switched(before: GradMode, inference: bool) -> GradMode {
    GradMode { inference, ..before }
}

/// A sound tensor of the extents of the one that it replaces.
pub open spec fn fits_in(before: Tensor, after: Tensor) -> bool {
    after.wf() && after.spec_shape() == before.spec_shape()
}

/// Each tensor fits in the place of another.
pub open spec fn fit(before: Seq<Tensor>, after: Seq<Tensor>) -> bool {
    &&& after.len() == before.len()
    &&& forall|i: int| 0 <= i < after.len() ==> fits_in(before[i], #[trigger] after[i])
}

/// What keeps tensors from taking the place of others.
pub open spec fn set_error(before: Seq<Tensor>, params: Seq<Tensor>) -> Option<LoadError> {
    if params.len() != before.len() {
        Some(LoadError::CountMismatch)
    } else if !fit(before, params) {
        Some(LoadError::BadEntry)
    } else {
        None
    }
}

fn has_place(before: &Tensor, after: &Tensor) -> (r: bool)
    ensures
        r == fits_in(*before, *after),
{
    if !after.is_sound() {
        return false;
    }
    let old_shape: Vec<usize> = before.shape_vec();
    let new_shape: Vec<usize> = after.shape_vec();
    same_extents(&old_shape, &new_shape)
}

/// The result of a pass, with the steps as a sequence.
pub open spec fn steps_of(r: Result<Vec<Node>, ModuleError>) -> Result<Seq<Node>, ModuleError> {
    match r {
        Ok(steps) => Ok(steps@),
        Err(e) => Err(e),
    }
}

/// The checkpoint holds the extents and the elements of the parameters, in single
/// precision.
pub open spec fn saved<F: Fpu>(f: &F, params: Seq<Tensor>, c: ModelCheckpoint) -> bool {
    &&& c.params@.len() == params.len()
    &&& forall|i: int| 0 <= i < params.len() ==> entry_of(f, params[i], #[trigger] c.params@[i])
}

pub open spec fn entry_of<F: Fpu>(f: &F, t: Tensor, e: (Vec<usize>, Vec<u32>)) -> bool {
    autograd::reads_as(f, t.storage, (NdArray { shape: e.0, data: e.1 }))
}

/// The extents and the elements of parameters.
pub fn checkpoint<F: Fpu>(params: &Vec<Tensor>, f: &F) -> (c: ModelCheckpoint)
    requires
        forall|i: int| 0 <= i < params@.len() ==> (#[trigger] params@[i]).wf(),
    ensures
        saved(f, params@, c),
{
    let mut list: Vec<(Vec<usize>, Vec<u32>)> = Vec::with_capacity(params.len());
    for i in 0..params.len()
        invariant
            forall|j: int| 0 <= j < params@.len() ==> (#[trigger] params@[j]).wf(),
            list@.len() == i,
            forall|j: int| 0 <= j < i ==> entry_of(f, params@[j], #[trigger] list@[j]),
    {
        assert(params@[i as int].wf());
        list.push(params[i].get_raw_data(f));
    }
    ModelCheckpoint { params: list }
}

/// The number of elements is that of the extents.
pub open spec fn entry_wf(e: (Vec<usize>, Vec<u32>)) -> bool {
    dims::fits(e.0@) && dims::product(e.0@) == e.1@.len()
}

/// What keeps a checkpoint from being loaded into so many parameters.
pub open spec fn load_error(count: int, c: ModelCheckpoint) -> Option<LoadError> {
    if c.params@.len() != count {
        Some(LoadError::CountMismatch)
    } else if exists|i: int| 0 <= i < c.params@.len() && !entry_wf(#[trigger] c.params@[i]) {
        Some(LoadError::BadEntry)
    } else {
        None
    }
}

/// `after` holds an entry in single precision, and is `before` otherwise.
pub open spec fn entry_loaded(before: Tensor, e: (Vec<usize>, Vec<u32>), after: Tensor) -> bool {
    &&& after == (Tensor { storage: after.storage, ..before })
    &&& after.storage matches TensorStorage::F32(a) && a.wf() && a.shape@ == e.0@ && a.data@ == e.1@
}

/// Each parameter holds its entry.
pub open spec fn loaded(before: Seq<Tensor>, c: ModelCheckpoint, after: Seq<Tensor>) -> bool {
    &&& after.len() == before.len()
    &&& forall|i: int| 0 <= i < before.len() ==> entry_loaded(before[i], c.params@[i], #[trigger] after[i])
}

/// Puts the entries of a checkpoint into parameters.
pub fn load(params: &mut Vec<Tensor>, c: ModelCheckpoint) -> (r: Result<(), LoadError>)
    ensures
        match load_error(old(params)@.len() as int, c) {
            Some(e) => r == Err::<(), LoadError>(e) && final(params)@ == old(params)@,
            None => r is Ok && loaded(old(params)@, c, final(params)@),
        },
{
    let n: usize = params.len();
    if c.params.len() != n {
        return Err(LoadError::CountMismatch);
    }
    for i in 0..n
        invariant
            n == c.params@.len(),
            n == params@.len(),
            params@ == old(params)@,
            forall|j: int| 0 <= j < i ==> entry_wf(#[trigger] c.params@[j]),
    {
        let sound: bool = match checked_len(&c.params[i].0) {
            Some(len) => len == c.params[i].1.len(),
            None => false,
        };
        if !sound {
            assert(!entry_wf(c.params@[i as int]));
            return Err(LoadError::BadEntry);
        }
    }
    for i in 0..n
        invariant
            n == c.params@.len(),
            n == params@.len(),
            n == old(params)@.len(),
            forall|j: int| 0 <= j < n ==> entry_wf(#[trigger] c.params@[j]),
            forall|j: int| 0 <= j < i ==> entry_loaded(old(params)@[j], c.params@[j], #[trigger] params@[j]),
            forall|j: int| i <= j < n ==> #[trigger] params@[j] == old(params)@[j],
    {
        assert(entry_wf(c.params@[i as int]));
        let mut t = params[i].clone();
        let shape: Vec<usize> = c.params[i].0.clone();
        let data: Vec<u32> = c.params[i].1.clone();
        proof {
            assert(shape@ =~= c.params@[i as int].0@);
            assert(data@ =~= c.params@[i as int].1@);
        }
        t.set_raw_data(shape, data);
        params.set(i, t);
    }
    Ok(())
}

/// What was saved is what is loaded: the parameters then hold, in single precision, the
/// elements that those had which were saved; and nothing else about them changes.
pub proof fn law_checkpoint_round_trip<F: Fpu>(
    f: &F,
    source: Seq<Tensor>,
    c: ModelCheckpoint,
    before: Seq<Tensor>,
    after: Seq<Tensor>,
    i: int,
)
    requires
        saved(f, source, c),
        before.len() == source.len(),
        loaded(before, c, after),
        0 <= i < source.len(),
    ensures
        load_error(before.len() as int, c) is None,
        after[i].spec_shape() == source[i].spec_shape(),
        after[i].storage matches TensorStorage::F32(a) && autograd::reads_as(f, source[i].storage, *a),
        after[i].requires_grad == before[i].requires_grad,
{
    assert forall|j: int| 0 <= j < c.params@.len() implies entry_wf(#[trigger] c.params@[j]) by {
        assert(entry_of(f, source[j], c.params@[j]));
    }
    assert(entry_of(f, source[i], c.params@[i]));
    assert(entry_loaded(before[i], c.params@[i], after[i]));
}

/// Modules one behind the other.
#[verifier::reject_recursive_types(F)]
pub struct Sequential<F: Fpu> {
    pub layers: Vec<Box<dyn Module<F>>>,
}

/// The parameters of the first `n` modules, one behind the other.
pub open spec fn joined_params<F: Fpu>(layers: Seq<Box<dyn Module<F>>>, n: int) -> Seq<Tensor>
    decreases n,
{
    if n <= 0 {
        Seq::empty()
    } else {
        joined_params(layers, n - 1) + layers[n - 1].param_list()
    }
}

/// The numbers of what module `k` computes with: where its input comes from, and its
/// parameters among those of all.
pub open spec fn module_ids<F: Fpu>(layers: Seq<Box<dyn Module<F>>>, k: int, current: int) -> Seq<usize> {
    let start = 1 + joined_params(layers, k).len();
    seq![current as usize] + Seq::new(layers[k].param_list().len(), |i: int| (start + i) as usize)
}

/// The number of what has come out so far.
pub open spec fn current_number(n_ops: int, steps: Seq<Node>) -> int {
    if steps.len() == 0 {
        0
    } else {
        n_ops + steps.len() - 1
    }
}

/// The parameters of module `k` among those of all.
pub open spec fn own_params<F: Fpu>(layers: Seq<Box<dyn Module<F>>>, params: Seq<Tensor>, k: int) -> Seq<Tensor> {
    params.subrange(joined_params(layers, k).len() as int, joined_params(layers, k + 1).len() as int)
}

/// The first `n` modules have been passed, with these parameters and these steps.
pub open spec fn runs<F: Fpu>(
    f: &F,
    layers: Seq<Box<dyn Module<F>>>,
    params: Seq<Tensor>,
    n: int,
    input: Tensor,
    mode: GradMode,
    steps: Seq<Node>,
) -> bool
    decreases n,
{
    if n <= 0 {
        steps == Seq::<Node>::empty()
    } else {
        exists|before: Seq<Node>, sub: Seq<Node>|
            runs(f, layers, params, n - 1, input, mode, before) && #[trigger] runs_one(
                f,
                layers,
                params,
                n - 1,
                input,
                mode,
                before,
                sub,
                steps,
            )
    }
}

/// Module `k` has been passed.
pub open spec fn runs_one<F: Fpu>(
    f: &F,
    layers: Seq<Box<dyn Module<F>>>,
    params: Seq<Tensor>,
    k: int,
    input: Tensor,
    mode: GradMode,
    before: Seq<Node>,
    sub: Seq<Node>,
    after: Seq<Node>,
) -> bool {
    let n_ops = 1 + joined_params(layers, layers.len() as int).len();
    &&& layers[k].computes(own_params(layers, params, k), f, output_of(input, before), mode, Ok(sub))
    &&& trace::spliced(before, n_ops as int, module_ids(layers, k, current_number(n_ops as int, before)), sub, after)
}

/// The result of all modules, or the refusal of the first that refuses.
pub open spec fn sequence_computes<F: Fpu>(
    f: &F,
    layers: Seq<Box<dyn Module<F>>>,
    params: Seq<Tensor>,
    input: Tensor,
    mode: GradMode,
    r: Result<Seq<Node>, ModuleError>,
) -> bool {
    match r {
        Ok(steps) => runs(f, layers, params, layers.len() as int, input, mode, steps),
        Err(e) => stops(f, layers, params, input, mode, e),
    }
}

/// A module refuses what came out of those before it; or the steps are too many.
pub open spec fn stops<F: Fpu>(
    f: &F,
    layers: Seq<Box<dyn Module<F>>>,
    params: Seq<Tensor>,
    input: Tensor,
    mode: GradMode,
    e: ModuleError,
) -> bool {
    exists|k: int, before: Seq<Node>|
        0 <= k < layers.len() && #[trigger] runs(f, layers, params, k, input, mode, before) && stops_at(
            f,
            layers,
            params,
            k,
            input,
            mode,
            before,
            e,
        )
}

/// Module `k` refuses what came out of those before it; or its steps are too many.
pub open spec fn stops_at<F: Fpu>(
    f: &F,
    layers: Seq<Box<dyn Module<F>>>,
    params: Seq<Tensor>,
    k: int,
    input: Tensor,
    mode: GradMode,
    before: Seq<Node>,
    e: ModuleError,
) -> bool {
    ||| layers[k].computes(own_params(layers, params, k), f, output_of(input, before), mode, Err(e))
    ||| e == ModuleError::TooLarge && overflows(f, layers, params, k, input, mode, before)
}

/// The steps of a module would be more than can be numbered.
pub open spec fn overflows<F: Fpu>(
    f: &F,
    layers: Seq<Box<dyn Module<F>>>,
    params: Seq<Tensor>,
    k: int,
    input: Tensor,
    mode: GradMode,
    before: Seq<Node>,
) -> bool {
    exists|sub: Seq<Node>| #[trigger]
        layers[k].computes(own_params(layers, params, k), f, output_of(input, before), mode, Ok(sub)) && 1 + joined_params(
            layers,
            layers.len() as int,
        ).len() + before.len() + sub.len() > usize::MAX
}

proof fn lemma_params_monotone<F: Fpu>(layers: Seq<Box<dyn Module<F>>>, k: int, n: int)
    requires
        0 <= k <= n <= layers.len(),
    ensures
        joined_params(layers, k).len() <= joined_params(layers, n).len(),
        forall|i: int|
            0 <= i < joined_params(layers, k).len() ==> #[trigger] joined_params(layers, n)[i] == joined_params(layers, k)[i],
    decreases n,
{
    if k < n {
        lemma_params_monotone(layers, k, n - 1);
    }
}

/// What a module computes with has the right extents.
proof fn lemma_module_operands<F: Fpu>(layers: Seq<Box<dyn Module<F>>>, k: int, input: Tensor, steps: Seq<Node>)
    requires
        0 <= k < layers.len(),
        1 + joined_params(layers, layers.len() as int).len() + steps.len() <= usize::MAX,
    ensures
        ({
            let all = joined_params(layers, layers.len() as int);
            let ops = module_operands(input.spec_shape(), all);
            let ids = module_ids(layers, k, current_number(ops.len() as int, steps));
            &&& ops.len() == 1 + all.len()
            &&& trace::step_shapes(ops, steps, ids) == module_operands(
                output_of(input, steps).spec_shape(),
                layers[k].param_list(),
            )
            &&& forall|j: int| 0 <= j < ids.len() ==> #[trigger] ids[j] < ops.len() + steps.len()
        }),
{
    let all = joined_params(layers, layers.len() as int);
    let ops = module_operands(input.spec_shape(), all);
    let current = current_number(ops.len() as int, steps);
    let ids = module_ids(layers, k, current);
    let own = layers[k].param_list();
    let start = joined_params(layers, k).len();
    lemma_params_monotone(layers, k + 1, layers.len() as int);
    assert(joined_params(layers, k + 1) == joined_params(layers, k) + own);
    let want = module_operands(output_of(input, steps).spec_shape(), own);
    assert forall|j: int| 0 <= j < ids.len() implies trace::step_shapes(ops, steps, ids)[j] == want[j] && ids[j] < ops.len()
        + steps.len() by {
        if j > 0 {
            assert(ids[j] == 1 + start + (j - 1));
            assert(joined_params(layers, k + 1)[start + (j - 1)] == own[j - 1]);
            assert(all[start + (j - 1)] == own[j - 1]);
        }
    }
    assert(trace::step_shapes(ops, steps, ids) =~= want);
}

impl<F: Fpu> Sequential<F> {
    pub fn new(layers: Vec<Box<dyn Module<F>>>) -> (s: Sequential<F>)
        ensures
            s.layers == layers,
    {
        Sequential { layers }
    }

    /// The numbers of what a module computes with.
    fn numbers(&self, k: usize, current: usize, start: usize, count: usize) -> (ids: Vec<usize>)
        requires
            k < self.layers@.len(),
            start == 1 + joined_params(self.layers@, k as int).len(),
            count == self.layers@[k as int].param_list().len(),
            start + count <= usize::MAX,
        ensures
            ids@ == module_ids(self.layers@, k as int, current as int),
    {
        let mut ids: Vec<usize> = vec![current];
        for i in 0..count
            invariant
                start + count <= usize::MAX,
                ids@.len() == 1 + i,
                ids@[0] == current,
                forall|j: int| 0 < j < ids@.len() ==> #[trigger] ids@[j] == start + (j - 1),
        {
            ids.push(start + i);
        }
        assert(ids@ =~= module_ids(self.layers@, k as int, current as int));
        ids
    }
}

impl<F: Fpu> Module<F> for Sequential<F> {
    open spec fn valid(&self) -> bool {
        forall|k: int| 0 <= k < self.layers@.len() ==> (#[trigger] self.layers@[k]).valid()
    }

    open spec fn param_list(&self) -> Seq<Tensor> {
        joined_params(self.layers@, self.layers@.len() as int)
    }

    open spec fn computes(&self, params: Seq<Tensor>, f: &F, input: Tensor, mode: GradMode, r: Result<Seq<Node>, ModuleError>) -> bool {
        sequence_computes(f, self.layers@, params, input, mode, r)
    }

    fn forward(&self, input: &Tensor, mode: &GradMode, f: &F) -> (r: Result<Vec<Node>, ModuleError>) {
        let all = self.parameters();
        let n_params: usize = all.len();
        let mut steps: Vec<Node> = Vec::new();
        let mut start: usize = 0;
        let ghost layers = self.layers@;
        let ghost ops = module_operands(input.spec_shape(), self.param_list());
        for k in 0..self.layers.len()
            invariant
                layers == self.layers@,
                self.valid(),
                input.wf(),
                all@ == self.param_list(),
                n_params == all@.len(),
                ops == module_operands(input.spec_shape(), self.param_list()),
                start == joined_params(layers, k as int).len(),
                steps@.len() > 0 ==> trace::steps_wf(ops, steps@),
                runs(f, layers, all@, k as int, *input, *mode, steps@),
        {
            let done: usize = steps.len();
            let ghost before = steps@;
            let current: Tensor = if done == 0 { input.clone() } else { steps[done - 1].tensor.clone() };
            proof {
                assert(current == output_of(*input, before));
                if done > 0 {
                    assert(trace::step_wf(ops, before, done - 1));
                }
                assert(layers[k as int].valid());
                lemma_own_params(layers, k as int);
            }
            let sub = match self.layers[k].forward(&current, mode, f) {
                Ok(sub) => sub,
                Err(e) => {
                    proof {
                        assert(layers[k as int].computes(own_params(layers, all@, k as int), f, output_of(*input, before), *mode, Err(e)));
                        assert(stops(f, layers, all@, *input, *mode, e));
                    }
                    return Err(e);
                },
            };
            let own = self.layers[k].parameters();
            let count: usize = own.len();
            let room: usize = usize::MAX - n_params;
            if room < 1 || done > room - 1 || sub.len() > room - 1 - done {
                proof {
                    assert(layers[k as int].computes(own_params(layers, all@, k as int), f, output_of(*input, before), *mode, Ok(sub@)));
                    assert(overflows(f, layers, all@, k as int, *input, *mode, before));
                    assert(stops(f, layers, all@, *input, *mode, ModuleError::TooLarge));
                }
                return Err(ModuleError::TooLarge);
            }
            let n_ops: usize = 1 + n_params;
            proof {
                lemma_params_monotone(layers, k + 1, layers.len() as int);
                assert(joined_params(layers, k + 1) == joined_params(layers, k as int) + own@);
                lemma_module_operands(layers, k as int, *input, before);
            }
            let number: usize = if done == 0 { 0 } else { n_ops + done - 1 };
            let ids: Vec<usize> = self.numbers(k, number, 1 + start, count);
            if sub.len() > 0 {
                splice(&mut steps, n_ops, &ids, &sub, Ghost(ops));
            }
            start = start + count;
            proof {
                assert(runs_one(f, layers, all@, (k + 1) - 1, *input, *mode, before, sub@, steps@));
            }
        }
        Ok(steps)
    }

    fn is_valid(&self) -> (r: bool) {
        for k in 0..self.layers.len()
            invariant
                forall|j: int| 0 <= j < k ==> (#[trigger] self.layers@[j]).valid(),
        {
            if !self.layers[k].is_valid() {
                assert(!self.layers@[k as int].valid());
                return false;
            }
        }
        true
    }

    fn parameters(&self) -> (p: Vec<Tensor>) {
        let mut p: Vec<Tensor> = Vec::new();
        for k in 0..self.layers.len()
            invariant
                p@ == joined_params(self.layers@, k as int),
        {
            let mut own = self.layers[k].parameters();
            p.append(&mut own);
        }
        p
    }

    fn replace_parameters(&mut self, params: &Vec<Tensor>) {
        let ghost before = self.layers@;
        let n: usize = self.layers.len();
        let total: usize = params.len();
        let mut start: usize = 0;
        for k in 0..n
            invariant
                total == params@.len(),
                n == self.layers@.len() == before.len(),
                params@.len() == joined_params(before, n as int).len(),
                start == joined_params(before, k as int).len(),
                forall|j: int| 0 <= j < k ==> (#[trigger] self.layers@[j]).param_list() == own_params(before, params@, j),
                forall|j: int| k <= j < n ==> #[trigger] self.layers@[j] == before[j],
                forall|j: int| 0 <= j < n ==> #[trigger] same_pass(before, self.layers@, j),
                forall|j: int|
                    0 <= j < k ==> before[j].valid() && fit(before[j].param_list(), own_params(before, params@, j)) ==> (
                    #[trigger] self.layers@[j]).valid(),
        {
            let own = self.layers[k].parameters();
            let count: usize = own.len();
            proof {
                lemma_params_monotone(before, k + 1, n as int);
                assert(joined_params(before, k + 1) == joined_params(before, k as int) + own@);
            }
            let part: Vec<Tensor> = tensors_from(params, start, count);
            assert(part@ == own_params(before, params@, k as int));
            let ghost current = self.layers@;
            let layer = &mut self.layers[k];
            layer.replace_parameters(&part);
            start = start + count;
            proof {
                assert forall|j: int| 0 <= j < n implies #[trigger] same_pass(before, self.layers@, j) by {
                    assert(same_pass(before, current, j));
                    if j != k {
                        assert(self.layers@[j] == current[j]);
                    }
                }
            }
        }
        proof {
            lemma_replaced_params(before, self.layers@, params@, n as int);
            assert(params@.subrange(0, params@.len() as int) =~= params@);
            assert forall|p: Seq<Tensor>, f: &F, input: Tensor, mode: GradMode, r: Result<Seq<Node>, ModuleError>| #[trigger]
                self.computes(p, f, input, mode, r) == old(self).computes(p, f, input, mode, r) by {
                lemma_same_sequence(f, before, self.layers@, p, input, mode, r);
            }
            if old(self).valid() && fit(old(self).param_list(), params@) {
                assert forall|k: int| 0 <= k < n implies (#[trigger] self.layers@[k]).valid() by {
                    assert(before[k].valid());
                    lemma_fit_part(before, params@, k);
                }
            }
        }
    }

    /// Switches all modules to training.
    fn train_mode(&mut self, mode: &mut GradMode)
        ensures
            *final(mode) == switched(*old(mode), false),
    {
        set_inference_mode(mode, false);
        let ghost before = self.layers@;
        let n: usize = self.layers.len();
        for k in 0..n
            invariant
                n == self.layers@.len() == before.len(),
                *mode == switched(*old(mode), false),
                forall|j: int|
                    0 <= j < n ==> (#[trigger] self.layers@[j]).param_list() == before[j].param_list(),
                forall|j: int| 0 <= j < n ==> before[j].valid() ==> (#[trigger] self.layers@[j]).valid(),
        {
            let layer = &mut self.layers[k];
            layer.train_mode(mode);
        }
        proof {
            lemma_same_params(before, self.layers@, n as int);
        }
    }

    /// Switches all modules to inference.
    fn eval_mode(&mut self, mode: &mut GradMode)
        ensures
            *final(mode) == switched(*old(mode), true),
    {
        set_inference_mode(mode, true);
        let ghost before = self.layers@;
        let n: usize = self.layers.len();
        for k in 0..n
            invariant
                n == self.layers@.len() == before.len(),
                *mode == switched(*old(mode), true),
                forall|j: int|
                    0 <= j < n ==> (#[trigger] self.layers@[j]).param_list() == before[j].param_list(),
                forall|j: int| 0 <= j < n ==> before[j].valid() ==> (#[trigger] self.layers@[j]).valid(),
        {
            let layer = &mut self.layers[k];
            layer.eval_mode(mode);
        }
        proof {
            lemma_same_params(before, self.layers@, n as int);
        }
    }
}

/// Some tensors of a list.
fn tensors_from(list: &Vec<Tensor>, start: usize, count: usize) -> (part: Vec<Tensor>)
    requires
        start + count <= list@.len(),
    ensures
        part@ == list@.subrange(start as int, start + count),
{
    let len: usize = list.len();
    let mut part: Vec<Tensor> = Vec::with_capacity(count);
    for i in 0..count
        invariant
            len == list@.len(),
            start + count <= list@.len(),
            part@ == list@.subrange(start as int, start + i),
    {
        part.push(list[start + i].clone());
        assert(part@ =~= list@.subrange(start as int, start + i + 1));
    }
    part
}

/// The modules at a place compute the same with the same parameters, and have as many.
pub open spec fn same_pass<F: Fpu>(a: Seq<Box<dyn Module<F>>>, b: Seq<Box<dyn Module<F>>>, j: int) -> bool {
    &&& b[j].param_list().len() == a[j].param_list().len()
    &&& forall|p: Seq<Tensor>, f: &F, input: Tensor, mode: GradMode, r: Result<Seq<Node>, ModuleError>| #[trigger]
        b[j].computes(p, f, input, mode, r) == a[j].computes(p, f, input, mode, r)
}

proof fn lemma_same_counts<F: Fpu>(a: Seq<Box<dyn Module<F>>>, b: Seq<Box<dyn Module<F>>>, n: int)
    requires
        0 <= n <= a.len(),
        a.len() == b.len(),
        forall|j: int| 0 <= j < a.len() ==> #[trigger] same_pass(a, b, j),
    ensures
        joined_params(a, n).len() == joined_params(b, n).len(),
    decreases n,
{
    if n > 0 {
        lemma_same_counts(a, b, n - 1);
        assert(same_pass(a, b, n - 1));
    }
}

/// What modules are handed, one behind the other, is what all of them hold.
proof fn lemma_replaced_params<F: Fpu>(
    a: Seq<Box<dyn Module<F>>>,
    b: Seq<Box<dyn Module<F>>>,
    params: Seq<Tensor>,
    n: int,
)
    requires
        0 <= n <= a.len(),
        a.len() == b.len(),
        params.len() == joined_params(a, a.len() as int).len(),
        forall|j: int| 0 <= j < a.len() ==> (#[trigger] b[j]).param_list() == own_params(a, params, j),
    ensures
        joined_params(b, n) == params.subrange(0, joined_params(a, n).len() as int),
    decreases n,
{
    if n > 0 {
        lemma_replaced_params(a, b, params, n - 1);
        lemma_params_monotone(a, n - 1, n);
        lemma_params_monotone(a, n, a.len() as int);
        assert(b[n - 1].param_list() == own_params(a, params, n - 1));
        assert(joined_params(b, n) =~= params.subrange(0, joined_params(a, n).len() as int));
    } else {
        assert(joined_params(b, n) =~= params.subrange(0, 0));
    }
}

/// Tensors that fit in the places of all parameters fit in those of each module.
proof fn lemma_fit_part<F: Fpu>(layers: Seq<Box<dyn Module<F>>>, params: Seq<Tensor>, k: int)
    requires
        0 <= k < layers.len(),
        fit(joined_params(layers, layers.len() as int), params),
    ensures
        fit(layers[k].param_list(), own_params(layers, params, k)),
{
    let all = joined_params(layers, layers.len() as int);
    let own = layers[k].param_list();
    let start = joined_params(layers, k).len();
    lemma_params_monotone(layers, k + 1, layers.len() as int);
    assert(joined_params(layers, k + 1) == joined_params(layers, k) + own);
    let part = own_params(layers, params, k);
    assert forall|i: int| 0 <= i < part.len() implies fits_in(own[i], #[trigger] part[i]) by {
        assert(part[i] == params[start + i]);
        assert(joined_params(layers, k + 1)[start + i] == own[i]);
        assert(fits_in(all[start + i], params[start + i]));
    }
}

/// The parameters of a module are its own among those of all.
proof fn lemma_own_params<F: Fpu>(layers: Seq<Box<dyn Module<F>>>, k: int)
    requires
        0 <= k < layers.len(),
    ensures
        own_params(layers, joined_params(layers, layers.len() as int), k) == layers[k].param_list(),
{
    let all = joined_params(layers, layers.len() as int);
    let own = layers[k].param_list();
    let start = joined_params(layers, k).len();
    lemma_params_monotone(layers, k + 1, layers.len() as int);
    assert(joined_params(layers, k + 1) == joined_params(layers, k) + own);
    assert forall|i: int| 0 <= i < own.len() implies own_params(layers, all, k)[i] == own[i] by {
        assert(joined_params(layers, k + 1)[start + i] == own[i]);
    }
    assert(own_params(layers, all, k) =~= own);
}

proof fn lemma_same_runs<F: Fpu>(
    f: &F,
    a: Seq<Box<dyn Module<F>>>,
    b: Seq<Box<dyn Module<F>>>,
    params: Seq<Tensor>,
    n: int,
    input: Tensor,
    mode: GradMode,
    steps: Seq<Node>,
)
    requires
        0 <= n <= a.len(),
        a.len() == b.len(),
        forall|j: int| 0 <= j < a.len() ==> #[trigger] same_pass(a, b, j),
    ensures
        runs(f, a, params, n, input, mode, steps) == runs(f, b, params, n, input, mode, steps),
    decreases n,
{
    if n > 0 {
        lemma_same_counts(a, b, n - 1);
        lemma_same_counts(a, b, n);
        lemma_same_counts(a, b, a.len() as int);
        assert(same_pass(a, b, n - 1));
        assert(own_params(a, params, n - 1) == own_params(b, params, n - 1));
        assert forall|before: Seq<Node>, sub: Seq<Node>|
            #![trigger runs_one(f, a, params, n - 1, input, mode, before, sub, steps)]
            #![trigger runs_one(f, b, params, n - 1, input, mode, before, sub, steps)]
            runs_one(f, a, params, n - 1, input, mode, before, sub, steps) == runs_one(
                f,
                b,
                params,
                n - 1,
                input,
                mode,
                before,
                sub,
                steps,
            ) && runs(f, a, params, n - 1, input, mode, before) == runs(f, b, params, n - 1, input, mode, before) by {
            lemma_same_runs(f, a, b, params, n - 1, input, mode, before);
            let n_ops = 1 + joined_params(a, a.len() as int).len();
            let current = current_number(n_ops as int, before);
            assert(module_ids(a, n - 1, current) =~= module_ids(b, n - 1, current));
            assert(b[n - 1].computes(own_params(a, params, n - 1), f, output_of(input, before), mode, Ok(sub))
                == a[n - 1].computes(own_params(a, params, n - 1), f, output_of(input, before), mode, Ok(sub)));
        }
    }
}

/// Modules that compute the same compute the same one behind the other.
proof fn lemma_same_sequence<F: Fpu>(
    f: &F,
    a: Seq<Box<dyn Module<F>>>,
    b: Seq<Box<dyn Module<F>>>,
    params: Seq<Tensor>,
    input: Tensor,
    mode: GradMode,
    r: Result<Seq<Node>, ModuleError>,
)
    requires
        a.len() == b.len(),
        forall|j: int| 0 <= j < a.len() ==> #[trigger] same_pass(a, b, j),
    ensures
        sequence_computes(f, a, params, input, mode, r) == sequence_computes(f, b, params, input, mode, r),
{
    match r {
        Ok(steps) => {
            lemma_same_runs(f, a, b, params, a.len() as int, input, mode, steps);
        },
        Err(e) => {
            assert forall|k: int, before: Seq<Node>|
                #![trigger runs(f, a, params, k, input, mode, before)]
                #![trigger runs(f, b, params, k, input, mode, before)]
                0 <= k < a.len() implies runs(f, a, params, k, input, mode, before) == runs(
                f,
                b,
                params,
                k,
                input,
                mode,
                before,
            ) && stops_at(f, a, params, k, input, mode, before, e) == stops_at(f, b, params, k, input, mode, before, e) by {
                lemma_same_runs(f, a, b, params, k, input, mode, before);
                lemma_same_counts(a, b, k);
                lemma_same_counts(a, b, k + 1);
                lemma_same_counts(a, b, a.len() as int);
                assert(same_pass(a, b, k));
                let own = own_params(a, params, k);
                assert(own == own_params(b, params, k));
                let x = output_of(input, before);
                assert(b[k].computes(own, f, x, mode, Err(e)) == a[k].computes(own, f, x, mode, Err(e)));
                assert forall|sub: Seq<Node>|
                    #![trigger a[k].computes(own, f, x, mode, Ok(sub))]
                    #![trigger b[k].computes(own, f, x, mode, Ok(sub))]
                    b[k].computes(own, f, x, mode, Ok(sub)) == a[k].computes(own, f, x, mode, Ok(sub)) by {}
            }
        },
    }
}

/// Modules that keep their parameters keep those of all.
proof fn lemma_same_params<F: Fpu>(a: Seq<Box<dyn Module<F>>>, b: Seq<Box<dyn Module<F>>>, n: int)
    requires
        0 <= n <= a.len(),
        a.len() == b.len(),
        forall|j: int| 0 <= j < a.len() ==> (#[trigger] b[j]).param_list() == a[j].param_list(),
    ensures
        joined_params(a, n) == joined_params(b, n),
    decreases n,
{
    if n > 0 {
        lemma_same_params(a, b, n - 1);
        assert(b[n - 1].param_list() == a[n - 1].param_list());
    }
}

} // verus!
