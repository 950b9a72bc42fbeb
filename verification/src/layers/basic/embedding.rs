use crate::array::NdArray;
use crate::autograd;
use crate::autograd::{is_no_grad, BackwardOp, GradMode, Tensor, TensorStorage};
use crate::dims;
use crate::dims::same_extents;
use crate::dims::element_count;
use crate::float_bits;
use crate::float_bits::whole_magnitude;
use crate::fpu::Fpu;
use crate::ops::mat;
use crate::ops::patches;
use crate::ops::scatter;
use crate::ops::scatter::scatter_add;
use crate::precision::{DType, PrecisionConfig};
use std::sync::Arc;
use vstd::prelude::*;

verus! {

/// A table with one row for each token.
pub struct Embedding {
    pub weight: Tensor,
    pub vocab_size: usize,
    pub embed_dim: usize,
}

/// Why a value is no index into the table.
#[derive(Clone, Copy, Debug, PartialEq, Eq, Structural)]
pub enum IndexError {
    NotFinite,
    Negative,
    NotInteger,
    OutOfBounds,
}

/// The first value that is no index, and where it stands.
#[derive(Clone, Copy, Debug, PartialEq, Eq, Structural)]
pub struct EmbeddingError {
    pub position: usize,
    pub reason: IndexError,
}

/// The index that a single-precision value stands for.
pub open spec fn index_of(value: u32, vocab_size: int) -> Result<nat, IndexError> {
    if !float_bits::is_finite(value) {
        Err(IndexError::NotFinite)
    } else if float_bits::order_key(value) < 0 {
        Err(IndexError::Negative)
    } else if !float_bits::is_whole(value) {
        Err(IndexError::NotInteger)
    } else if float_bits::whole_value(value) >= vocab_size {
        Err(IndexError::OutOfBounds)
    } else {
        Ok(float_bits::whole_value(value))
    }
}

/// Reads a value as an index into a table.
pub fn parse_embedding_index(value: u32, vocab_size: usize) -> (r: Result<usize, IndexError>)
    ensures
        match index_of(value, vocab_size as int) {
            Ok(i) => r matches Ok(v) && v == i,
            Err(e) => r == Err::<usize, IndexError>(e),
        },
        r matches Ok(v) ==> v < vocab_size,
{
    if (value / 0x80_0000) % 256 == 255 {
        return Err(IndexError::NotFinite);
    }
    if value > 0x8000_0000 {
        return Err(IndexError::Negative);
    }
    match whole_magnitude(value, vocab_size) {
        None => Err(IndexError::NotInteger),
        Some(v) => if v >= vocab_size {
            Err(IndexError::OutOfBounds)
        } else {
            Ok(v)
        },
    }
}

/// The first of the leading `n` values that is no index.
pub open spec fn first_bad_index(values: Seq<u32>, vocab_size: int, n: int) -> Option<EmbeddingError>
    decreases n,
{
    if n <= 0 {
        None
    } else if first_bad_index(values, vocab_size, n - 1) is Some {
        first_bad_index(values, vocab_size, n - 1)
    } else {
        match index_of(values[n - 1], vocab_size) {
            Ok(_) => None,
            Err(reason) => Some(EmbeddingError { position: (n - 1) as usize, reason }),
        }
    }
}

proof fn lemma_first_bad_stays(values: Seq<u32>, vocab_size: int, n: int, m: int)
    requires
        0 <= n <= m,
        first_bad_index(values, vocab_size, n) is Some,
    ensures
        first_bad_index(values, vocab_size, m) == first_bad_index(values, vocab_size, n),
    decreases m,
{
    if n < m {
        lemma_first_bad_stays(values, vocab_size, n, m - 1);
    }
}

/// Each value read as an index.
pub open spec fn reads_indices(values: Seq<u32>, vocab_size: int, ids: Seq<usize>) -> bool {
    &&& ids.len() == values.len()
    &&& forall|i: int|
        0 <= i < ids.len() ==> index_of(values[i], vocab_size) == Ok::<nat, IndexError>(#[trigger] ids[i] as nat)
}

/// Reads all values as indices.
pub fn parse_indices(values: &Vec<u32>, vocab_size: usize) -> (r: Result<Vec<usize>, EmbeddingError>)
    ensures
        match first_bad_index(values@, vocab_size as int, values@.len() as int) {
            Some(e) => r == Err::<Vec<usize>, EmbeddingError>(e),
            None => r matches Ok(ids) && reads_indices(values@, vocab_size as int, ids@),
        },
        r matches Ok(ids) ==> forall|i: int| 0 <= i < ids@.len() ==> #[trigger] ids@[i] < vocab_size,
{
    let mut ids: Vec<usize> = Vec::with_capacity(values.len());
    for i in 0..values.len()
        invariant
            ids@.len() == i,
            first_bad_index(values@, vocab_size as int, i as int) is None,
            forall|j: int|
                0 <= j < i ==> index_of(values@[j], vocab_size as int) == Ok::<nat, IndexError>(#[trigger] ids@[j] as nat),
            forall|j: int| 0 <= j < i ==> #[trigger] ids@[j] < vocab_size,
    {
        match parse_embedding_index(values[i], vocab_size) {
            Ok(v) => {
                ids.push(v);
            },
            Err(reason) => {
                proof {
                    assert(first_bad_index(values@, vocab_size as int, i + 1) is Some);
                    lemma_first_bad_stays(values@, vocab_size as int, i + 1, values@.len() as int);
                }
                return Err(EmbeddingError { position: i, reason });
            },
        }
    }
    Ok(ids)
}

/// Row `i` of `r` is row `ids[i]` of the table.
pub open spec fn is_lookup<T>(table: &NdArray<T>, ids: Seq<usize>, shape: Seq<usize>, r: &NdArray<T>) -> bool {
    let dim = shape.last() as int;
    &&& r.wf()
    &&& r.shape@ == shape
    &&& forall|i: int, j: int|
        0 <= i < ids.len() && 0 <= j < dim ==> #[trigger] r.data@[i * dim + j] == table.data@[ids[i] * dim + j]
}

/// Extents of a lookup: those of the indices, and the width of the table.
pub open spec fn lookup_shape(indices: Seq<usize>, dim: usize) -> Seq<usize> {
    indices.push(dim)
}

/// The rows of a table that the indices name.
fn lookup<T: Copy>(table: &NdArray<T>, ids: &Vec<usize>, shape: Vec<usize>, dim: usize) -> (r: NdArray<T>)
    requires
        table.wf(),
        table.shape@.len() == 2,
        table.shape@[1] == dim,
        shape@.len() > 0,
        shape@.last() == dim,
        dims::fits(shape@),
        dims::product(shape@) == ids@.len() * dim,
        forall|i: int| 0 <= i < ids@.len() ==> #[trigger] ids@[i] < table.shape@[0],
    ensures
        is_lookup(table, ids@, shape@, &r),
{
    let len: usize = table.data.len();
    let total: usize = element_count(&shape);
    let mut data: Vec<T> = Vec::with_capacity(total);
    proof {
        dims::lemma_product2(table.shape@);
        assert(0 * dim == 0) by (nonlinear_arith);
    }
    for i in 0..ids.len()
        invariant
            len == table.data@.len() == table.shape@[0] * dim,
            total == ids@.len() * dim,
            forall|i: int| 0 <= i < ids@.len() ==> #[trigger] ids@[i] < table.shape@[0],
            data@.len() == i * dim,
            forall|p: int, q: int|
                0 <= p < i && 0 <= q < dim ==> #[trigger] data@[p * dim + q] == table.data@[ids@[p] * dim + q],
    {
        let id: usize = ids[i];
        assert(ids@[i as int] < table.shape@[0]);
        for j in 0..dim
            invariant
                len == table.data@.len() == table.shape@[0] * dim,
                i < ids@.len(),
                id == ids@[i as int],
                id < table.shape@[0],
                data@.len() == i * dim + j,
                forall|p: int, q: int|
                    0 <= p < i && 0 <= q < dim ==> #[trigger] data@[p * dim + q] == table.data@[ids@[p] * dim + q],
                forall|q: int| 0 <= q < j ==> #[trigger] data@[i * dim + q] == table.data@[id * dim + q],
        {
            let ghost before = data@;
            proof {
                mat::lemma_row_major(id as int, j as int, table.shape@[0] as int, dim as int);
            }
            data.push(table.data[id * dim + j]);
            proof {
                assert forall|p: int, q: int| 0 <= p < i && 0 <= q < dim implies #[trigger] data@[p * dim + q]
                    == table.data@[ids@[p] * dim + q] by {
                    mat::lemma_row_major(p, q, i as int, dim as int);
                    assert(data@[p * dim + q] == before[p * dim + q]);
                }
                assert forall|q: int| 0 <= q < j + 1 implies #[trigger] data@[i * dim + q] == table.data@[id * dim + q] by {
                    if q < j {
                        assert(data@[i * dim + q] == before[i * dim + q]);
                    }
                }
            }
        }
        proof {
            assert((i + 1) * dim == i * dim + dim) by (nonlinear_arith);
            assert forall|p: int, q: int| 0 <= p < i + 1 && 0 <= q < dim implies #[trigger] data@[p * dim + q]
                == table.data@[ids@[p] * dim + q] by {
                if p == i {
                    assert(data@[i * dim + q] == table.data@[id * dim + q]);
                }
            }
        }
    }
    NdArray { shape, data }
}

/// What `t` holds are the rows of the table, in the precision of the table.
pub open spec fn storage_lookup(table: TensorStorage, ids: Seq<usize>, shape: Seq<usize>, r: TensorStorage) -> bool {
    match (table, r) {
        (TensorStorage::F32(a), TensorStorage::F32(b)) => is_lookup(&*a, ids, shape, &*b),
        (TensorStorage::F16(a), TensorStorage::F16(b)) => is_lookup(&*a, ids, shape, &*b),
        (TensorStorage::BF16(a), TensorStorage::BF16(b)) => is_lookup(&*a, ids, shape, &*b),
        (TensorStorage::I8(a, p), TensorStorage::I8(b, q)) => is_lookup(&*a, ids, shape, &*b) && p == q,
        _ => false,
    }
}

/// Where each element of the gradient goes: into the row of its index.
pub open spec fn row_targets(ids: Seq<usize>, dim: int) -> Seq<usize> {
    Seq::new((ids.len() * dim) as nat, |t: int| (ids[t / dim] * dim + t % dim) as usize)
}

/// The indices of a recorded lookup.
pub struct EmbeddingBackward {
    pub ids: Vec<usize>,
    pub index_shape: Vec<usize>,
    pub vocab_size: usize,
    pub embed_dim: usize,
}

impl EmbeddingBackward {
    pub open spec fn suits(&self, out: Seq<usize>, operands: Seq<Seq<usize>>) -> bool {
        &&& operands == seq![self.index_shape@, seq![self.vocab_size, self.embed_dim]]
        &&& out == lookup_shape(self.index_shape@, self.embed_dim)
        &&& dims::fits(seq![self.vocab_size, self.embed_dim])
        &&& self.ids@.len() == dims::product(self.index_shape@)
        &&& forall|i: int| 0 <= i < self.ids@.len() ==> #[trigger] self.ids@[i] < self.vocab_size
    }

    /// Each row of the table receives the sum of the gradients of its uses.
    pub open spec fn sends<F: Fpu>(&self, f: &F, g: NdArray<u32>, r: NdArray<u32>) -> bool {
        &&& r.wf()
        &&& r.shape@ == seq![self.vocab_size, self.embed_dim]
        &&& scatter::scattered(f, row_targets(self.ids@, self.embed_dim as int), g.data@, r.data@)
    }

    pub fn gradient<F: Fpu>(&self, g: &NdArray<u32>, f: &F) -> (r: NdArray<u32>)
        requires
            g.wf(),
            self.suits(g.shape@, seq![self.index_shape@, seq![self.vocab_size, self.embed_dim]]),
        ensures
            self.sends(f, *g, r),
    {
        let dim: usize = self.embed_dim;
        let n: usize = g.data.len();
        let shape: Vec<usize> = vec![self.vocab_size, dim];
        proof {
            assert(shape@ =~= seq![self.vocab_size, self.embed_dim]);
            dims::lemma_product2(shape@);
            assert(g.shape@.drop_last() =~= self.index_shape@);
            dims::lemma_product_bounded_by_volume(shape@);
        }
        let size: usize = element_count(&shape);
        let mut targets: Vec<usize> = Vec::with_capacity(n);
        for t in 0..n
            invariant
                n == self.ids@.len() * dim,
                dim == self.embed_dim,
                size == self.vocab_size * dim,
                forall|i: int| 0 <= i < self.ids@.len() ==> #[trigger] self.ids@[i] < self.vocab_size,
                targets@ == row_targets(self.ids@, dim as int).take(t as int),
                forall|i: int| 0 <= i < targets@.len() ==> #[trigger] targets@[i] < size,
        {
            proof {
                patches::lemma_position(t as int, self.ids@.len() as int, dim as int);
            }
            let id: usize = self.ids[t / dim];
            proof {
                assert(self.ids@[t as int / dim as int] < self.vocab_size);
                mat::lemma_row_major(id as int, t as int % dim as int, self.vocab_size as int, dim as int);
            }
            targets.push(id * dim + t % dim);
            assert(targets@ =~= row_targets(self.ids@, dim as int).take(t + 1));
        }
        assert(targets@ =~= row_targets(self.ids@, dim as int));
        let data: Vec<u32> = scatter_add(&targets, &g.data, size, f);
        NdArray { shape, data }
    }
}

impl Embedding {
    /// The table has the extents that are recorded beside it.
    pub open spec fn wf(&self) -> bool {
        &&& self.weight.wf()
        &&& self.weight.spec_shape() == seq![self.vocab_size, self.embed_dim]
    }

    /// Whether the table is sound.
    pub fn is_sound(&self) -> (r: bool)
        ensures
            r == self.wf(),
    {
        let want: Vec<usize> = vec![self.vocab_size, self.embed_dim];
        assert(want@ =~= seq![self.vocab_size, self.embed_dim]);
        let own: Vec<usize> = self.weight.shape_vec();
        self.weight.is_sound() && same_extents(&own, &want)
    }

    /// The table with other values.
    pub open spec fn with_parameters(&self, params: Seq<Tensor>) -> Embedding {
        Embedding { weight: params[0], ..*self }
    }

    /// A table of initial values, in the precision of parameters.
    pub fn new<F: Fpu>(values: NdArray<u32>, precision: &PrecisionConfig, f: &F) -> (e: Embedding)
        requires
            values.wf(),
            values.shape@.len() == 2,
        ensures
            e.wf(),
            e.vocab_size == values.shape@[0],
            e.embed_dim == values.shape@[1],
            e.weight.is_leaf(e.weight.storage, true),
            autograd::stored_as(f, values, precision.parameter_dtype, e.weight.storage),
    {
        Embedding::new_with_dtype(values, precision.parameter_dtype, f)
    }

    /// A table of initial values, in the given precision.
    pub fn new_with_dtype<F: Fpu>(values: NdArray<u32>, dtype: DType, f: &F) -> (e: Embedding)
        requires
            values.wf(),
            values.shape@.len() == 2,
        ensures
            e.wf(),
            e.vocab_size == values.shape@[0],
            e.embed_dim == values.shape@[1],
            e.weight.is_leaf(e.weight.storage, true),
            autograd::stored_as(f, values, dtype, e.weight.storage),
    {
        let vocab_size: usize = values.shape[0];
        let embed_dim: usize = values.shape[1];
        assert(values.shape@ =~= seq![vocab_size, embed_dim]);
        let weight = Tensor::parameter_with_dtype(f, values, dtype);
        Embedding { weight, vocab_size, embed_dim }
    }

    /// The rows of the table that the indices name. Where nothing is recorded, the
    /// precision of the table stays.
    pub fn forward<F: Fpu>(&self, indices: &Tensor, mode: &GradMode, f: &F) -> (r: Result<Tensor, EmbeddingError>)
        requires
            self.wf(),
            indices.wf(),
            dims::fits(lookup_shape(indices.spec_shape(), self.embed_dim)),
        ensures
            self.looked_up(f, *indices, *mode, r),
    {
        let values = indices.data_arc(f);
        let ids: Vec<usize> = match parse_indices(&values.data, self.vocab_size) {
            Ok(ids) => ids,
            Err(e) => {
                assert(self.refused(f, *indices, e)) by {
                    assert(autograd::reads_as(f, indices.storage, *values));
                }
                return Err(e);
            },
        };
        let mut shape: Vec<usize> = indices.shape_vec();
        shape.push(self.embed_dim);
        assert(shape@.drop_last() =~= indices.spec_shape());
        assert(autograd::reads_as(f, indices.storage, *values) && reads_indices(
            values.data@,
            self.vocab_size as int,
            ids@,
        ));
        if is_no_grad(mode) || !self.weight.requires_grad() {
            let storage = match &self.weight.storage {
                TensorStorage::F32(a) => TensorStorage::F32(Arc::new(lookup(a, &ids, shape, self.embed_dim))),
                TensorStorage::F16(a) => TensorStorage::F16(Arc::new(lookup(a, &ids, shape, self.embed_dim))),
                TensorStorage::BF16(a) => TensorStorage::BF16(Arc::new(lookup(a, &ids, shape, self.embed_dim))),
                TensorStorage::I8(a, step) => TensorStorage::I8(
                    Arc::new(lookup(a, &ids, shape, self.embed_dim)),
                    *step,
                ),
            };
            let t = Tensor::from_storage_no_grad(storage);
            assert(self.found(f, *indices, *mode, ids@, t));
            return Ok(t);
        }
        let table = self.weight.data_arc(f);
        let rows = lookup(&table, &ids, shape, self.embed_dim);
        let index_shape: Vec<usize> = indices.shape_vec();
        let ghost ids_seen = ids@;
        let back = EmbeddingBackward { ids, index_shape, vocab_size: self.vocab_size, embed_dim: self.embed_dim };
        proof {
            assert(seq![indices.spec_shape(), self.weight.spec_shape()] =~= seq![
                back.index_shape@,
                seq![back.vocab_size, back.embed_dim],
            ]);
        }
        let t = Tensor::recorded(rows, BackwardOp::Embedding(back));
        proof {
            assert(single_lookup(f, self.weight.storage, ids_seen, t.spec_shape(), t.storage)) by {
                assert(autograd::reads_as(f, self.weight.storage, *table));
            }
            assert(self.found(f, *indices, *mode, ids_seen, t));
        }
        Ok(t)
    }

    /// The index at which reading the indices fails.
    pub open spec fn refused<F: Fpu>(&self, f: &F, indices: Tensor, e: EmbeddingError) -> bool {
        exists|values: NdArray<u32>| #[trigger]
            autograd::reads_as(f, indices.storage, values) && first_bad_index(
                values.data@,
                self.vocab_size as int,
                values.data@.len() as int,
            ) == Some(e)
    }

    /// `t` holds the rows that the indices name.
    pub open spec fn found<F: Fpu>(&self, f: &F, indices: Tensor, mode: GradMode, ids: Seq<usize>, t: Tensor) -> bool {
        &&& indices_read(f, indices, self.vocab_size as int, ids)
        &&& t.wf()
        &&& t.spec_shape() == lookup_shape(indices.spec_shape(), self.embed_dim)
        &&& if mode.no_grad() || !self.weight.requires_grad {
            t.is_leaf(t.storage, false) && storage_lookup(self.weight.storage, ids, t.spec_shape(), t.storage)
        } else {
            &&& t.requires_grad && t.grad is None
            &&& single_lookup(f, self.weight.storage, ids, t.spec_shape(), t.storage)
            &&& t.op matches Some(op) && *op matches BackwardOp::Embedding(back) && back.ids@ == ids && back.suits(
                t.spec_shape(),
                seq![indices.spec_shape(), self.weight.spec_shape()],
            )
        }
    }

    /// The result of a lookup.
    pub open spec fn looked_up<F: Fpu>(
        &self,
        f: &F,
        indices: Tensor,
        mode: GradMode,
        r: Result<Tensor, EmbeddingError>,
    ) -> bool {
        match r {
            Ok(t) => exists|ids: Seq<usize>| #[trigger] self.found(f, indices, mode, ids, t),
            Err(e) => self.refused(f, indices, e),
        }
    }
}

/// All the values of a tensor, read as indices.
pub open spec fn indices_read<F: Fpu>(f: &F, indices: Tensor, vocab_size: int, ids: Seq<usize>) -> bool {
    exists|values: NdArray<u32>| #[trigger]
        autograd::reads_as(f, indices.storage, values) && reads_indices(values.data@, vocab_size, ids)
}

/// The rows of the table in single precision.
pub open spec fn single_lookup<F: Fpu>(
    f: &F,
    table: TensorStorage,
    ids: Seq<usize>,
    shape: Seq<usize>,
    r: TensorStorage,
) -> bool {
    r matches TensorStorage::F32(b) && exists|a: NdArray<u32>| #[trigger]
        autograd::reads_as(f, table, a) && is_lookup(&a, ids, shape, &*b)
}

} // verus!
