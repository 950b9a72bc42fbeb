use crate::array::NdArray;
use crate::autograd;
use crate::autograd::{Tensor, TensorStorage};
use crate::dims;
use crate::float_bits;
use crate::float_bits::{bf16_to_single, f16_to_single};
use crate::fpu::Fpu;
use std::sync::Arc;
use vstd::prelude::*;

verus! {

/// How stored elements that can be loaded are encoded. Bytes that stand for multiples of
/// a step are not among them: a file has no place for the step.
#[derive(Clone, Copy, Debug, PartialEq, Eq, Structural)]
pub enum Encoding {
    Single,
    Half,
    Brain,
}

/// Why stored elements do not fill a parameter.
#[derive(Clone, Debug, PartialEq, Eq)]
pub enum FillError {
    ShapeMismatch,
    UnsupportedDtype(String),
}

/// Why weights could not be loaded. A parameter is given by its place in the list.
#[derive(Clone, Debug, PartialEq, Eq)]
pub enum WeightsError {
    /// A tensor ends so far on that the bytes of the file could not be counted.
    ExcessiveNumber,
    Unreadable,
    Parameter(usize, FillError),
}

/// What became of a parameter.
#[derive(Clone, Copy, Debug, PartialEq, Eq, Structural)]
pub enum Outcome {
    Loaded,
    NotFound,
}

/// The number in four bytes, the lowest first.
pub open spec fn word32(b: Seq<u8>, i: int) -> int {
    b[4 * i] + b[4 * i + 1] * 0x100 + b[4 * i + 2] * 0x1_0000 + b[4 * i + 3] * 0x100_0000
}

/// The number in two bytes, the lowest first.
pub open spec fn word16(b: Seq<u8>, i: int) -> int {
    b[2 * i] + b[2 * i + 1] * 0x100
}

/// The encoding that goes by a name, if it can be loaded.
pub open spec fn encoding_of(dtype: Seq<char>) -> Option<Encoding> {
    if dtype == "F32"@ {
        Some(Encoding::Single)
    } else if dtype == "F16"@ {
        Some(Encoding::Half)
    } else if dtype == "BF16"@ {
        Some(Encoding::Brain)
    } else {
        None
    }
}

/// How many elements there are in that many bytes.
pub open spec fn count_in(encoding: Encoding, len: nat) -> nat {
    match encoding {
        Encoding::Single => len / 4,
        Encoding::Half | Encoding::Brain => len / 2,
    }
}

/// An element, in single precision.
pub open spec fn value_at(encoding: Encoding, b: Seq<u8>, i: int) -> int {
    match encoding {
        Encoding::Single => word32(b, i),
        Encoding::Half => float_bits::f16_widened(word16(b, i) as u16),
        Encoding::Brain => float_bits::bf16_widened(word16(b, i) as u16),
    }
}

/// The elements that bytes hold, in single precision.
pub open spec fn holds_values(encoding: Encoding, b: Seq<u8>, values: Seq<u32>) -> bool {
    &&& values.len() == count_in(encoding, b.len())
    &&& forall|i: int| 0 <= i < values.len() ==> #[trigger] values[i] == value_at(encoding, b, i)
}

/// What comes of an attempt to put stored elements in place of those of a tensor. Where it
/// fails, the tensor stays as it was.
pub open spec fn fill_result<F: Fpu>(
    f: &F,
    before: Tensor,
    dtype: Seq<char>,
    b: Seq<u8>,
    after: Tensor,
    r: Result<(), FillError>,
) -> bool {
    match encoding_of(dtype) {
        Some(e) if count_in(e, b.len()) == dims::product(before.spec_shape()) => r is Ok && filled(f, before, e, b, after),
        Some(_) => r == Err::<(), FillError>(FillError::ShapeMismatch) && after == before,
        None => (r matches Err(FillError::UnsupportedDtype(d)) && d@ == dtype) && after == before,
    }
}

/// A tensor after stored elements were put in place of its own. Its extents and its
/// precision stay.
pub open spec fn filled<F: Fpu>(f: &F, before: Tensor, encoding: Encoding, b: Seq<u8>, after: Tensor) -> bool {
    &&& after == (Tensor { storage: after.storage, ..before })
    &&& exists|a: NdArray<u32>| #[trigger]
        autograd::stored_as(f, a, before.spec_dtype(), after.storage) && a.wf() && a.shape@ == before.spec_shape()
            && holds_values(encoding, b, a.data@)
}

fn read_singles(b: &[u8]) -> (values: Vec<u32>)
    ensures
        holds_values(Encoding::Single, b@, values@),
{
    let len: usize = b.len();
    let n: usize = len / 4;
    let mut values: Vec<u32> = Vec::with_capacity(n);
    for i in 0..n
        invariant
            len == b@.len(),
            n == len / 4,
            values@.len() == i,
            forall|j: int| 0 <= j < i ==> #[trigger] values@[j] == value_at(Encoding::Single, b@, j),
    {
        let w: u32 = b[4 * i] as u32 + b[4 * i + 1] as u32 * 0x100 + b[4 * i + 2] as u32 * 0x1_0000 + b[4 * i + 3] as u32
            * 0x100_0000;
        values.push(w);
    }
    values
}

fn read_halves(b: &[u8]) -> (values: Vec<u32>)
    ensures
        holds_values(Encoding::Half, b@, values@),
{
    let len: usize = b.len();
    let n: usize = len / 2;
    let mut values: Vec<u32> = Vec::with_capacity(n);
    for i in 0..n
        invariant
            len == b@.len(),
            n == len / 2,
            values@.len() == i,
            forall|j: int| 0 <= j < i ==> #[trigger] values@[j] == value_at(Encoding::Half, b@, j),
    {
        let w: u16 = b[2 * i] as u16 + b[2 * i + 1] as u16 * 0x100;
        values.push(f16_to_single(w));
    }
    values
}

fn read_bfloats(b: &[u8]) -> (values: Vec<u32>)
    ensures
        holds_values(Encoding::Brain, b@, values@),
{
    let len: usize = b.len();
    let n: usize = len / 2;
    let mut values: Vec<u32> = Vec::with_capacity(n);
    for i in 0..n
        invariant
            len == b@.len(),
            n == len / 2,
            values@.len() == i,
            forall|j: int| 0 <= j < i ==> #[trigger] values@[j] == value_at(Encoding::Brain, b@, j),
    {
        let w: u16 = b[2 * i] as u16 + b[2 * i + 1] as u16 * 0x100;
        values.push(bf16_to_single(w));
    }
    values
}

/// Puts stored elements in place of those of a tensor.
pub fn fill<F: Fpu>(target: &mut Tensor, dtype: &String, b: &[u8], f: &F) -> (r: Result<(), FillError>)
    requires
        old(target).wf(),
    ensures
        final(target).wf(),
        fill_result(f, *old(target), dtype@, b@, *final(target), r),
{
    let values = if *dtype == "F32".to_string() {
        read_singles(b)
    } else if *dtype == "F16".to_string() {
        read_halves(b)
    } else if *dtype == "BF16".to_string() {
        read_bfloats(b)
    } else {
        return Err(FillError::UnsupportedDtype(dtype.clone()));
    };
    let shape: Vec<usize> = target.shape_vec();
    let precision = target.dtype();
    match NdArray::from_shape_vec(shape, values) {
        Some(a) => {
            let ghost before = *target;
            let ghost whole = a;
            target.storage = TensorStorage::from_single(f, Arc::new(a), precision);
            assert(autograd::stored_as(f, whole, before.spec_dtype(), target.storage));
            Ok(())
        },
        None => Err(FillError::ShapeMismatch),
    }
}

/// The length of the header: the number in the first eight bytes, the lowest first.
pub open spec fn header_len(b: Seq<u8>) -> int {
    word32(b, 0) + word32(b, 1) * 0x1_0000_0000
}

/// The header of a file, or nothing if the file ends before it.
pub open spec fn header(b: Seq<u8>) -> Seq<u8> {
    if b.len() < 8 || header_len(b) + 8 > b.len() {
        Seq::empty()
    } else {
        b.subrange(8, header_len(b) + 8)
    }
}

/// Why a header could not be read.
#[verifier::external_type_specification]
#[verifier::external_body]
pub struct ExJsonError(serde_json::Error);

/// Where the data of the tensors end that `serde_json::from_slice` reads from a header as
/// the `Metadata` of an archive. `None` if the header is no such description.
pub uninterp spec fn data_ends(h: Seq<u8>) -> Option<Set<usize>>;

/// `serde_json::from_slice`, into `safetensors::tensor::Metadata`, with the second of the
/// offsets of each tensor that it describes. Whether the bytes are such a description, and
/// which offsets it holds, depends on the bytes alone. In which order the offsets come, and
/// which error comes for other bytes, is left open.
#[verifier::external_body]
fn read_ends(h: &[u8]) -> (r: Result<Vec<usize>, serde_json::Error>)
    ensures
        match r {
            Ok(ends) => data_ends(h@) == Some(ends@.to_set()),
            Err(_) => data_ends(h@) is None,
        },
{
    let m: safetensors::tensor::Metadata = serde_json::from_slice(h)?;
    Ok(m.tensors().values().map(|t| t.data_offsets.1).collect())
}

/// No tensor that the header describes ends so far on that the bytes up to there could not
/// be counted together with the header.
pub open spec fn countable(b: Seq<u8>) -> bool {
    data_ends(header(b)) matches Some(ends) ==> forall|e: usize| #[trigger]
        ends.contains(e) ==> e + 8 + header(b).len() <= usize::MAX
}

fn is_countable(b: &[u8]) -> (r: bool)
    ensures
        r == countable(b@),
{
    let len: usize = b.len();
    let mut n: usize = 0;
    let mut from: usize = 0;
    if len >= 8 {
        let low: u64 = b[0] as u64 + b[1] as u64 * 0x100 + b[2] as u64 * 0x1_0000 + b[3] as u64 * 0x100_0000;
        let high: u64 = b[4] as u64 + b[5] as u64 * 0x100 + b[6] as u64 * 0x1_0000 + b[7] as u64 * 0x100_0000;
        let total: u64 = low + high * 0x1_0000_0000;
        assert(total == header_len(b@));
        if total <= (len - 8) as u64 {
            n = total as usize;
            from = 8;
        }
    }
    let h: &[u8] = vstd::slice::slice_subrange(b, from, from + n);
    assert(h@ =~= header(b@));
    let ends: Vec<usize> = match read_ends(h) {
        Ok(ends) => ends,
        Err(_) => {
            return true;
        },
    };
    let count: usize = ends.len();
    for i in 0..count
        invariant
            count == ends@.len(),
            n == header(b@).len(),
            n + 8 <= usize::MAX,
            data_ends(header(b@)) == Some(ends@.to_set()),
            forall|j: int| 0 <= j < i ==> #[trigger] ends@[j] + 8 + n <= usize::MAX,
    {
        if ends[i] > usize::MAX - 8 - n {
            proof {
                let e = ends@[i as int];
                assert(ends@.to_set().contains(e));
                assert(data_ends(header(b@))->0.contains(e) && e + 8 + header(b@).len() > usize::MAX);
            }
            return false;
        }
    }
    true
}

/// An archive of tensors, opened.
#[verifier::external_type_specification]
#[verifier::external_body]
pub struct ExSafeTensors<'data>(safetensors::SafeTensors<'data>);

#[verifier::external_type_specification]
#[verifier::external_body]
pub struct ExSafeTensorError(safetensors::SafeTensorError);

/// What `SafeTensors::deserialize` reads from the bytes of a file: the name of the
/// encoding and the bytes of each tensor, by its name. `None` if the bytes are no such file.
pub uninterp spec fn archive_contents(b: Seq<u8>) -> Option<Map<Seq<char>, (Seq<char>, Seq<u8>)>>;

/// The name of the encoding and the bytes of each tensor of an open archive, by its name.
pub uninterp spec fn entries(a: safetensors::SafeTensors<'_>) -> Map<Seq<char>, (Seq<char>, Seq<u8>)>;

/// `SafeTensors::deserialize`: whether the bytes are an archive, and what it holds,
/// depends on the bytes alone. Which error comes for bytes that are none is left open.
/// The call adds the length of the header to the end of the last tensor, so an end that
/// leaves no room for that is kept out.
#[verifier::external_body]
fn open_archive<'data>(b: &'data [u8]) -> (r: Result<safetensors::SafeTensors<'data>, safetensors::SafeTensorError>)
    requires
        countable(b@),
    ensures
        match r {
            Ok(a) => archive_contents(b@) == Some(entries(a)),
            Err(_) => archive_contents(b@) is None,
        },
{
    safetensors::SafeTensors::deserialize(b)
}

/// `SafeTensors::tensor`, with what its view gives as `dtype`, printed, and `data`: the
/// name of the encoding and the bytes of the tensor of that name. There is an error only
/// where there is no such tensor.
#[verifier::external_body]
fn entry<'data>(a: &safetensors::SafeTensors<'data>, name: &str) -> (r: Result<
    (String, &'data [u8]),
    safetensors::SafeTensorError,
>)
    ensures
        match r {
            Ok((dtype, b)) => entries(*a).contains_key(name@) && entries(*a)[name@] == (dtype@, b@),
            Err(_) => !entries(*a).contains_key(name@),
        },
{
    match a.tensor(name) {
        Ok(view) => Ok((format!("{:?}", view.dtype()), view.data())),
        Err(e) => Err(e),
    }
}

/// What becomes of one parameter: it takes the elements that the archive holds under its
/// name, or stays as it was if there are none.
pub open spec fn parameter_loaded<F: Fpu>(
    f: &F,
    contents: Map<Seq<char>, (Seq<char>, Seq<u8>)>,
    before: (String, Tensor),
    after: (String, Tensor),
    outcome: Result<Outcome, FillError>,
) -> bool {
    &&& after.0@ == before.0@
    &&& if contents.contains_key(before.0@) {
        let (dtype, b) = contents[before.0@];
        match outcome {
            Ok(o) => o == Outcome::Loaded && fill_result(f, before.1, dtype, b, after.1, Ok(())),
            Err(e) => fill_result(f, before.1, dtype, b, after.1, Err(e)),
        }
    } else {
        outcome == Ok::<Outcome, FillError>(Outcome::NotFound) && after.1 == before.1
    }
}

/// Parameters are loaded one after the other, until one of them cannot be.
pub open spec fn weights_loaded<F: Fpu>(
    f: &F,
    contents: Map<Seq<char>, (Seq<char>, Seq<u8>)>,
    before: Seq<(String, Tensor)>,
    after: Seq<(String, Tensor)>,
    r: Result<Vec<Outcome>, WeightsError>,
) -> bool {
    &&& after.len() == before.len()
    &&& match r {
        Ok(outcomes) => outcomes@.len() == before.len() && forall|i: int|
            0 <= i < before.len() ==> parameter_loaded(f, contents, before[i], #[trigger] after[i], Ok(outcomes@[i])),
        Err(WeightsError::Parameter(k, e)) => {
            &&& k < before.len()
            &&& parameter_loaded(f, contents, before[k as int], after[k as int], Err(e))
            &&& forall|i: int| 0 <= i < k ==> loads(f, contents, before[i], #[trigger] after[i])
            &&& forall|i: int| k < i < before.len() ==> #[trigger] after[i] == before[i]
        },
        Err(_) => false,
    }
}

/// A parameter does not stand in the way of the next one.
pub open spec fn loads<F: Fpu>(
    f: &F,
    contents: Map<Seq<char>, (Seq<char>, Seq<u8>)>,
    before: (String, Tensor),
    after: (String, Tensor),
) -> bool {
    exists|o: Outcome| #[trigger] parameter_loaded(f, contents, before, after, Ok(o))
}

/// Weights of a model, from the bytes of a file.
pub struct ModelLoader {}

impl ModelLoader {
    /// Loads what the file holds under the names of the parameters.
    pub fn load_llama_weights<F: Fpu>(b: &[u8], params: &mut Vec<(String, Tensor)>, f: &F) -> (r: Result<
        Vec<Outcome>,
        WeightsError,
    >)
        requires
            forall|i: int| 0 <= i < old(params)@.len() ==> (#[trigger] old(params)@[i]).1.wf(),
        ensures
            forall|i: int| 0 <= i < final(params)@.len() ==> (#[trigger] final(params)@[i]).1.wf(),
            if !countable(b@) {
                r == Err::<Vec<Outcome>, WeightsError>(WeightsError::ExcessiveNumber) && final(params)@ == old(params)@
            } else {
                match archive_contents(b@) {
                    None => r == Err::<Vec<Outcome>, WeightsError>(WeightsError::Unreadable) && final(params)@ == old(
                        params,
                    )@,
                    Some(contents) => weights_loaded(f, contents, old(params)@, final(params)@, r),
                }
            },
    {
        if !is_countable(b) {
            return Err(WeightsError::ExcessiveNumber);
        }
        let archive = match open_archive(b) {
            Ok(a) => a,
            Err(_) => {
                return Err(WeightsError::Unreadable);
            },
        };
        let ghost contents = entries(archive);
        let ghost before = params@;
        let mut outcomes: Vec<Outcome> = Vec::new();
        let n: usize = params.len();
        for i in 0..n
            invariant
                countable(b@),
                archive_contents(b@) == Some(contents),
                contents == entries(archive),
                before == old(params)@,
                params@.len() == before.len() == n,
                outcomes@.len() == i,
                forall|j: int| 0 <= j < n ==> (#[trigger] params@[j]).1.wf(),
                forall|j: int|
                    0 <= j < i ==> parameter_loaded(f, contents, before[j], #[trigger] params@[j], Ok(outcomes@[j])),
                forall|j: int| i <= j < n ==> #[trigger] params@[j] == before[j],
        {
            let mut outcome = Outcome::NotFound;
            let name: String = params[i].0.clone();
            let mut tensor = params[i].1.clone();
            if let Ok((dtype, data)) = entry(&archive, name.as_str()) {
                let r = fill(&mut tensor, &dtype, data, f);
                if let Err(e) = r {
                    proof {
                        assert(parameter_loaded(f, contents, before[i as int], params@[i as int], Err(e)));
                        assert forall|j: int| 0 <= j < i implies loads(f, contents, before[j], #[trigger] params@[j]) by {
                            assert(parameter_loaded(f, contents, before[j], params@[j], Ok(outcomes@[j])));
                        }
                    }
                    return Err(WeightsError::Parameter(i, e));
                }
                params.set(i, (name, tensor));
                outcome = Outcome::Loaded;
            }
            outcomes.push(outcome);
        }
        Ok(outcomes)
    }
}

} // verus!
