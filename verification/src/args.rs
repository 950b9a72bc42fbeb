use crate::chat::chars_of;
use crate::float_bits;
use crate::float_bits::{is_above, is_at_most};
use crate::fpu;
use crate::fpu::Fpu;
use crate::precision::DType;
use crate::sampling::SamplingConfig;
use vstd::prelude::*;

verus! {

/// 0.8
pub const DEFAULT_TEMPERATURE: u32 = 0x3f4c_cccd;

/// 0.9
pub const DEFAULT_TOP_P: u32 = 0x3f66_6666;

/// 1.05
pub const DEFAULT_PENALTY: u32 = 0x3f86_6666;

pub const DEFAULT_WINDOW: usize = 96;

pub const DEFAULT_MAX_GEN: usize = 200;

/// An option that takes a value.
#[derive(Clone, Copy, Debug, PartialEq, Eq, Structural)]
pub enum Flag {
    Weights,
    Tokenizer,
    System,
    Temperature,
    TopP,
    RepetitionPenalty,
    RecentWindow,
    MaxGen,
    ParameterDtype,
    RuntimeDtype,
    ActivationDtype,
    KvCacheDtype,
    Quantize,
    QuantScale,
    MaxSeqLen,
}

/// An option without a value.
#[derive(Clone, Copy, Debug, PartialEq, Eq, Structural)]
pub enum Switch {
    AllowParameterCopies,
    StreamWeights,
    LoadOnly,
}

/// Why the program does not start.
#[derive(Clone, Debug, PartialEq, Eq)]
pub enum ArgsError {
    NoArguments,
    /// Only an explanation was asked for.
    Help,
    MissingValue(Flag),
    NotANumber(Flag),
    NotAChoice(Flag),
    Unknown(String),
    TopPOutOfRange,
    NegativeTemperature,
    PenaltyBelowOne,
    NoWeights,
    NoTokenizer,
}

/// What the program was asked to do.
pub struct Args {
    pub weights: String,
    pub tokenizer: String,
    pub system: String,
    pub sampling: SamplingConfig,
    pub recent_window: usize,
    pub max_gen: usize,
    pub runtime: RuntimeChoices,
}

/// How the model is held and run.
#[derive(Clone, Copy, Debug, PartialEq, Eq, Structural)]
pub struct RuntimeChoices {
    pub parameter_dtype: DType,
    pub runtime_dtype: DType,
    pub activation_dtype: DType,
    pub kv_cache_dtype: DType,
    pub quantize: bool,
    pub quant_scale: Option<u32>,
    pub allow_parameter_copies: bool,
    pub stream_weights: bool,
    pub max_seq_len: Option<usize>,
    pub load_only: bool,
}

/// What is known of the arguments while they are read.
pub struct Settings {
    pub weights: Option<String>,
    pub tokenizer: Option<String>,
    pub system: Option<String>,
    pub temperature: u32,
    pub top_p: u32,
    pub repetition_penalty: u32,
    pub recent_window: usize,
    pub max_gen: usize,
    pub runtime: RuntimeChoices,
}

/// Single precision throughout, and nothing out of the ordinary.
pub open spec fn plain_runtime() -> RuntimeChoices {
    RuntimeChoices {
        parameter_dtype: DType::F32,
        runtime_dtype: DType::F32,
        activation_dtype: DType::F32,
        kv_cache_dtype: DType::F32,
        quantize: false,
        quant_scale: None,
        allow_parameter_copies: false,
        stream_weights: false,
        max_seq_len: None,
        load_only: false,
    }
}

/// Before any argument was read.
pub open spec fn defaults() -> Settings {
    Settings {
        weights: None,
        tokenizer: None,
        system: None,
        temperature: DEFAULT_TEMPERATURE,
        top_p: DEFAULT_TOP_P,
        repetition_penalty: DEFAULT_PENALTY,
        recent_window: DEFAULT_WINDOW,
        max_gen: DEFAULT_MAX_GEN,
        runtime: plain_runtime(),
    }
}

/// The option that goes by a name.
pub open spec fn flag(name: Seq<char>) -> Option<Flag> {
    if name == "--weights"@ {
        Some(Flag::Weights)
    } else if name == "--tokenizer"@ {
        Some(Flag::Tokenizer)
    } else if name == "--system"@ {
        Some(Flag::System)
    } else if name == "--temperature"@ {
        Some(Flag::Temperature)
    } else if name == "--top-p"@ {
        Some(Flag::TopP)
    } else if name == "--repetition-penalty"@ {
        Some(Flag::RepetitionPenalty)
    } else if name == "--recent-window"@ {
        Some(Flag::RecentWindow)
    } else if name == "--max-gen"@ {
        Some(Flag::MaxGen)
    } else if name == "--parameter-dtype"@ {
        Some(Flag::ParameterDtype)
    } else if name == "--runtime-dtype"@ {
        Some(Flag::RuntimeDtype)
    } else if name == "--activation-dtype"@ {
        Some(Flag::ActivationDtype)
    } else if name == "--kv-cache-dtype"@ {
        Some(Flag::KvCacheDtype)
    } else if name == "--quantize"@ {
        Some(Flag::Quantize)
    } else if name == "--quant-scale"@ {
        Some(Flag::QuantScale)
    } else if name == "--max-seq-len"@ {
        Some(Flag::MaxSeqLen)
    } else {
        None
    }
}

fn flag_of(name: &String) -> (r: Option<Flag>)
    ensures
        r == flag(name@),
{
    if *name == "--weights".to_string() {
        Some(Flag::Weights)
    } else if *name == "--tokenizer".to_string() {
        Some(Flag::Tokenizer)
    } else if *name == "--system".to_string() {
        Some(Flag::System)
    } else if *name == "--temperature".to_string() {
        Some(Flag::Temperature)
    } else if *name == "--top-p".to_string() {
        Some(Flag::TopP)
    } else if *name == "--repetition-penalty".to_string() {
        Some(Flag::RepetitionPenalty)
    } else if *name == "--recent-window".to_string() {
        Some(Flag::RecentWindow)
    } else if *name == "--max-gen".to_string() {
        Some(Flag::MaxGen)
    } else if *name == "--parameter-dtype".to_string() {
        Some(Flag::ParameterDtype)
    } else if *name == "--runtime-dtype".to_string() {
        Some(Flag::RuntimeDtype)
    } else if *name == "--activation-dtype".to_string() {
        Some(Flag::ActivationDtype)
    } else if *name == "--kv-cache-dtype".to_string() {
        Some(Flag::KvCacheDtype)
    } else if *name == "--quantize".to_string() {
        Some(Flag::Quantize)
    } else if *name == "--quant-scale".to_string() {
        Some(Flag::QuantScale)
    } else if *name == "--max-seq-len".to_string() {
        Some(Flag::MaxSeqLen)
    } else {
        None
    }
}

/// The option without a value that goes by a name.
pub open spec fn switch(name: Seq<char>) -> Option<Switch> {
    if name == "--allow-parameter-copies"@ {
        Some(Switch::AllowParameterCopies)
    } else if name == "--stream-weights"@ {
        Some(Switch::StreamWeights)
    } else if name == "--load-only"@ {
        Some(Switch::LoadOnly)
    } else {
        None
    }
}

fn switch_of(name: &String) -> (r: Option<Switch>)
    ensures
        r == switch(name@),
{
    if *name == "--allow-parameter-copies".to_string() {
        Some(Switch::AllowParameterCopies)
    } else if *name == "--stream-weights".to_string() {
        Some(Switch::StreamWeights)
    } else if *name == "--load-only".to_string() {
        Some(Switch::LoadOnly)
    } else {
        None
    }
}

/// The precision that goes by a name.
pub open spec fn dtype_named(text: Seq<char>) -> Option<DType> {
    if text == "f32"@ {
        Some(DType::F32)
    } else if text == "f16"@ {
        Some(DType::F16)
    } else if text == "bf16"@ {
        Some(DType::BF16)
    } else if text == "i8"@ {
        Some(DType::I8)
    } else {
        None
    }
}

fn parse_dtype(text: &String) -> (r: Option<DType>)
    ensures
        r == dtype_named(text@),
{
    if *text == "f32".to_string() {
        Some(DType::F32)
    } else if *text == "f16".to_string() {
        Some(DType::F16)
    } else if *text == "bf16".to_string() {
        Some(DType::BF16)
    } else if *text == "i8".to_string() {
        Some(DType::I8)
    } else {
        None
    }
}

/// The choices with one of the precisions replaced. Buffers and the cache are held in
/// floating point.
pub open spec fn precision_chosen(before: RuntimeChoices, flag: Flag, text: Seq<char>) -> Option<RuntimeChoices> {
    match (flag, dtype_named(text)) {
        (Flag::ParameterDtype, Some(d)) => Some(RuntimeChoices { parameter_dtype: d, ..before }),
        (Flag::ActivationDtype, Some(d)) => Some(RuntimeChoices { activation_dtype: d, ..before }),
        (Flag::RuntimeDtype, Some(d)) if d.float() => Some(RuntimeChoices { runtime_dtype: d, ..before }),
        (Flag::KvCacheDtype, Some(d)) if d.float() => Some(RuntimeChoices { kv_cache_dtype: d, ..before }),
        _ => None,
    }
}

fn choose_precision(before: RuntimeChoices, flag: Flag, text: &String) -> (r: Option<RuntimeChoices>)
    ensures
        r == precision_chosen(before, flag, text@),
{
    match (flag, parse_dtype(text)) {
        (Flag::ParameterDtype, Some(d)) => Some(RuntimeChoices { parameter_dtype: d, ..before }),
        (Flag::ActivationDtype, Some(d)) => Some(RuntimeChoices { activation_dtype: d, ..before }),
        (Flag::RuntimeDtype, Some(d)) => if d.is_float() {
            Some(RuntimeChoices { runtime_dtype: d, ..before })
        } else {
            None
        },
        (Flag::KvCacheDtype, Some(d)) => if d.is_float() {
            Some(RuntimeChoices { kv_cache_dtype: d, ..before })
        } else {
            None
        },
        _ => None,
    }
}

/// The choices with quantization to bytes on or off.
pub open spec fn quantization_chosen(before: RuntimeChoices, text: Seq<char>) -> Option<RuntimeChoices> {
    if text == "off"@ {
        Some(RuntimeChoices { quantize: false, ..before })
    } else if text == "i8"@ {
        Some(RuntimeChoices { quantize: true, ..before })
    } else {
        None
    }
}

fn choose_quantization(before: RuntimeChoices, text: &String) -> (r: Option<RuntimeChoices>)
    ensures
        r == quantization_chosen(before, text@),
{
    if *text == "off".to_string() {
        Some(RuntimeChoices { quantize: false, ..before })
    } else if *text == "i8".to_string() {
        Some(RuntimeChoices { quantize: true, ..before })
    } else {
        None
    }
}

/// The choices with a switch on.
pub open spec fn switched(before: RuntimeChoices, switch: Switch) -> RuntimeChoices {
    match switch {
        Switch::AllowParameterCopies => RuntimeChoices { allow_parameter_copies: true, ..before },
        Switch::StreamWeights => RuntimeChoices { stream_weights: true, ..before },
        Switch::LoadOnly => RuntimeChoices { load_only: true, ..before },
    }
}

fn turn_on(before: RuntimeChoices, switch: Switch) -> (r: RuntimeChoices)
    ensures
        r == switched(before, switch),
{
    match switch {
        Switch::AllowParameterCopies => RuntimeChoices { allow_parameter_copies: true, ..before },
        Switch::StreamWeights => RuntimeChoices { stream_weights: true, ..before },
        Switch::LoadOnly => RuntimeChoices { load_only: true, ..before },
    }
}

/// The number that decimal digits write.
pub open spec fn decimal(digits: Seq<char>) -> nat
    decreases digits.len(),
{
    if digits.len() == 0 {
        0
    } else {
        decimal(digits.drop_last()) * 10 + (digits.last() as int - '0' as int) as nat
    }
}

pub open spec fn all_digits(text: Seq<char>) -> bool {
    forall|i: int| 0 <= i < text.len() ==> '0' <= #[trigger] text[i] <= '9'
}

/// A count without the sign that may stand before it.
pub open spec fn unsigned(text: Seq<char>) -> Seq<char> {
    if text.len() > 0 && text[0] == '+' {
        text.drop_first()
    } else {
        text
    }
}

/// The count that a text writes: digits, behind a plus sign or none.
pub open spec fn count_in(text: Seq<char>) -> Option<usize> {
    let digits = unsigned(text);
    if digits.len() > 0 && all_digits(digits) && decimal(digits) <= usize::MAX {
        Some(decimal(digits) as usize)
    } else {
        None
    }
}

fn parse_count(text: &str) -> (r: Option<usize>)
    ensures
        r == count_in(text@),
{
    let chars = chars_of(text);
    let n: usize = chars.len();
    let start: usize = if n > 0 && chars[0] == '+' {
        1
    } else {
        0
    };
    let ghost digits = unsigned(text@);
    assert(digits =~= text@.skip(start as int));
    if n == start {
        return None;
    }
    let mut value: usize = 0;
    for i in start..n
        invariant
            start <= n,
            n == chars@.len(),
            chars@ == text@,
            digits == unsigned(text@),
            digits == text@.skip(start as int),
            all_digits(digits.take(i - start)),
            value == decimal(digits.take(i - start)),
    {
        let c: char = chars[i];
        let ghost k = i - start;
        proof {
            assert(digits[k] == c);
            assert(digits.take(k + 1).drop_last() =~= digits.take(k));
            assert(digits.take(k + 1).last() == c);
        }
        if !('0' <= c && c <= '9') {
            return None;
        }
        let d: usize = (c as u32 - '0' as u32) as usize;
        if value > (usize::MAX - d) / 10 {
            proof {
                assert(decimal(digits.take(k + 1)) > usize::MAX);
                assert(digits.take(digits.len() as int) =~= digits);
                if all_digits(digits) {
                    lemma_longer_is_greater(digits, k + 1, digits.len() as int);
                }
            }
            return None;
        }
        value = value * 10 + d;
        proof {
            assert forall|j: int| 0 <= j < k + 1 implies '0' <= #[trigger] digits.take(k + 1)[j] <= '9' by {
                if j < k {
                    assert(digits.take(k)[j] == digits.take(k + 1)[j]);
                }
            }
        }
    }
    assert(digits.take(digits.len() as int) =~= digits);
    Some(value)
}

/// More digits do not write a smaller number.
proof fn lemma_longer_is_greater(digits: Seq<char>, i: int, j: int)
    requires
        0 <= i <= j <= digits.len(),
        all_digits(digits),
    ensures
        decimal(digits.take(i)) <= decimal(digits.take(j)),
    decreases j - i,
{
    if i < j {
        lemma_longer_is_greater(digits, i, j - 1);
        assert(digits.take(j).drop_last() =~= digits.take(j - 1));
    }
}

/// What becomes of the settings when an option has a value. Of two uses of one option the
/// later one counts.
pub open spec fn takes<F: Fpu>(
    f: &F,
    flag: Flag,
    value: String,
    before: Settings,
    r: Result<Settings, ArgsError>,
) -> bool {
    match flag {
        Flag::Weights => r == Ok::<Settings, ArgsError>(Settings { weights: Some(value), ..before }),
        Flag::Tokenizer => r == Ok::<Settings, ArgsError>(Settings { tokenizer: Some(value), ..before }),
        Flag::System => r == Ok::<Settings, ArgsError>(Settings { system: Some(value), ..before }),
        Flag::Temperature => real_taken(f, flag, value, r, |x: u32| Settings { temperature: x, ..before }),
        Flag::TopP => real_taken(f, flag, value, r, |x: u32| Settings { top_p: x, ..before }),
        Flag::RepetitionPenalty => real_taken(f, flag, value, r, |x: u32| Settings { repetition_penalty: x, ..before }),
        Flag::RecentWindow => r == (match count_in(value@) {
            Some(n) => Ok::<Settings, ArgsError>(Settings { recent_window: n, ..before }),
            None => Err(ArgsError::NotANumber(flag)),
        }),
        Flag::MaxGen => r == (match count_in(value@) {
            Some(n) => Ok::<Settings, ArgsError>(Settings { max_gen: n, ..before }),
            None => Err(ArgsError::NotANumber(flag)),
        }),
        Flag::MaxSeqLen => r == (match count_in(value@) {
            Some(n) => Ok::<Settings, ArgsError>(
                Settings { runtime: RuntimeChoices { max_seq_len: Some(n), ..before.runtime }, ..before },
            ),
            None => Err(ArgsError::NotANumber(flag)),
        }),
        Flag::QuantScale => real_taken(
            f,
            flag,
            value,
            r,
            |x: u32| Settings { runtime: RuntimeChoices { quant_scale: Some(x), ..before.runtime }, ..before },
        ),
        Flag::Quantize => r == (match quantization_chosen(before.runtime, value@) {
            Some(runtime) => Ok::<Settings, ArgsError>(Settings { runtime, ..before }),
            None => Err(ArgsError::NotAChoice(flag)),
        }),
        _ => r == (match precision_chosen(before.runtime, flag, value@) {
            Some(runtime) => Ok::<Settings, ArgsError>(Settings { runtime, ..before }),
            None => Err(ArgsError::NotAChoice(flag)),
        }),
    }
}

/// A real number is taken, if the value is one.
pub open spec fn real_taken<F: Fpu>(
    f: &F,
    flag: Flag,
    value: String,
    r: Result<Settings, ArgsError>,
    set: spec_fn(u32) -> Settings,
) -> bool {
    exists|p: Option<u32>| #[trigger] fpu::parses(f, &value, p) && r == (match p {
        Some(x) => Ok::<Settings, ArgsError>(set(x)),
        None => Err(ArgsError::NotANumber(flag)),
    })
}

fn take<F: Fpu>(flag: Flag, value: String, settings: Settings, f: &F) -> (r: Result<Settings, ArgsError>)
    ensures
        takes(f, flag, value, settings, r),
{
    match flag {
        Flag::Weights => Ok(Settings { weights: Some(value), ..settings }),
        Flag::Tokenizer => Ok(Settings { tokenizer: Some(value), ..settings }),
        Flag::System => Ok(Settings { system: Some(value), ..settings }),
        Flag::RecentWindow => match parse_count(value.as_str()) {
            Some(n) => Ok(Settings { recent_window: n, ..settings }),
            None => Err(ArgsError::NotANumber(flag)),
        },
        Flag::MaxGen => match parse_count(value.as_str()) {
            Some(n) => Ok(Settings { max_gen: n, ..settings }),
            None => Err(ArgsError::NotANumber(flag)),
        },
        Flag::MaxSeqLen => match parse_count(value.as_str()) {
            Some(n) => Ok(
                Settings { runtime: RuntimeChoices { max_seq_len: Some(n), ..settings.runtime }, ..settings },
            ),
            None => Err(ArgsError::NotANumber(flag)),
        },
        Flag::Quantize => match choose_quantization(settings.runtime, &value) {
            Some(runtime) => Ok(Settings { runtime, ..settings }),
            None => Err(ArgsError::NotAChoice(flag)),
        },
        Flag::Temperature | Flag::TopP | Flag::RepetitionPenalty | Flag::QuantScale => {
            let p = f.parse(&value);
            assert(fpu::parses(f, &value, p));
            match p {
                None => Err(ArgsError::NotANumber(flag)),
                Some(x) => match flag {
                    Flag::Temperature => Ok(Settings { temperature: x, ..settings }),
                    Flag::TopP => Ok(Settings { top_p: x, ..settings }),
                    Flag::QuantScale => Ok(
                        Settings { runtime: RuntimeChoices { quant_scale: Some(x), ..settings.runtime }, ..settings },
                    ),
                    _ => Ok(Settings { repetition_penalty: x, ..settings }),
                },
            }
        },
        _ => match choose_precision(settings.runtime, flag, &value) {
            Some(runtime) => Ok(Settings { runtime, ..settings }),
            None => Err(ArgsError::NotAChoice(flag)),
        },
    }
}

/// The arguments from the `i`th on are read, one option and its value after the other,
/// until one of them cannot be.
pub open spec fn reads<F: Fpu>(
    f: &F,
    argv: Seq<String>,
    i: int,
    before: Settings,
    r: Result<Settings, ArgsError>,
) -> bool
    decreases argv.len() - i,
{
    if i >= argv.len() {
        r == Ok::<Settings, ArgsError>(before)
    } else if argv[i]@ == "-h"@ || argv[i]@ == "--help"@ {
        r == Err::<Settings, ArgsError>(ArgsError::Help)
    } else if switch(argv[i]@) is Some {
        reads(f, argv, i + 1, Settings { runtime: switched(before.runtime, switch(argv[i]@)->0), ..before }, r)
    } else {
        match flag(argv[i]@) {
            None => r == Err::<Settings, ArgsError>(ArgsError::Unknown(argv[i])),
            Some(flag) => if i + 1 >= argv.len() {
                r == Err::<Settings, ArgsError>(ArgsError::MissingValue(flag))
            } else {
                exists|next: Result<Settings, ArgsError>| #[trigger] takes(f, flag, argv[i + 1], before, next)
                    && match next {
                    Err(e) => r == Err::<Settings, ArgsError>(e),
                    Ok(settings) => reads(f, argv, i + 2, settings, r),
                }
            },
        }
    }
}

fn read<F: Fpu>(argv: &Vec<String>, i: usize, settings: Settings, f: &F) -> (r: Result<Settings, ArgsError>)
    requires
        i <= argv@.len(),
    ensures
        reads(f, argv@, i as int, settings, r),
    decreases argv@.len() - i,
{
    if i >= argv.len() {
        return Ok(settings);
    }
    if argv[i] == "-h".to_string() || argv[i] == "--help".to_string() {
        return Err(ArgsError::Help);
    }
    if let Some(switch) = switch_of(&argv[i]) {
        let runtime = turn_on(settings.runtime, switch);
        return read(argv, i + 1, Settings { runtime, ..settings }, f);
    }
    let flag = match flag_of(&argv[i]) {
        Some(flag) => flag,
        None => {
            return Err(ArgsError::Unknown(argv[i].clone()));
        },
    };
    if i + 1 >= argv.len() {
        return Err(ArgsError::MissingValue(flag));
    }
    let next = take(flag, argv[i + 1].clone(), settings, f);
    let ghost given = next;
    assert(takes(f, flag, argv@[i + 1], settings, given));
    match next {
        Err(e) => Err(e),
        Ok(settings) => read(argv, i + 2, settings, f),
    }
}

/// What is wrong with the settings, after all arguments were read.
pub open spec fn settings_error(s: Settings) -> Option<ArgsError> {
    if !(float_bits::at_most(fpu::ZERO, s.top_p) && float_bits::at_most(s.top_p, fpu::ONE)) {
        Some(ArgsError::TopPOutOfRange)
    } else if float_bits::above(fpu::ZERO, s.temperature) {
        Some(ArgsError::NegativeTemperature)
    } else if float_bits::above(fpu::ONE, s.repetition_penalty) {
        Some(ArgsError::PenaltyBelowOne)
    } else if s.weights is None {
        Some(ArgsError::NoWeights)
    } else if s.tokenizer is None {
        Some(ArgsError::NoTokenizer)
    } else {
        None
    }
}

/// What the settings ask for.
pub open spec fn settled(s: Settings, r: Result<Args, ArgsError>) -> bool {
    match settings_error(s) {
        Some(e) => r == Err::<Args, ArgsError>(e),
        None => {
            &&& r matches Ok(a)
            &&& a.weights == s.weights->0
            &&& a.tokenizer == s.tokenizer->0
            &&& a.system@ == (match s.system {
                Some(text) => text@,
                None => "You are a helpful AI assistant."@,
            })
            &&& a.sampling.temperature == s.temperature
            &&& a.sampling.top_p == s.top_p
            &&& a.sampling.repetition_penalty == s.repetition_penalty
            &&& a.recent_window == s.recent_window
            &&& a.max_gen == s.max_gen
            &&& a.runtime == s.runtime
        },
    }
}

fn settle(s: Settings) -> (r: Result<Args, ArgsError>)
    ensures
        settled(s, r),
{
    if !(is_at_most(fpu::ZERO, s.top_p) && is_at_most(s.top_p, fpu::ONE)) {
        return Err(ArgsError::TopPOutOfRange);
    }
    if is_above(fpu::ZERO, s.temperature) {
        return Err(ArgsError::NegativeTemperature);
    }
    if is_above(fpu::ONE, s.repetition_penalty) {
        return Err(ArgsError::PenaltyBelowOne);
    }
    let weights = match s.weights {
        Some(path) => path,
        None => {
            return Err(ArgsError::NoWeights);
        },
    };
    let tokenizer = match s.tokenizer {
        Some(path) => path,
        None => {
            return Err(ArgsError::NoTokenizer);
        },
    };
    let system = match s.system {
        Some(text) => text,
        None => "You are a helpful AI assistant.".to_string(),
    };
    let sampling = SamplingConfig {
        temperature: s.temperature,
        top_p: s.top_p,
        repetition_penalty: s.repetition_penalty,
    };
    Ok(Args { weights, tokenizer, system, sampling, recent_window: s.recent_window, max_gen: s.max_gen, runtime: s.runtime })
}

/// What the arguments of the program ask for. The first of them is its name.
pub open spec fn parsed<F: Fpu>(f: &F, argv: Seq<String>, r: Result<Args, ArgsError>) -> bool {
    if argv.len() == 1 {
        r == Err::<Args, ArgsError>(ArgsError::NoArguments)
    } else {
        exists|s: Result<Settings, ArgsError>| #[trigger] reads(f, argv, 1, defaults(), s) && match s {
            Err(e) => r == Err::<Args, ArgsError>(e),
            Ok(settings) => settled(settings, r),
        }
    }
}

/// Reads the arguments of the program.
pub fn parse_args<F: Fpu>(argv: &Vec<String>, f: &F) -> (r: Result<Args, ArgsError>)
    ensures
        parsed(f, argv@, r),
{
    let n: usize = argv.len();
    if n == 1 {
        return Err(ArgsError::NoArguments);
    }
    let start = Settings {
        weights: None,
        tokenizer: None,
        system: None,
        temperature: DEFAULT_TEMPERATURE,
        top_p: DEFAULT_TOP_P,
        repetition_penalty: DEFAULT_PENALTY,
        recent_window: DEFAULT_WINDOW,
        max_gen: DEFAULT_MAX_GEN,
        runtime: RuntimeChoices {
            parameter_dtype: DType::F32,
            runtime_dtype: DType::F32,
            activation_dtype: DType::F32,
            kv_cache_dtype: DType::F32,
            quantize: false,
            quant_scale: None,
            allow_parameter_copies: false,
            stream_weights: false,
            max_seq_len: None,
            load_only: false,
        },
    };
    let settings = if n == 0 {
        Ok(start)
    } else {
        read(argv, 1, start, f)
    };
    let ghost given = settings;
    assert(reads(f, argv@, 1, defaults(), given));
    match settings {
        Err(e) => Err(e),
        Ok(s) => settle(s),
    }
}

/// Arguments that are accepted lie within the bounds.
pub proof fn law_accepted_arguments<F: Fpu>(f: &F, argv: Seq<String>, a: Args)
    requires
        parsed(f, argv, Ok(a)),
    ensures
        float_bits::at_most(fpu::ZERO, a.sampling.top_p),
        float_bits::at_most(a.sampling.top_p, fpu::ONE),
        !float_bits::above(fpu::ZERO, a.sampling.temperature),
        !float_bits::above(fpu::ONE, a.sampling.repetition_penalty),
{
}

} // verus!
