use lumen::args::{parse_args, ArgsError, Flag};
use lumen::array::NdArray;
use lumen::autograd::{set_inference_mode, GradMode, Tensor};
use lumen::chat::{
    build_first_turn_prompt, build_next_turn_prompt, cache_is_full, command_of, lcp_char_boundary, print_new_suffix,
    starts_another_turn, stop_ids, Admission, Command, Session,
};
use lumen::fpu::Fpu;
use lumen::generation::{best_is_enough, last_step_logits_vec, only_choice, tensor_from_token_ids};
use lumen::loader::{fill, FillError, ModelLoader, Outcome, WeightsError};
use lumen::models::model_config;
use lumen::precision::DType;
use lumen::sampling::{draw_token, sample_top_p, SampleError, SamplingConfig};

struct Native;

fn value(bits: u32) -> f32 {
    f32::from_bits(bits)
}

impl Fpu for Native {
    fn add(&self, a: u32, b: u32) -> u32 {
        (value(a) + value(b)).to_bits()
    }
    fn sub(&self, a: u32, b: u32) -> u32 {
        (value(a) - value(b)).to_bits()
    }
    fn mul(&self, a: u32, b: u32) -> u32 {
        (value(a) * value(b)).to_bits()
    }
    fn div(&self, a: u32, b: u32) -> u32 {
        (value(a) / value(b)).to_bits()
    }
    fn sqrt(&self, a: u32) -> u32 {
        value(a).sqrt().to_bits()
    }
    fn exp(&self, a: u32) -> u32 {
        value(a).exp().to_bits()
    }
    fn ln(&self, a: u32) -> u32 {
        value(a).ln().to_bits()
    }
    fn tanh(&self, a: u32) -> u32 {
        value(a).tanh().to_bits()
    }
    fn cos(&self, a: u32) -> u32 {
        value(a).cos().to_bits()
    }
    fn sin(&self, a: u32) -> u32 {
        value(a).sin().to_bits()
    }
    fn powf(&self, a: u32, b: u32) -> u32 {
        value(a).powf(value(b)).to_bits()
    }
    fn powi(&self, a: u32, n: i32) -> u32 {
        value(a).powi(n).to_bits()
    }
    fn parse(&self, text: &String) -> Option<u32> {
        text.parse::<f32>().ok().map(|v| v.to_bits())
    }
    fn from_count(&self, n: usize) -> u32 {
        (n as f32).to_bits()
    }
    fn from_byte(&self, q: i8) -> u32 {
        (q as f32).to_bits()
    }
    fn to_byte(&self, a: u32) -> i8 {
        value(a).round().clamp(-127.0, 127.0) as i8
    }
    fn byte_step(&self, xs: &[u32]) -> u32 {
        let largest = xs.iter().fold(0.0f32, |m, x| m.max(value(*x).abs()));
        let step = if largest > 0.0 { largest / 127.0 } else { 1.0 };
        step.to_bits()
    }
    fn sum(&self, xs: &[u32]) -> u32 {
        xs.iter().map(|x| value(*x)).sum::<f32>().to_bits()
    }
    fn dot(&self, xs: &[u32], ys: &[u32]) -> u32 {
        xs.iter().zip(ys).map(|(x, y)| value(*x) * value(*y)).sum::<f32>().to_bits()
    }
    fn dot_bytes(&self, xs: &[u32], qs: &[i8]) -> u32 {
        xs.iter().zip(qs).map(|(x, q)| value(*x) * *q as f32).sum::<f32>().to_bits()
    }
    fn keeps(&self, p: u32) -> bool {
        value(p) <= 0.5
    }
}

fn bits(values: &[f32]) -> Vec<u32> {
    values.iter().map(|v| v.to_bits()).collect()
}

fn values(bits: &[u32]) -> Vec<f32> {
    bits.iter().map(|b| value(*b)).collect()
}

fn array(shape: &[usize], data: &[f32]) -> NdArray<u32> {
    NdArray::from_shape_vec(shape.to_vec(), bits(data)).expect("test tensor shape mismatch")
}

fn make_tensor(shape: &[usize], data: Vec<f32>, dtype: DType) -> Tensor {
    let mut t = Tensor::from_array_no_grad(array(shape, &data));
    t.cast_inplace(&Native, dtype);
    t
}

fn data_of(t: &Tensor) -> Vec<f32> {
    values(&t.data(&Native).data)
}

fn quiet() -> GradMode {
    let mut mode = GradMode::new();
    set_inference_mode(&mut mode, true);
    mode
}

fn argv(args: &[&str]) -> Vec<String> {
    args.iter().map(|a| a.to_string()).collect()
}

#[test]
fn arguments_have_defaults() {
    let a = parse_args(&argv(&["lumen", "--weights", "w", "--tokenizer", "t"]), &Native).expect("both files");
    assert_eq!(a.weights, "w");
    assert_eq!(a.tokenizer, "t");
    assert_eq!(a.system, "You are a helpful AI assistant.");
    assert_eq!(value(a.sampling.temperature), 0.8);
    assert_eq!(value(a.sampling.top_p), 0.9);
    assert_eq!(value(a.sampling.repetition_penalty), 1.05);
    assert_eq!(a.recent_window, 96);
    assert_eq!(a.max_gen, 200);
    assert_eq!(a.runtime.parameter_dtype, DType::F32);
    assert_eq!(a.runtime.quant_scale, None);
    assert_eq!(a.runtime.max_seq_len, None);
    assert!(!a.runtime.quantize && !a.runtime.stream_weights && !a.runtime.load_only);
    assert!(!a.runtime.allow_parameter_copies);
}

#[test]
fn runtime_choices_are_taken() {
    let a = parse_args(
        &argv(&[
            "lumen", "--weights", "w", "--tokenizer", "t", "--parameter-dtype", "i8", "--runtime-dtype", "bf16",
            "--activation-dtype", "f16", "--kv-cache-dtype", "bf16", "--quantize", "i8", "--quant-scale", "0.02",
            "--allow-parameter-copies", "--stream-weights", "--max-seq-len", "512", "--load-only",
        ]),
        &Native,
    )
    .expect("good arguments");
    assert_eq!(a.runtime.parameter_dtype, DType::I8);
    assert_eq!(a.runtime.runtime_dtype, DType::BF16);
    assert_eq!(a.runtime.activation_dtype, DType::F16);
    assert_eq!(a.runtime.kv_cache_dtype, DType::BF16);
    assert!(a.runtime.quantize);
    assert_eq!(a.runtime.quant_scale.map(value), Some(0.02));
    assert!(a.runtime.allow_parameter_copies && a.runtime.stream_weights && a.runtime.load_only);
    assert_eq!(a.runtime.max_seq_len, Some(512));
}

#[test]
fn arguments_are_taken() {
    let a = parse_args(
        &argv(&[
            "lumen", "--weights", "w", "--tokenizer", "t", "--system", "Be brief.", "--temperature", "0.5", "--top-p",
            "0.25", "--repetition-penalty", "2", "--recent-window", "+12", "--max-gen", "007", "--weights", "w2",
        ]),
        &Native,
    )
    .expect("good arguments");
    assert_eq!(a.weights, "w2");
    assert_eq!(a.system, "Be brief.");
    assert_eq!(value(a.sampling.temperature), 0.5);
    assert_eq!(value(a.sampling.top_p), 0.25);
    assert_eq!(value(a.sampling.repetition_penalty), 2.0);
    assert_eq!(a.recent_window, 12);
    assert_eq!(a.max_gen, 7);
}

fn refused(args: &[&str]) -> ArgsError {
    match parse_args(&argv(args), &Native) {
        Ok(_) => panic!("the arguments should be refused"),
        Err(e) => e,
    }
}

#[test]
fn arguments_that_are_refused() {
    assert_eq!(refused(&["lumen"]), ArgsError::NoArguments);
    assert_eq!(refused(&["lumen", "--help"]), ArgsError::Help);
    assert_eq!(refused(&["lumen", "-h", "--nonsense"]), ArgsError::Help);
    assert_eq!(refused(&["lumen", "--nonsense"]), ArgsError::Unknown("--nonsense".to_string()));
    assert_eq!(refused(&["lumen", "--weights"]), ArgsError::MissingValue(Flag::Weights));
    assert_eq!(refused(&["lumen", "--max-gen"]), ArgsError::MissingValue(Flag::MaxGen));
    assert_eq!(refused(&["lumen", "--top-p", "x"]), ArgsError::NotANumber(Flag::TopP));
    assert_eq!(refused(&["lumen", "--max-gen", "-1"]), ArgsError::NotANumber(Flag::MaxGen));
    assert_eq!(refused(&["lumen", "--max-gen", ""]), ArgsError::NotANumber(Flag::MaxGen));
    assert_eq!(refused(&["lumen", "--recent-window", "99999999999999999999999"]), ArgsError::NotANumber(Flag::RecentWindow));
    assert_eq!(refused(&["lumen", "--runtime-dtype", "i8"]), ArgsError::NotAChoice(Flag::RuntimeDtype));
    assert_eq!(refused(&["lumen", "--kv-cache-dtype", "i8"]), ArgsError::NotAChoice(Flag::KvCacheDtype));
    assert_eq!(refused(&["lumen", "--parameter-dtype", "int"]), ArgsError::NotAChoice(Flag::ParameterDtype));
    assert_eq!(refused(&["lumen", "--quantize", "on"]), ArgsError::NotAChoice(Flag::Quantize));
    assert_eq!(refused(&["lumen", "--max-seq-len", "x"]), ArgsError::NotANumber(Flag::MaxSeqLen));
    assert_eq!(refused(&["lumen", "--load-only"]), ArgsError::NoWeights);
    assert_eq!(refused(&["lumen", "--top-p", "1.5"]), ArgsError::TopPOutOfRange);
    assert_eq!(refused(&["lumen", "--top-p", "NaN"]), ArgsError::TopPOutOfRange);
    assert_eq!(refused(&["lumen", "--temperature", "-0.1"]), ArgsError::NegativeTemperature);
    assert_eq!(refused(&["lumen", "--repetition-penalty", "0.9"]), ArgsError::PenaltyBelowOne);
    assert_eq!(refused(&["lumen", "--tokenizer", "t"]), ArgsError::NoWeights);
    assert_eq!(refused(&["lumen", "--weights", "w"]), ArgsError::NoTokenizer);
}

#[test]
fn prompts_frame_what_is_said() {
    assert_eq!(
        build_first_turn_prompt("sys", "hi"),
        "<|system|>\nsys\n</s>\n<|user|>\nhi\n</s>\n<|assistant|>\n"
    );
    assert_eq!(build_next_turn_prompt("more"), "</s>\n<|user|>\nmore\n</s>\n<|assistant|>\n");
}

#[test]
fn common_start_ends_between_characters() {
    assert_eq!(lcp_char_boundary("hello", "help"), 3);
    assert_eq!(lcp_char_boundary("", "help"), 0);
    assert_eq!(lcp_char_boundary("same", "same"), 4);
    // The two letters share their first byte.
    assert_eq!(lcp_char_boundary("aé", "aè"), 1);
    assert_eq!(lcp_char_boundary("é!", "é?"), 2);
}

#[test]
fn only_new_text_is_shown() {
    let mut prev = String::new();
    assert_eq!(print_new_suffix(&mut prev, "Hel".to_string()), Some("Hel".to_string()));
    assert_eq!(print_new_suffix(&mut prev, "Hello".to_string()), Some("lo".to_string()));
    assert_eq!(print_new_suffix(&mut prev, "Hello \u{FFFD}".to_string()), None);
    assert_eq!(prev, "Hello");
    assert_eq!(print_new_suffix(&mut prev, "Hello é".to_string()), Some(" é".to_string()));
    assert_eq!(print_new_suffix(&mut prev, "Hello é".to_string()), None);
    assert_eq!(print_new_suffix(&mut prev, "Help".to_string()), Some("p".to_string()));
    assert_eq!(prev, "Help");
}

#[test]
fn lines_ask_for_something() {
    let of = |s: &str| command_of(&s.to_string());
    assert_eq!(of(""), Command::Nothing);
    assert_eq!(of("/exit"), Command::Exit);
    assert_eq!(of("exit"), Command::Exit);
    assert_eq!(of("quit"), Command::Exit);
    assert_eq!(of("/reset"), Command::Reset);
    assert_eq!(of("reset"), Command::Reset);
    assert_eq!(of("/quit"), Command::Say);
}

#[test]
fn answers_that_begin_another_turn() {
    assert!(starts_another_turn("fine <|user|> and"));
    assert!(starts_another_turn("<|assistant|>"));
    assert!(!starts_another_turn("<|user"));
    assert!(!starts_another_turn(""));
}

#[test]
fn sessions_take_prompts_and_tokens() {
    let mut s = Session::new();
    assert_eq!(s.prompt("sys", "hi"), build_first_turn_prompt("sys", "hi"));
    assert_eq!(s.receive(&vec![1, 2, 3], 0, 10, 32), Admission::Prefill);
    assert_eq!(s.tokens, vec![1, 2, 3]);
    let stops = stop_ids(&vec![9, 4, 9, 2]);
    assert_eq!(stops, vec![2, 4, 9]);
    assert!(s.take_token(7, &stops));
    assert!(!s.take_token(9, &stops));
    assert_eq!(s.tokens, vec![1, 2, 3, 7]);
    assert_eq!(s.recent_start(3), 1);
    assert_eq!(s.recent_start(9), 0);
    s.end_turn();
    assert_eq!(s.prompt("sys", "more"), build_next_turn_prompt("more"));

    // 4 tokens in the cache, 3 new ones, 10 to generate and 8 to spare.
    assert_eq!(s.receive(&vec![5, 6, 8], 4, 10, 26), Admission::Prefill);
    assert_eq!(s.receive(&vec![5, 6, 8], 4, 10, 25), Admission::Restart);
    assert!(s.tokens.is_empty());
    assert!(s.first_turn);
    assert_eq!(s.receive_again(&vec![5, 6, 8]), Admission::Prefill);
    assert_eq!(s.receive(&Vec::new(), 0, 10, 1000), Admission::Skip);
    assert!(!s.first_turn);
    assert_eq!(s.receive(&vec![1], usize::MAX, usize::MAX, usize::MAX), Admission::Restart);
    s.reset();
    assert!(s.first_turn);
    assert!(cache_is_full(2046, 2048));
    assert!(!cache_is_full(2045, 2048));
}

fn config(temperature: f32, top_p: f32, penalty: f32) -> SamplingConfig {
    SamplingConfig {
        temperature: temperature.to_bits(),
        top_p: top_p.to_bits(),
        repetition_penalty: penalty.to_bits(),
    }
}

#[test]
fn cold_sampling_takes_the_first_best() {
    let logits = bits(&[1.0, 3.0, f32::NAN, 3.0, -2.0]);
    let draw = 0.7f32.to_bits();
    assert_eq!(sample_top_p(&logits, &config(0.0, 0.9, 1.0), &[], draw, &Native), Ok(1));
    assert_eq!(sample_top_p(&logits, &config(0.0, 0.9, 2.0), &[1], draw, &Native), Ok(3));
    assert_eq!(sample_top_p(&logits, &config(0.0, 0.9, 2.0), &[1, 3, 3, 99], draw, &Native), Ok(1));
    assert_eq!(sample_top_p(&logits, &config(0.0, 0.9, 1.0), &[1], draw, &Native), Ok(1));
    assert_eq!(sample_top_p(&[], &config(0.0, 0.9, 1.0), &[], draw, &Native), Ok(0));
}

#[test]
fn draws_fall_on_the_most_likely_tokens() {
    let probs = bits(&[0.1, 0.4, 0.2, 0.3]);
    let at = |p: f32, r: f32| draw_token(&probs, p.to_bits(), r.to_bits(), &Native);
    assert_eq!(at(0.0, 1.0), Ok(1));
    assert_eq!(at(0.6, 0.5), Ok(1));
    assert_eq!(at(0.6, 0.6), Ok(3));
    assert_eq!(at(0.6, 1.0), Ok(3));
    assert_eq!(at(0.8, 0.9), Ok(2));
    assert_eq!(at(1.0, 0.99), Ok(0));
    assert_eq!(at(7.0, 0.99), Ok(0));
    assert_eq!(at(f32::NAN, 0.99), Ok(1));
    assert_eq!(draw_token(&bits(&[0.5, 0.5]), 1.0f32.to_bits(), 0.2f32.to_bits(), &Native), Ok(0));
    assert_eq!(draw_token(&Vec::new(), 1.0f32.to_bits(), 0, &Native), Err(SampleError::NoTokens));
    assert_eq!(draw_token(&bits(&[0.5, f32::NAN]), 1.0f32.to_bits(), 0, &Native), Err(SampleError::Unordered));
    assert_eq!(draw_token(&bits(&[f32::NAN]), 1.0f32.to_bits(), 0, &Native), Ok(0));
}

#[test]
fn warm_sampling_spreads_the_scores() {
    let logits = bits(&[0.0, 3.0f32.ln(), 0.0]);
    let at = |r: f32| sample_top_p(&logits, &config(1.0, 1.0, 1.0), &[], r.to_bits(), &Native);
    assert_eq!(at(0.59), Ok(1));
    assert_eq!(at(0.61), Ok(0));
    assert_eq!(at(0.79), Ok(0));
    assert_eq!(at(0.81), Ok(2));
    assert_eq!(sample_top_p(&[], &config(1.0, 1.0, 1.0), &[], 0, &Native), Err(SampleError::NoTokens));
    let long: Vec<f32> = (0..1000).map(|i| ((i * 37) % 1000) as f32).collect();
    assert_eq!(sample_top_p(&bits(&long), &config(0.5, 0.5, 1.0), &[], 0, &Native), Ok(27));
}

#[test]
fn known_tokens_leave_no_choice() {
    let mut scores = bits(&[1.0, 2.0, 3.0]);
    only_choice(1, &mut scores);
    assert_eq!(values(&scores), vec![f32::NEG_INFINITY, 0.0, f32::NEG_INFINITY]);
    assert!(best_is_enough(&config(0.0, 0.9, 1.0)));
    assert!(!best_is_enough(&config(0.0, 0.9, 1.1)));
    assert!(!best_is_enough(&config(0.1, 0.9, 1.0)));
    assert_eq!(sample_top_p(&scores, &config(0.0, 0.9, 1.0), &[0, 1], 0, &Native), Ok(1));
    only_choice(5, &mut scores);
    assert_eq!(values(&scores), vec![f32::NEG_INFINITY; 3]);
}

#[test]
fn models_take_tokens_and_give_logits() {
    let t = tensor_from_token_ids(&[3, 1, 31999], &Native);
    assert_eq!(t.shape_vec(), vec![1, 3]);
    assert_eq!(data_of(&t), vec![3.0, 1.0, 31999.0]);
    let logits = make_tensor(&[2, 3, 2], (0..12).map(|v| v as f32).collect(), DType::F32);
    assert_eq!(last_step_logits_vec(&logits, &Native).map(|r| values(&r)), Ok(vec![4.0, 5.0]));
    assert!(last_step_logits_vec(&t, &Native).is_err());
    assert_eq!(model_config().max_seq_len, 2048);
    assert_eq!(value(model_config().rms_norm_eps), 1e-5);
    assert_eq!(value(model_config().rope_theta), 10000.0);
}

/// The bytes of an archive with tensors of the given names, encodings, shapes and bytes.
fn archive(tensors: Vec<(&str, safetensors::Dtype, Vec<usize>, Vec<u8>)>) -> Vec<u8> {
    let views: Vec<(String, safetensors::tensor::TensorView)> = tensors
        .iter()
        .map(|(name, dtype, shape, data)| {
            let view = safetensors::tensor::TensorView::new(*dtype, shape.clone(), data).expect("a tensor");
            (name.to_string(), view)
        })
        .collect();
    safetensors::serialize(views, &None).expect("an archive")
}

fn single_bytes(values: &[f32]) -> Vec<u8> {
    values.iter().flat_map(|v| v.to_le_bytes()).collect()
}

fn half_bytes(patterns: &[u16]) -> Vec<u8> {
    patterns.iter().flat_map(|p| p.to_le_bytes()).collect()
}

fn brain_bytes(values: &[f32]) -> Vec<u8> {
    values.iter().flat_map(|v| half::bf16::from_f32(*v).to_le_bytes()).collect()
}

#[test]
fn weights_are_loaded_by_name() {
    let file = archive(vec![
        ("a", safetensors::Dtype::F32, vec![2, 2], single_bytes(&[1.0, -2.5, 3.0, 1e-3])),
        ("b", safetensors::Dtype::BF16, vec![3], brain_bytes(&[0.5, -1.0, 300.0])),
        ("c", safetensors::Dtype::F16, vec![2], half_bytes(&[0x0400, 0x8001])),
        ("unused", safetensors::Dtype::I64, vec![1], vec![0; 8]),
    ]);
    let mut params = vec![
        ("a".to_string(), make_tensor(&[4], vec![0.0; 4], DType::F32)),
        ("missing".to_string(), make_tensor(&[1], vec![7.0], DType::F32)),
        ("b".to_string(), make_tensor(&[3], vec![0.0; 3], DType::BF16)),
        ("c".to_string(), make_tensor(&[2], vec![0.0; 2], DType::F32)),
    ];
    let outcome = ModelLoader::load_llama_weights(&file, &mut params, &Native).expect("a good file");
    assert_eq!(outcome, vec![Outcome::Loaded, Outcome::NotFound, Outcome::Loaded, Outcome::Loaded]);
    assert_eq!(params[0].1.shape_vec(), vec![4]);
    assert_eq!(data_of(&params[0].1), vec![1.0, -2.5, 3.0, 1e-3]);
    assert_eq!(data_of(&params[1].1), vec![7.0]);
    assert_eq!(params[2].1.dtype(), DType::BF16);
    assert_eq!(data_of(&params[2].1), vec![0.5, -1.0, 300.0]);
    assert_eq!(data_of(&params[3].1), vec![6.103515625e-5, -5.9604645e-8]);
}

#[test]
fn weights_that_do_not_fit_are_refused() {
    let file = archive(vec![
        ("a", safetensors::Dtype::F32, vec![1], single_bytes(&[5.0])),
        ("n", safetensors::Dtype::F32, vec![2], single_bytes(&[1.0, 2.0])),
        ("i", safetensors::Dtype::I32, vec![1], vec![0; 4]),
    ]);
    let mut params = vec![
        ("a".to_string(), make_tensor(&[1], vec![0.0], DType::F32)),
        ("n".to_string(), make_tensor(&[3], vec![9.0; 3], DType::F32)),
    ];
    let r = ModelLoader::load_llama_weights(&file, &mut params, &Native);
    assert_eq!(r, Err(WeightsError::Parameter(1, FillError::ShapeMismatch)));
    assert_eq!(data_of(&params[0].1), vec![5.0]);
    assert_eq!(data_of(&params[1].1), vec![9.0; 3]);

    let mut params = vec![("i".to_string(), make_tensor(&[1], vec![0.0], DType::F32))];
    let r = ModelLoader::load_llama_weights(&file, &mut params, &Native);
    assert_eq!(r, Err(WeightsError::Parameter(0, FillError::UnsupportedDtype("I32".to_string()))));
}

#[test]
fn files_that_are_no_archives_are_refused() {
    let mut params = Vec::new();
    assert_eq!(ModelLoader::load_llama_weights(b"", &mut params, &Native), Err(WeightsError::Unreadable));
    assert_eq!(ModelLoader::load_llama_weights(b"not an archive", &mut params, &Native), Err(WeightsError::Unreadable));
    let header = b"{\"x\":{\"dtype\":\"U8\",\"shape\":[18446744073709551614],\"data_offsets\":[0,18446744073709551614]}}";
    let mut file = (header.len() as u64).to_le_bytes().to_vec();
    file.extend_from_slice(header);
    assert_eq!(ModelLoader::load_llama_weights(&file, &mut params, &Native), Err(WeightsError::ExcessiveNumber));
}

#[test]
fn bytes_fill_a_tensor() {
    let mut t = make_tensor(&[2], vec![0.0; 2], DType::F32);
    assert_eq!(fill(&mut t, &"F32".to_string(), &single_bytes(&[1.5, -2.0]), &Native), Ok(()));
    assert_eq!(data_of(&t), vec![1.5, -2.0]);
    assert_eq!(fill(&mut t, &"BF16".to_string(), &brain_bytes(&[0.25, 8.0]), &Native), Ok(()));
    assert_eq!(data_of(&t), vec![0.25, 8.0]);
    assert_eq!(fill(&mut t, &"F32".to_string(), &[0; 12], &Native), Err(FillError::ShapeMismatch));
    assert_eq!(fill(&mut t, &"I8".to_string(), &[0; 2], &Native), Err(FillError::UnsupportedDtype("I8".to_string())));
    assert_eq!(data_of(&t), vec![0.25, 8.0]);
    assert_eq!(fill(&mut t, &"F16".to_string(), &half_bytes(&[0xba00, 0x7bff]), &Native), Ok(()));
    assert_eq!(data_of(&t), vec![-0.75, 65504.0]);
    assert_eq!(fill(&mut t, &"F16".to_string(), &[0; 6], &Native), Err(FillError::ShapeMismatch));
}

fn with_header(header: &[u8], data: &[u8]) -> Vec<u8> {
    let mut file = (header.len() as u64).to_le_bytes().to_vec();
    file.extend_from_slice(header);
    file.extend_from_slice(data);
    file
}

#[test]
fn only_offsets_need_to_be_counted() {
    let header = b"{\"e\":{\"dtype\":\"F32\",\"shape\":[0,18446744073709551615],\"data_offsets\":[0,0]},\
        \"x\":{\"dtype\":\"F32\",\"shape\":[1],\"data_offsets\":[0,4],\"note\":18446744073709551615}}";
    let mut params = vec![
        ("x".to_string(), make_tensor(&[1], vec![0.0], DType::F32)),
        ("e".to_string(), make_tensor(&[0], vec![], DType::F32)),
    ];
    let file = with_header(header, &single_bytes(&[2.5]));
    let outcome = ModelLoader::load_llama_weights(&file, &mut params, &Native).expect("a good file");
    assert_eq!(outcome, vec![Outcome::Loaded, Outcome::Loaded]);
    assert_eq!(data_of(&params[0].1), vec![2.5]);

    let beyond = b"{\"x\":{\"dtype\":\"U8\",\"shape\":[9],\"data_offsets\":[0,9]}}";
    let r = ModelLoader::load_llama_weights(&with_header(beyond, &[0; 8]), &mut params, &Native);
    assert_eq!(r, Err(WeightsError::Unreadable));
    let broken = b"{\"x\":{\"dtype\":\"U8\",\"data_offsets\":[0,18446744073709551614]}}";
    let r = ModelLoader::load_llama_weights(&with_header(broken, &[]), &mut params, &Native);
    assert_eq!(r, Err(WeightsError::Unreadable));
}

#[test]
fn digits_in_names_are_no_numbers() {
    let name = "9".repeat(60) + "\\\"1234567890123456789012345";
    let file = archive(vec![(name.as_str(), safetensors::Dtype::F32, vec![1], single_bytes(&[2.5]))]);
    let mut params = vec![(name.clone(), make_tensor(&[1], vec![0.0], DType::F32))];
    let outcome = ModelLoader::load_llama_weights(&file, &mut params, &Native).expect("a good file");
    assert_eq!(outcome, vec![Outcome::Loaded]);
    assert_eq!(data_of(&params[0].1), vec![2.5]);
}

#[test]
fn configurations_that_fit_no_memory_are_found() {
    let mut config = model_config();
    assert!(config.is_manageable());
    config.max_seq_len = usize::MAX / 4;
    assert!(!config.is_manageable());
    config.max_seq_len = 4096;
    assert!(config.is_manageable());
    config.num_attention_heads = 0;
    assert!(!config.is_manageable());
}
