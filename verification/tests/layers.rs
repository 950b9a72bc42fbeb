use lumen::array::NdArray;
use lumen::autograd::{no_grad, set_inference_mode, GradMode, Tensor, TensorStorage};
use lumen::fpu::Fpu;
use lumen::graph::Graph;
use lumen::kv_cache::{KvCacheError, LlamaKVCache};
use lumen::layers::activation::{Gelu, ReLU, SiLU, Sigmoid, Softmax, SoftmaxError, Tanh};
use lumen::layers::attention::attend::gqa_attention_no_repeat_bshd_view;
use lumen::layers::attention::cache::{CacheError, KVCacheInner};
use lumen::layers::attention::repeat_kv;
use lumen::layers::attention::self_attention::{AttentionError, AttentionShape, AttentionWeights, SelfAttention};
use lumen::layers::attention::RotaryEmbedding;
use lumen::layers::basic::embedding::IndexError;
use lumen::layers::basic::{Dropout, Embedding, Linear};
use lumen::layers::norm::RMSNorm;
use lumen::loss::{CrossEntropyLoss, MSELoss};
use lumen::models::{model_config, LlamaConfig};
use lumen::optim::{Adam, Optimizer, SGD};
use lumen::precision::{DType, PrecisionConfig};

struct Native;

fn value(bits: u32) -> f32 {
    f32::from_bits(bits)
}

impl Fpu for Native {
    fn add(&self, a: u32, b: u32) -> u32 {
        (value(a) + value(b)).to_bits()
    }
    fn sub(&self, a: u32, b: u32) -> u32 {
        (value(a) - value(b)).to_bits()
    }
    fn mul(&self, a: u32, b: u32) -> u32 {
        (value(a) * value(b)).to_bits()
    }
    fn div(&self, a: u32, b: u32) -> u32 {
        (value(a) / value(b)).to_bits()
    }
    fn sqrt(&self, a: u32) -> u32 {
        value(a).sqrt().to_bits()
    }
    fn exp(&self, a: u32) -> u32 {
        value(a).exp().to_bits()
    }
    fn ln(&self, a: u32) -> u32 {
        value(a).ln().to_bits()
    }
    fn tanh(&self, a: u32) -> u32 {
        value(a).tanh().to_bits()
    }
    fn cos(&self, a: u32) -> u32 {
        value(a).cos().to_bits()
    }
    fn sin(&self, a: u32) -> u32 {
        value(a).sin().to_bits()
    }
    fn powf(&self, a: u32, b: u32) -> u32 {
        value(a).powf(value(b)).to_bits()
    }
    fn powi(&self, a: u32, n: i32) -> u32 {
        value(a).powi(n).to_bits()
    }
    fn parse(&self, text: &String) -> Option<u32> {
        text.parse::<f32>().ok().map(|v| v.to_bits())
    }
    fn from_count(&self, n: usize) -> u32 {
        (n as f32).to_bits()
    }
    fn from_byte(&self, q: i8) -> u32 {
        (q as f32).to_bits()
    }
    fn to_byte(&self, a: u32) -> i8 {
        value(a).round().clamp(-127.0, 127.0) as i8
    }
    fn byte_step(&self, xs: &[u32]) -> u32 {
        let largest = xs.iter().fold(0.0f32, |m, x| m.max(value(*x).abs()));
        let step = if largest > 0.0 { largest / 127.0 } else { 1.0 };
        step.to_bits()
    }
    fn sum(&self, xs: &[u32]) -> u32 {
        xs.iter().map(|x| value(*x)).sum::<f32>().to_bits()
    }
    fn dot(&self, xs: &[u32], ys: &[u32]) -> u32 {
        xs.iter().zip(ys).map(|(x, y)| value(*x) * value(*y)).sum::<f32>().to_bits()
    }
    fn dot_bytes(&self, xs: &[u32], qs: &[i8]) -> u32 {
        xs.iter().zip(qs).map(|(x, q)| value(*x) * *q as f32).sum::<f32>().to_bits()
    }
    fn keeps(&self, p: u32) -> bool {
        value(p) <= 0.5
    }
}

fn bits(values: &[f32]) -> Vec<u32> {
    values.iter().map(|v| v.to_bits()).collect()
}

fn values(bits: &[u32]) -> Vec<f32> {
    bits.iter().map(|b| value(*b)).collect()
}

fn array(shape: &[usize], data: &[f32]) -> NdArray<u32> {
    NdArray::from_shape_vec(shape.to_vec(), bits(data)).expect("test tensor shape mismatch")
}

fn make_tensor(shape: &[usize], data: Vec<f32>, dtype: DType) -> Tensor {
    let mut t = Tensor::from_array_no_grad(array(shape, &data));
    t.cast_inplace(&Native, dtype);
    t
}

fn data_of(t: &Tensor) -> Vec<f32> {
    values(&t.data(&Native).data)
}

fn quiet() -> GradMode {
    let mut mode = GradMode::new();
    set_inference_mode(&mut mode, true);
    mode
}

fn bf16_values(t: &Tensor) -> Vec<f32> {
    match t.data_ref() {
        TensorStorage::BF16(a) => a.data.iter().map(|b| half::bf16::from_bits(*b).to_f32()).collect(),
        _ => panic!("the output should stay in the precision of the input"),
    }
}

fn quantize_bf16(src: &[f32]) -> Vec<f32> {
    src.iter().map(|&v| half::bf16::from_f32(v).to_f32()).collect()
}

fn precision(parameter_dtype: DType, runtime_dtype: DType) -> PrecisionConfig {
    PrecisionConfig { parameter_dtype, runtime_dtype, allow_parameter_dtype_copies: false }
}

const THETA: f32 = 10000.0;

fn test_config() -> LlamaConfig {
    LlamaConfig {
        vocab_size: 32,
        hidden_size: 8,
        intermediate_size: 16,
        num_hidden_layers: 1,
        num_attention_heads: 2,
        num_key_value_heads: 1,
        rms_norm_eps: 1e-5f32.to_bits(),
        max_seq_len: 4,
        rope_theta: THETA.to_bits(),
    }
}

#[test]
fn legacy_kv_cache_creation_follows_runtime_dtype() {
    let cache = LlamaKVCache::new(&test_config(), &precision(DType::F32, DType::BF16), &Native).expect("a cache");
    assert_eq!(cache.dtype, DType::BF16);
    assert!(cache.follows_global_dtype);
    assert_eq!(cache.k_cache.dtype(), DType::BF16);
    assert_eq!(cache.v_cache.dtype(), DType::BF16);
}

#[test]
fn legacy_kv_cache_explicit_dtype_overrides_global_default() {
    let cache = LlamaKVCache::new_with_dtype(&test_config(), DType::F32, &Native).expect("a cache");
    assert_eq!(cache.dtype, DType::F32);
    assert!(!cache.follows_global_dtype);
    assert_eq!(cache.k_cache.dtype(), DType::F32);
    assert_eq!(cache.v_cache.dtype(), DType::F32);
}

#[test]
fn legacy_kv_cache_manual_cast_disables_global_following() {
    let mut cache = LlamaKVCache::new(&test_config(), &precision(DType::F32, DType::F32), &Native).expect("a cache");
    assert!(cache.follows_global_dtype);
    cache.cast_inplace(DType::BF16, &Native).expect("a floating dtype");
    assert_eq!(cache.dtype, DType::BF16);
    assert!(!cache.follows_global_dtype);
    assert_eq!(cache.k_cache.dtype(), DType::BF16);
    assert_eq!(cache.v_cache.dtype(), DType::BF16);
    assert_eq!(cache.cast_inplace(DType::I8, &Native), Err(KvCacheError::NotFloat));
}

#[test]
fn legacy_kv_cache_get_view_preserves_native_dtype() {
    let mut cache = LlamaKVCache::new_with_dtype(&test_config(), DType::BF16, &Native).expect("a cache");
    let k = make_tensor(&[1, 1, 2, 4], vec![0.0, 1.0, 2.0, 3.0, 4.0, 5.0, 6.0, 7.0], DType::BF16);
    let v = make_tensor(&[1, 1, 2, 4], vec![8.0, 9.0, 10.0, 11.0, 12.0, 13.0, 14.0, 15.0], DType::BF16);
    cache.update(&k, &v, 0, &Native).expect("room for two positions");

    let (k_view, v_view) = cache.get_view(2).expect("two positions");
    assert_eq!(k_view.dtype(), DType::BF16);
    assert_eq!(v_view.dtype(), DType::BF16);
    assert_eq!(data_of(&k_view), vec![0.0, 1.0, 2.0, 3.0, 4.0, 5.0, 6.0, 7.0]);
    assert_eq!(data_of(&v_view), vec![8.0, 9.0, 10.0, 11.0, 12.0, 13.0, 14.0, 15.0]);
}

#[test]
fn kv_cache_rejects_mismatched_kv_shapes() {
    let mut cache = LlamaKVCache::new(&test_config(), &precision(DType::F32, DType::F32), &Native).expect("a cache");
    let k = make_tensor(&[1, 1, 1, 4], vec![0.0; 4], DType::F32);
    let v = make_tensor(&[1, 1, 2, 4], vec![0.0; 8], DType::F32);
    assert_eq!(cache.update(&k, &v, 0, &Native), Err(KvCacheError::ShapeMismatch));
}

#[test]
fn kv_cache_rejects_oversized_view() {
    let cache = LlamaKVCache::new(&test_config(), &precision(DType::F32, DType::F32), &Native).expect("a cache");
    assert!(matches!(cache.get_view(5), Err(KvCacheError::ViewOutOfBounds)));
}

#[test]
fn kv_cache_keeps_what_was_written_before() {
    let mut cache = LlamaKVCache::new_with_dtype(&test_config(), DType::F32, &Native).expect("a cache");
    let first = make_tensor(&[1, 1, 1, 4], vec![1.0, 2.0, 3.0, 4.0], DType::F32);
    let second = make_tensor(&[1, 1, 2, 4], vec![5.0, 6.0, 7.0, 8.0, 9.0, 10.0, 11.0, 12.0], DType::F32);
    cache.update(&first, &first, 0, &Native).expect("room");
    cache.update(&second, &second, 1, &Native).expect("room");
    let (k, _) = cache.get_view(3).expect("three positions");
    assert_eq!(data_of(&k), (1..13).map(|v| v as f32).collect::<Vec<_>>());
    assert_eq!(cache.update(&second, &second, 3, &Native), Err(KvCacheError::Overflow));
    assert_eq!(cache.update(&second, &second, 5, &Native), Err(KvCacheError::StartOutOfBounds));
    let wide = make_tensor(&[1, 1, 1, 5], vec![0.0; 5], DType::F32);
    assert_eq!(cache.update(&wide, &wide, 0, &Native), Err(KvCacheError::DimMismatch));
    let flat = make_tensor(&[1, 4], vec![0.0; 4], DType::F32);
    assert_eq!(cache.update(&flat, &flat, 0, &Native), Err(KvCacheError::KeysNotFourDimensional));
    assert_eq!(cache.update(&first, &flat, 0, &Native), Err(KvCacheError::ValuesNotFourDimensional));
    let batch = make_tensor(&[2, 1, 1, 4], vec![0.0; 8], DType::F32);
    assert_eq!(cache.update(&batch, &batch, 0, &Native), Err(KvCacheError::BatchMismatch));
    let heads = make_tensor(&[1, 2, 1, 4], vec![0.0; 8], DType::F32);
    assert_eq!(cache.update(&heads, &heads, 0, &Native), Err(KvCacheError::HeadMismatch));
}

#[test]
fn kv_cache_names_what_is_wrong_with_a_configuration() {
    let p = precision(DType::F32, DType::F32);
    let refused = |c: LlamaConfig| LlamaKVCache::new(&c, &p, &Native).err();
    assert_eq!(
        refused(LlamaConfig { num_attention_heads: 0, ..test_config() }),
        Some(KvCacheError::NoAttentionHeads)
    );
    assert_eq!(
        refused(LlamaConfig { num_key_value_heads: 0, ..test_config() }),
        Some(KvCacheError::NoKeyValueHeads)
    );
    assert_eq!(refused(LlamaConfig { max_seq_len: 0, ..test_config() }), Some(KvCacheError::NoPositions));
    assert_eq!(refused(LlamaConfig { hidden_size: 9, ..test_config() }), Some(KvCacheError::HeadSplit));
    assert_eq!(
        refused(LlamaConfig { num_attention_heads: 4, num_key_value_heads: 3, ..test_config() }),
        Some(KvCacheError::GroupSplit)
    );
    let bytes = LlamaKVCache::new(&test_config(), &precision(DType::F32, DType::I8), &Native);
    assert_eq!(bytes.err(), Some(KvCacheError::NotFloat));
    assert_eq!(model_config().num_attention_heads / model_config().num_key_value_heads, 8);
}

#[test]
fn relu_no_grad_preserves_bf16_dtype() {
    let input = make_tensor(&[3], vec![-1.0, 0.5, 2.0], DType::BF16);
    let out = no_grad(&GradMode::new(), |m| ReLU::new().forward(&input, m, &Native));

    assert_eq!(input.dtype(), DType::BF16);
    assert_eq!(out.dtype(), DType::BF16);
}

#[test]
fn softmax_no_grad_preserves_bf16_dtype() {
    let input = make_tensor(&[1, 4], vec![1.0, 2.0, 3.0, 4.0], DType::BF16);
    let single = make_tensor(&[1, 4], vec![1.0, 2.0, 3.0, 4.0], DType::F32);
    let mode = quiet();
    let ref_out = Softmax::new(1).forward(&single, &mode, &Native).expect("the last axis");
    let out = Softmax::new(1).forward(&input, &mode, &Native).expect("the last axis");

    assert_eq!(input.dtype(), DType::BF16);
    assert_eq!(out.dtype(), DType::BF16);
    assert_eq!(bf16_values(&out), quantize_bf16(&data_of(&ref_out)));
}

#[test]
fn relu_no_grad_preserves_i8_dtype() {
    let input = make_tensor(&[3], vec![-1.0, 0.5, 2.0], DType::I8);
    let out = no_grad(&GradMode::new(), |m| ReLU::new().forward(&input, m, &Native));

    assert_eq!(input.dtype(), DType::I8);
    assert_eq!(out.dtype(), DType::I8);
    let vals = data_of(&out);
    assert!(vals[0].abs() <= 0.02);
    assert!((vals[1] - 0.5).abs() <= 0.02);
    assert!((vals[2] - 2.0).abs() <= 0.02);
}

#[test]
fn softmax_no_grad_promotes_i8_to_f32() {
    let input = make_tensor(&[1, 4], vec![1.0, 2.0, 3.0, 4.0], DType::I8);
    let out = no_grad(&GradMode::new(), |m| Softmax::new(1).forward(&input, m, &Native)).expect("the last axis");

    assert_eq!(input.dtype(), DType::I8);
    assert_eq!(out.dtype(), DType::F32);
    let sum: f32 = data_of(&out).iter().sum();
    assert!((sum - 1.0).abs() <= 1e-5);
}

#[test]
fn softmax_rejects_non_last_axis() {
    let input = make_tensor(&[2, 3], (0..6).map(|v| v as f32).collect(), DType::F32);
    let out = no_grad(&GradMode::new(), |m| Softmax::new(0).forward(&input, m, &Native));
    assert!(matches!(out, Err(SoftmaxError::NotLastAxis)));
    let scalar = make_tensor(&[], vec![1.0], DType::F32);
    assert!(matches!(Softmax::new(0).forward(&scalar, &quiet(), &Native), Err(SoftmaxError::NoDimension)));
}

#[test]
fn activations_compute_their_formulas() {
    let input = make_tensor(&[3], vec![-1.0, 0.0, 2.0], DType::F32);
    let mode = quiet();
    let close = |t: Tensor, expected: [f32; 3]| {
        for (a, b) in data_of(&t).iter().zip(expected) {
            assert!((a - b).abs() <= 1e-6, "{a} is not {b}");
        }
    };
    close(ReLU::new().forward(&input, &mode, &Native), [0.0, 0.0, 2.0]);
    close(Sigmoid::new().forward(&input, &mode, &Native), [0.26894143, 0.5, 0.880797]);
    close(Tanh::new().forward(&input, &mode, &Native), [-0.7615942, 0.0, 0.9640276]);
    close(SiLU::new().forward(&input, &mode, &Native), [-0.26894143, 0.0, 1.761594]);
    close(Gelu::new().forward(&input, &mode, &Native), [-0.158808, 0.0, 1.9545977]);
}

#[test]
fn rope_no_grad_preserves_bf16_input_dtype() {
    let rope = RotaryEmbedding::new(4, 8, THETA.to_bits(), &precision(DType::F32, DType::F32), &Native).expect("a table");
    let data = vec![1.0, 2.0, 3.0, 4.0, -1.0, 0.5, 2.5, -3.0];
    let input_f32 = make_tensor(&[1, 1, 2, 4], data.clone(), DType::F32);
    let input_bf16 = make_tensor(&[1, 1, 2, 4], data, DType::BF16);
    let mode = quiet();

    let ref_out = rope.forward(&input_f32, 0, &mode, &Native).expect("within the table");
    let bf16_out = rope.forward(&input_bf16, 0, &mode, &Native).expect("within the table");

    assert_eq!(input_bf16.dtype(), DType::BF16);
    assert_eq!(bf16_out.dtype(), DType::BF16);
    assert_eq!(bf16_values(&bf16_out), quantize_bf16(&data_of(&ref_out)));
}

#[test]
fn rope_turns_by_the_angle_of_the_position() {
    let rope = RotaryEmbedding::new_with_dtype(4, 8, THETA.to_bits(), DType::F32, &Native).expect("a table");
    let input = make_tensor(&[1, 1, 1, 4], vec![1.0, 2.0, 3.0, 4.0], DType::F32);
    let mode = quiet();
    let still = rope.forward(&input, 0, &mode, &Native).expect("within the table");
    assert_eq!(data_of(&still), vec![1.0, 2.0, 3.0, 4.0]);
    let turned = data_of(&rope.forward(&input, 1, &mode, &Native).expect("within the table"));
    let (c, s) = (1.0f32.cos(), 1.0f32.sin());
    let (c2, s2) = (0.01f32.cos(), 0.01f32.sin());
    let expected = [c - 3.0 * s, 2.0 * c2 - 4.0 * s2, 3.0 * c + s, 4.0 * c2 + 2.0 * s2];
    for (a, b) in turned.iter().zip(expected) {
        assert!((a - b).abs() <= 1e-5, "{a} is not {b}");
    }
    assert!(rope.forward(&input, 8, &mode, &Native).is_err());
}

#[test]
fn rope_cache_creation_follows_runtime_dtype() {
    let rope = RotaryEmbedding::new(4, 8, THETA.to_bits(), &precision(DType::F32, DType::BF16), &Native).expect("a table");
    assert_eq!(rope.cos_cache.dtype(), DType::BF16);
    assert_eq!(rope.sin_cache.dtype(), DType::BF16);
}

#[test]
fn rope_explicit_dtype_overrides_global_default() {
    let rope = RotaryEmbedding::new_with_dtype(4, 8, THETA.to_bits(), DType::F32, &Native).expect("a table");
    assert_eq!(rope.cos_cache.dtype(), DType::F32);
    assert_eq!(rope.sin_cache.dtype(), DType::F32);
}

fn ramp(shape: &[usize], scale: f32) -> NdArray<u32> {
    let n: usize = shape.iter().product();
    let data: Vec<f32> = (0..n).map(|i| (((i * 7 + 3) % 11) as f32 - 5.0) * scale).collect();
    array(shape, &data)
}

fn weights(size: &AttentionShape) -> AttentionWeights {
    let e = size.embed_dim;
    let kv = if size.n_head == 0 { 1 } else { size.n_kv_head * (e / size.n_head) };
    AttentionWeights { q: ramp(&[e, e], 0.02), k: ramp(&[kv, e], 0.03), v: ramp(&[kv, e], 0.04), o: ramp(&[e, e], 0.05) }
}

fn attention_size(embed_dim: usize, n_head: usize, n_kv_head: usize) -> AttentionShape {
    AttentionShape { embed_dim, n_head, n_kv_head, max_seq_len: 8 }
}

fn attention(embed_dim: usize, n_head: usize, n_kv_head: usize, p: &PrecisionConfig) -> Result<SelfAttention, AttentionError> {
    let size = attention_size(embed_dim, n_head, n_kv_head);
    SelfAttention::new(&size, THETA.to_bits(), true, weights(&size), p, &Native)
}

fn plain_attention() -> SelfAttention {
    attention(8, 2, 1, &precision(DType::F32, DType::F32)).expect("sizes that fit")
}

#[test]
fn self_attention_rejects_zero_query_heads() {
    let out = attention(16, 0, 1, &precision(DType::F32, DType::F32));
    assert!(matches!(out, Err(AttentionError::NoHeads)));
}

#[test]
fn self_attention_rejects_zero_kv_heads() {
    let out = attention(16, 4, 0, &precision(DType::F32, DType::F32));
    assert!(matches!(out, Err(AttentionError::NoKeyValueHeads)));
}

#[test]
fn self_attention_rejects_non_divisible_gqa_ratio() {
    let out = attention(12, 6, 4, &precision(DType::F32, DType::F32));
    assert!(matches!(out, Err(AttentionError::GroupSplit)));
}

#[test]
fn self_attention_rejects_non_3d_input() {
    let attn = plain_attention();
    let input = make_tensor(&[1, 8], vec![0.0; 8], DType::F32);
    let out = no_grad(&GradMode::new(), |m| attn.forward(&input, None, m, &Native));
    assert!(matches!(out, Err(AttentionError::NotThreeDimensional)));
}

#[test]
fn no_grad_forward_keeps_bf16_input_storage() {
    let attn = plain_attention();
    let input = make_tensor(&[1, 2, 8], (0..16).map(|i| i as f32 * 0.1 - 0.5).collect(), DType::BF16);

    let out = no_grad(&GradMode::new(), |m| attn.forward(&input, None, m, &Native));

    assert!(out.is_ok());
    assert_eq!(input.dtype(), DType::BF16);
    assert!(matches!(input.data_ref(), TensorStorage::BF16(_)));
}

#[test]
fn kv_cache_creation_follows_runtime_dtype() {
    let cache = KVCacheInner::new(1, 1, 4, 4, &precision(DType::F32, DType::BF16), &Native).expect("a cache");
    assert_eq!(cache.dtype, DType::BF16);
    assert!(cache.follows_global_dtype);
    match cache.k.data_ref() {
        TensorStorage::BF16(view) => assert_eq!(view.shape, vec![1, 1, 4, 4]),
        _ => panic!("kv cache should follow bf16 runtime dtype"),
    }
}

#[test]
fn kv_cache_manual_cast_disables_global_following() {
    let mut cache = KVCacheInner::new(1, 1, 4, 4, &precision(DType::F32, DType::F32), &Native).expect("a cache");
    assert!(cache.follows_global_dtype);
    cache.cast_inplace(DType::BF16, &Native).expect("a floating dtype");
    assert_eq!(cache.dtype, DType::BF16);
    assert!(!cache.follows_global_dtype);
    match cache.v.data_ref() {
        TensorStorage::BF16(view) => assert_eq!(view.shape, vec![1, 1, 4, 4]),
        _ => panic!("manual cast should switch cache to explicit bf16 storage"),
    }
}

#[test]
fn kv_cache_explicit_dtype_overrides_global_default() {
    let cache = KVCacheInner::new_with_dtype(1, 1, 4, 4, DType::F32, &Native).expect("a cache");
    assert_eq!(cache.dtype, DType::F32);
    assert!(!cache.follows_global_dtype);
    match cache.k.data_ref() {
        TensorStorage::F32(view) => assert_eq!(view.shape, vec![1, 1, 4, 4]),
        _ => panic!("explicit kv cache dtype should override global bf16 runtime dtype"),
    }
}

#[test]
fn kv_cache_rejects_zero_batch() {
    let p = precision(DType::F32, DType::F32);
    assert!(matches!(KVCacheInner::new(0, 1, 4, 4, &p, &Native), Err(CacheError::NoBatch)));
    assert!(matches!(KVCacheInner::new(1, 0, 4, 4, &p, &Native), Err(CacheError::NoHeads)));
    assert!(matches!(KVCacheInner::new(1, 1, 0, 4, &p, &Native), Err(CacheError::NoPositions)));
    assert!(matches!(KVCacheInner::new(1, 1, 4, 0, &p, &Native), Err(CacheError::NoFeatures)));
}

#[test]
fn self_attention_rejects_cache_shape_mismatch() {
    let attn = plain_attention();
    let input = make_tensor(&[1, 1, 8], vec![0.0; 8], DType::F32);
    let cache = KVCacheInner::new(2, 1, 8, 4, &precision(DType::F32, DType::F32), &Native).expect("a cache");
    let out = no_grad(&GradMode::new(), |m| attn.forward(&input, Some(cache), m, &Native));
    assert!(matches!(out, Err(AttentionError::Cache(CacheError::KeyShape))));
}

#[test]
fn self_attention_rejects_cache_len_overflow() {
    let attn = plain_attention();
    let input = make_tensor(&[1, 1, 8], vec![0.0; 8], DType::F32);
    let mut cache = KVCacheInner::new(1, 1, 8, 4, &precision(DType::F32, DType::F32), &Native).expect("a cache");
    cache.len = 9;
    let out = no_grad(&GradMode::new(), |m| attn.forward(&input, Some(cache), m, &Native));
    assert!(matches!(out, Err(AttentionError::Cache(CacheError::LengthOutOfBounds))));
}

#[test]
fn self_attention_explicit_dtype_overrides_global_default() {
    let size = attention_size(8, 2, 1);
    let attn = SelfAttention::new_with_dtype(&size, THETA.to_bits(), true, weights(&size), DType::F32, &Native)
        .expect("sizes that fit");
    for weight in [&attn.w_q.weight, &attn.w_k.weight, &attn.w_v.weight, &attn.w_o.weight] {
        assert_eq!(weight.dtype(), DType::F32);
    }
    assert_eq!(attn.rope.cache_dtype(), DType::F32);
}

#[test]
fn self_attention_default_construction_splits_parameter_and_runtime_defaults() {
    let attn = attention(8, 2, 1, &precision(DType::F32, DType::BF16)).expect("sizes that fit");
    for weight in [&attn.w_q.weight, &attn.w_k.weight, &attn.w_v.weight, &attn.w_o.weight] {
        assert_eq!(weight.dtype(), DType::F32);
    }
    assert_eq!(attn.rope.cache_dtype(), DType::BF16);
}

#[test]
fn self_attention_default_construction_captures_runtime_dtype_for_future_cache_creation() {
    let attn = attention(8, 2, 1, &precision(DType::F32, DType::BF16)).expect("sizes that fit");
    let input = make_tensor(&[1, 1, 8], vec![0.0; 8], DType::F32);
    let (_, cache) = no_grad(&GradMode::new(), |m| attn.forward(&input, None, m, &Native)).expect("one token");
    let cache = cache.expect("no_grad attention should create cache");
    assert_eq!(cache.dtype, DType::BF16);
}

#[test]
fn tokens_one_by_one_give_what_they_give_together() {
    let attn = plain_attention();
    let data: Vec<f32> = (0..24).map(|i| ((i * 5 % 13) as f32) * 0.1 - 0.6).collect();
    let mode = quiet();
    let together = make_tensor(&[1, 3, 8], data.clone(), DType::F32);
    let (steps, _) = attn.forward(&together, None, &mode, &Native).expect("three tokens");
    let expected = data_of(&steps[steps.len() - 1].tensor);

    let mut cache = None;
    let mut one_by_one = Vec::new();
    for i in 0..3 {
        let token = make_tensor(&[1, 1, 8], data[8 * i..8 * i + 8].to_vec(), DType::F32);
        let (steps, after) = attn.forward(&token, cache, &mode, &Native).expect("one token");
        one_by_one.extend(data_of(&steps[steps.len() - 1].tensor));
        cache = after;
    }
    assert_eq!(cache.expect("a cache").len, 3);
    assert_eq!(one_by_one.len(), expected.len());
    for (a, b) in one_by_one.iter().zip(&expected) {
        assert!((a - b).abs() <= 1e-5, "{a} is not {b}");
    }

    let training = attn.forward(&together, None, &GradMode::new(), &Native).expect("three tokens").0;
    for (a, b) in data_of(&training[training.len() - 1].tensor).iter().zip(&expected) {
        assert!((a - b).abs() <= 1e-5, "{a} is not {b}");
    }
}

#[test]
fn attention_refuses_what_does_not_fit() {
    let attn = plain_attention();
    let mode = quiet();
    let refused = |shape: &[usize]| {
        let n: usize = shape.iter().product();
        attn.forward(&make_tensor(shape, vec![0.0; n], DType::F32), None, &mode, &Native).err()
    };
    assert_eq!(refused(&[0, 1, 8]), Some(AttentionError::NoBatch));
    assert_eq!(refused(&[1, 0, 8]), Some(AttentionError::NoSteps));
    assert_eq!(refused(&[1, 1, 7]), Some(AttentionError::HiddenMismatch));
    assert_eq!(refused(&[1, 9, 8]), Some(AttentionError::PositionsExceeded));
    assert_eq!(refused(&[2, 1, 8]), Some(AttentionError::NotSingleBatch));
    let mut full = KVCacheInner::new_with_dtype(1, 1, 8, 4, DType::F32, &Native).expect("a cache");
    full.len = 8;
    let token = make_tensor(&[1, 1, 8], vec![0.0; 8], DType::F32);
    let out = attn.forward(&token, Some(full), &mode, &Native);
    assert_eq!(out.err(), Some(AttentionError::CacheOverflow));
    let input = make_tensor(&[1, 1, 8], vec![0.0; 8], DType::F32);
    let cache = KVCacheInner::new_with_dtype(1, 1, 8, 4, DType::F32, &Native).expect("a cache");
    let out = attn.forward(&input, Some(cache), &GradMode::new(), &Native);
    assert_eq!(out.err(), Some(AttentionError::CacheInTraining));
}

#[test]
fn repeated_heads_stand_side_by_side() {
    let x = make_tensor(&[1, 2, 1, 2], vec![1.0, 2.0, 3.0, 4.0], DType::F32);
    let out = repeat_kv(&x, 2, &quiet(), &Native);
    assert_eq!(out.shape_vec(), vec![1, 4, 1, 2]);
    assert_eq!(data_of(&out), vec![1.0, 2.0, 1.0, 2.0, 3.0, 4.0, 3.0, 4.0]);
}

fn embedding(rows: usize, dim: usize) -> Embedding {
    Embedding::new(ramp(&[rows, dim], 0.02), &precision(DType::F32, DType::F32), &Native)
}

#[test]
fn embedding_accepts_integer_indices() {
    let emb = embedding(8, 4);
    let indices = make_tensor(&[1, 3], vec![0.0, 2.0, 7.0], DType::F32);
    let out = no_grad(&GradMode::new(), |m| emb.forward(&indices, m, &Native)).expect("indices");
    assert_eq!(out.shape_vec(), vec![1, 3, 4]);
}

fn embedding_refusal(index: f32, dtype: DType) -> IndexError {
    let emb = embedding(8, 4);
    let indices = make_tensor(&[1, 1], vec![index], dtype);
    match no_grad(&GradMode::new(), |m| emb.forward(&indices, m, &Native)) {
        Ok(_) => panic!("the index should be refused"),
        Err(e) => {
            assert_eq!(e.position, 0);
            e.reason
        }
    }
}

#[test]
fn embedding_rejects_fractional_indices() {
    assert_eq!(embedding_refusal(1.5, DType::F32), IndexError::NotInteger);
}

#[test]
fn embedding_rejects_negative_indices() {
    assert_eq!(embedding_refusal(-1.0, DType::BF16), IndexError::Negative);
}

#[test]
fn embedding_rejects_nan_indices() {
    assert_eq!(embedding_refusal(f32::NAN, DType::F32), IndexError::NotFinite);
}

#[test]
fn embedding_rejects_indices_beyond_the_table() {
    assert_eq!(embedding_refusal(8.0, DType::F32), IndexError::OutOfBounds);
}

#[test]
fn embedding_no_grad_preserves_bf16_weight_dtype() {
    let table = array(&[4, 2], &[0.0, 1.0, 2.0, 3.0, 4.0, 5.0, 6.0, 7.0]);
    let emb = Embedding::new_with_dtype(table, DType::BF16, &Native);
    let indices = make_tensor(&[1, 2], vec![1.0, 3.0], DType::F32);

    let out = no_grad(&GradMode::new(), |m| emb.forward(&indices, m, &Native)).expect("indices");
    assert_eq!(out.dtype(), DType::BF16);
    assert_eq!(bf16_values(&out), vec![2.0, 3.0, 6.0, 7.0]);
}

#[test]
fn embedding_no_grad_preserves_i8_weight_dtype() {
    let table = || array(&[4, 2], &[0.0, 1.0, 2.0, 3.0, 4.0, 5.0, 6.0, 7.0]);
    let emb = Embedding::new_with_dtype(table(), DType::I8, &Native);
    let indices = make_tensor(&[1, 2], vec![1.0, 3.0], DType::F32);
    let mode = quiet();

    let out = emb.forward(&indices, &mode, &Native).expect("indices");
    assert_eq!(out.dtype(), DType::I8);
    let reference = Embedding::new_with_dtype(table(), DType::I8, &Native);
    let ref_vals = data_of(&reference.forward(&indices, &mode, &Native).expect("indices"));
    assert_eq!(data_of(&out), ref_vals);
}

#[test]
fn embedding_explicit_dtype_overrides_global_default() {
    let emb = Embedding::new_with_dtype(ramp(&[8, 4], 0.02), DType::F32, &Native);
    assert_eq!(emb.weight.dtype(), DType::F32);
}

#[test]
fn rms_norm_no_grad_preserves_bf16_input_dtype() {
    let mut norm = RMSNorm::new(4, 1e-5f32.to_bits());
    norm.weight = Tensor::parameter_with_dtype(&Native, array(&[4], &[1.0, 0.5, 1.5, 2.0]), DType::BF16);
    let input_f32 = make_tensor(&[1, 1, 4], vec![1.0, -2.0, 3.0, -4.0], DType::F32);
    let input_bf16 = make_tensor(&[1, 1, 4], vec![1.0, -2.0, 3.0, -4.0], DType::BF16);
    let mode = quiet();

    let ref_out = norm.forward(&input_f32, &mode, &Native);
    let bf16_out = norm.forward(&input_bf16, &mode, &Native);

    assert_eq!(bf16_out.dtype(), DType::BF16);
    assert_eq!(bf16_values(&bf16_out), quantize_bf16(&data_of(&ref_out)));
    let scale = 1.0 / (7.5f32 + 1e-5).sqrt();
    for (a, b) in data_of(&ref_out).iter().zip([1.0, -1.0, 4.5, -8.0]) {
        assert!((a - b * scale).abs() <= 1e-5);
    }
}

#[test]
fn rms_norm_explicit_dtype_overrides_global_default() {
    let norm = RMSNorm::new_with_dtype(4, 1e-5f32.to_bits(), DType::F32, &Native);
    assert_eq!(norm.weight.dtype(), DType::F32);
}

#[test]
fn mse_loss_no_grad_returns_f32_scalar_without_materializing_bf16_input() {
    let output = make_tensor(&[2], vec![1.0, 3.0], DType::BF16);
    let target = make_tensor(&[2], vec![2.0, 1.0], DType::BF16);

    let loss = no_grad(&GradMode::new(), |m| MSELoss::apply(&output, &target, m, &Native));

    assert_eq!(loss.dtype(), DType::F32);
    assert!(!loss.requires_grad());
    assert_eq!(output.dtype(), DType::BF16);
    assert_eq!(target.dtype(), DType::BF16);
    assert!((data_of(&loss)[0] - 2.5).abs() <= 1e-6);
}

#[test]
fn cross_entropy_no_grad_accepts_i8_logits_and_returns_f32_scalar() {
    let logits = make_tensor(&[2, 3], vec![2.0, 0.0, -1.0, -1.0, 0.0, 2.0], DType::I8);
    let target = make_tensor(&[2, 3], vec![1.0, 0.0, 0.0, 0.0, 0.0, 1.0], DType::F32);

    let loss = no_grad(&GradMode::new(), |m| CrossEntropyLoss::apply(&logits, &target, m, &Native));

    assert_eq!(loss.dtype(), DType::F32);
    assert!(!loss.requires_grad());
    assert_eq!(logits.dtype(), DType::I8);
    assert!(data_of(&loss)[0].is_finite());
    assert!((data_of(&loss)[0] - 0.1698).abs() <= 0.02);
}

/// A graph with one parameter of ones, and a gradient for it.
fn graph_with_gradient(gradient: f32) -> Graph {
    let mut g = Graph::new();
    let mut param = Tensor::parameter(array(&[2], &[1.0, 1.0]));
    let grad = std::sync::Arc::new(array(&[2], &[gradient, gradient]));
    assert!(param.add_grad(&Native, grad).is_ok());
    g.push(param, Vec::new());
    g
}

#[test]
fn sgd_default_construction_captures_runtime_dtype_for_future_state() {
    let mut g = graph_with_gradient(0.5);
    let mut opt = SGD::new(vec![0], 0.1f32.to_bits(), &precision(DType::F32, DType::BF16))
        .expect("a floating dtype")
        .with_momentum(0.9f32.to_bits());
    opt.step(&mut g, &Native);

    assert_eq!(opt.state_dtype(), DType::BF16);
    assert_eq!(opt.velocities[0].as_ref().expect("velocity state").dtype(), DType::BF16);
}

#[test]
fn sgd_explicit_state_dtype_overrides_global_default() {
    let mut g = graph_with_gradient(0.5);
    let mut opt = SGD::new_with_dtype(vec![0], 0.1f32.to_bits(), DType::F32)
        .expect("a floating dtype")
        .with_momentum(0.9f32.to_bits());
    opt.step(&mut g, &Native);

    assert_eq!(opt.state_dtype(), DType::F32);
    assert_eq!(opt.velocities[0].as_ref().expect("velocity state").dtype(), DType::F32);
    assert_eq!(data_of(&g.nodes[0].tensor), vec![0.95, 0.95]);
}

#[test]
fn adam_default_construction_captures_runtime_dtype_for_future_state() {
    let mut g = graph_with_gradient(0.25);
    let mut opt =
        Adam::new(vec![0], 0.1f32.to_bits(), &precision(DType::F32, DType::BF16)).expect("a floating dtype");
    opt.step(&mut g, &Native);

    assert_eq!(opt.state_dtype(), DType::BF16);
    assert_eq!(opt.exp_avg[0].as_ref().expect("exp_avg").dtype(), DType::BF16);
    assert_eq!(opt.exp_avg_sq[0].as_ref().expect("exp_avg_sq").dtype(), DType::BF16);
}

#[test]
fn optimizer_state_rejects_integer_dtype() {
    assert!(SGD::new_with_dtype(Vec::new(), 0.1f32.to_bits(), DType::I8).is_err());
    assert!(Adam::new_with_dtype(Vec::new(), 0.1f32.to_bits(), DType::I8).is_err());
}

#[test]
fn adam_moves_by_the_rate_at_first() {
    let mut g = graph_with_gradient(0.25);
    let mut opt = Adam::new_with_dtype(vec![0], 0.1f32.to_bits(), DType::F32).expect("a floating dtype");
    opt.step(&mut g, &Native);
    for v in data_of(&g.nodes[0].tensor) {
        assert!((v - 0.9).abs() <= 1e-5);
    }
    assert!(g.nodes[0].tensor.grad().is_some());
    Optimizer::<Native>::zero_grad(&opt, &mut g);
    assert!(g.nodes[0].tensor.grad().is_none());
}

#[test]
fn gradients_of_another_shape_are_refused() {
    let mut param = Tensor::parameter(array(&[2], &[1.0, 1.0]));
    let grad = std::sync::Arc::new(array(&[3], &[0.0; 3]));
    assert!(param.add_grad(&Native, grad).is_err());
}

#[test]
fn linear_layers_multiply_and_add() {
    let mut layer = Linear::new(array(&[2, 3], &[1.0, 2.0, 3.0, 4.0, 5.0, 6.0]), &precision(DType::F32, DType::F32), &Native);
    layer.bias = Some(Tensor::parameter(array(&[2], &[10.0, 20.0])));
    let x = make_tensor(&[1, 3], vec![1.0, 0.0, -1.0], DType::F32);
    let steps = layer.forward(&x, &quiet(), &Native).expect("three features");
    assert_eq!(data_of(&steps[steps.len() - 1].tensor), vec![8.0, 18.0]);
    let short = make_tensor(&[1, 2], vec![1.0, 0.0], DType::F32);
    assert!(layer.forward(&short, &quiet(), &Native).is_err());
}

#[test]
fn dropout_scales_what_it_keeps() {
    let mut drop = Dropout::new(0.5f32.to_bits());
    let x = make_tensor(&[4], vec![1.0, 2.0, 3.0, 4.0], DType::F32);
    let keep = vec![true, false, true, false];
    let steps = drop.forward(&x, &keep, &quiet(), &Native);
    assert_eq!(data_of(&steps[1].tensor), vec![2.0, 0.0, 6.0, 0.0]);
    drop.eval_mode();
    assert!(drop.forward(&x, &keep, &quiet(), &Native).is_empty());
    drop.train_mode();
    assert_eq!(drop.forward(&x, &keep, &quiet(), &Native).len(), 2);
}

#[test]
fn attention_keeps_the_keys_of_earlier_tokens() {
    let attn = plain_attention();
    let mode = quiet();
    let first = make_tensor(&[1, 2, 8], (0..16).map(|i| i as f32 * 0.1 - 0.5).collect(), DType::F32);
    let second = make_tensor(&[1, 1, 8], vec![0.3; 8], DType::F32);
    let (_, cache) = attn.forward(&first, None, &mode, &Native).expect("two tokens");
    let cache = cache.expect("a cache");
    let before = data_of(&cache.k);
    let (_, cache) = attn.forward(&second, Some(cache), &mode, &Native).expect("one token");
    let cache = cache.expect("a cache");
    let after = data_of(&cache.k);
    assert_eq!(cache.len, 3);
    assert_eq!(before[..8], after[..8]);
    assert!(before[8..12].iter().all(|v| *v == 0.0));
    assert!(after[8..12].iter().any(|v| *v != 0.0));
    assert!(after[12..].iter().all(|v| *v == 0.0));
}

#[test]
fn a_single_step_passes_over_what_it_does_not_see() {
    let q = array(&[1, 2, 1, 2], &[0.5, 1.0, -1.0, 2.0]);
    let keys = array(&[1, 1, 3, 2], &[1.0, 0.0, 0.0, 1.0, f32::NAN, 5.0]);
    let vals = array(&[1, 1, 3, 2], &[2.0, 4.0, -6.0, 8.0, f32::INFINITY, 1.0]);
    let out = gqa_attention_no_repeat_bshd_view(&q, &keys, &vals, 3, 1.0f32.to_bits(), true, 2, 1, &Native);
    assert_eq!(out.shape, vec![1, 1, 2, 2]);
    let weigh = |a: f32, b: f32| {
        let m = a.max(b);
        let (x, y) = ((a - m).exp(), (b - m).exp());
        let inv = 1.0 / ((x + y) + 1e-9);
        [(x * 2.0 + y * -6.0) * inv, (x * 4.0 + y * 8.0) * inv]
    };
    let expected = [weigh(0.5, 1.0), weigh(-1.0, 2.0)].concat();
    assert_eq!(values(&out.data), expected);
    let out = gqa_attention_no_repeat_bshd_view(&q, &keys, &vals, 3, 1.0f32.to_bits(), true, 2, 0, &Native);
    assert_eq!(values(&out.data), vec![2.0, 4.0, 2.0, 4.0]);
}

#[test]
fn norms_round_the_result_of_single_precision() {
    let mode = quiet();
    let x = make_tensor(&[2, 4], vec![0.3, -1.7, 2.2, 0.9, 5.0, -0.1, 0.7, 1.3], DType::BF16);
    let wide = make_tensor(&[2, 4], data_of(&x), DType::F32);
    let norm = RMSNorm::new(4, 1e-5f32.to_bits());
    let narrow = norm.forward(&x, &mode, &Native);
    let mut single = norm.forward(&wide, &mode, &Native);
    single.cast_inplace(&Native, DType::BF16);
    assert_eq!(narrow.dtype(), DType::BF16);
    assert_eq!(data_of(&narrow), data_of(&single));
}

#[test]
fn a_single_token_is_rotated_alike() {
    let rope = RotaryEmbedding::new_with_dtype(6, 8, 10000.0f32.to_bits(), DType::F32, &Native).expect("a float dtype");
    let src = [0.5f32, -1.0, 2.0, 0.25, 3.0, -0.75];
    let x = make_tensor(&[1, 1, 1, 6], src.to_vec(), DType::F32);
    let t = rope.forward(&x, 5, &quiet(), &Native).expect("a position");
    let mut dst = vec![0u32; 6];
    assert_eq!(rope.rope_1token_copy(&bits(&src), &mut dst, 5, &Native), Ok(()));
    assert_eq!(data_of(&t), values(&dst));
    assert!(rope.forward(&x, 8, &quiet(), &Native).is_err());
    assert!(rope.rope_1token_copy(&bits(&src), &mut dst, 8, &Native).is_err());
}

fn part(data: &[f32], steps: std::ops::Range<usize>) -> Tensor {
    let (batch, all, e) = (2, 5, 8);
    let count = steps.len();
    let mut tokens = Vec::new();
    for b in 0..batch {
        tokens.extend_from_slice(&data[(b * all + steps.start) * e..(b * all + steps.end) * e]);
    }
    make_tensor(&[batch, count, e], tokens, DType::F32)
}

fn last_bits(steps: &[lumen::graph::Node]) -> Vec<u32> {
    bits(&data_of(&steps[steps.len() - 1].tensor))
}

#[test]
fn tokens_in_parts_come_out_as_at_once() {
    for runtime in [DType::F32, DType::BF16] {
        let attn = attention(8, 2, 1, &precision(DType::F32, runtime)).expect("sizes that fit");
        let mode = quiet();
        let data: Vec<f32> = (0..80).map(|i| ((i * 7 % 23) as f32) * 0.1 - 1.1).collect();
        let (steps, cache) = attn.forward(&part(&data, 0..5), None, &mode, &Native).expect("five tokens");
        let whole = last_bits(&steps);
        let (steps, middle) = attn.forward(&part(&data, 0..2), None, &mode, &Native).expect("two tokens");
        let first = last_bits(&steps);
        let (steps, last) = attn.forward(&part(&data, 2..5), middle, &mode, &Native).expect("three tokens");
        let second = last_bits(&steps);
        for b in 0..2 {
            assert_eq!(first[b * 16..(b + 1) * 16], whole[b * 40..b * 40 + 16]);
            assert_eq!(second[b * 24..(b + 1) * 24], whole[b * 40 + 16..(b + 1) * 40]);
        }
        let (cache, last) = (cache.expect("a cache"), last.expect("a cache"));
        assert_eq!((cache.len, last.len), (5, 5));
        assert_eq!(data_of(&cache.k), data_of(&last.k));
        assert_eq!(data_of(&cache.v), data_of(&last.v));
    }
}

#[test]
fn a_query_passes_over_later_keys_and_values() {
    let q = array(&[1, 1, 2, 2], &[0.5, 1.0, -1.0, 2.0]);
    let keys = array(&[1, 1, 4, 2], &[1.0, 0.0, 0.5, 1.0, 3.0, 5.0, -2.0, 1.0]);
    let vals = array(&[1, 1, 4, 2], &[2.0, 4.0, -6.0, 8.0, 3.0, 1.0, 0.5, 0.25]);
    let other_keys = array(&[1, 1, 4, 2], &[1.0, 0.0, 0.5, 1.0, -7.0, 9.0, 0.0, 4.0]);
    let other_vals = array(&[1, 1, 4, 2], &[2.0, 4.0, -6.0, 8.0, 100.0, -50.0, 7.0, 9.0]);
    let scale = 0.5f32.to_bits();
    let short = gqa_attention_no_repeat_bshd_view(&q, &keys, &vals, 2, scale, true, 1, 0, &Native);
    let long = gqa_attention_no_repeat_bshd_view(&q, &keys, &vals, 4, scale, true, 1, 0, &Native);
    let other = gqa_attention_no_repeat_bshd_view(&q, &other_keys, &other_vals, 4, scale, true, 1, 0, &Native);
    assert_eq!(short.data, long.data);
    assert_eq!(long.data, other.data);
    let open = gqa_attention_no_repeat_bshd_view(&q, &other_keys, &other_vals, 4, scale, false, 1, 0, &Native);
    assert_ne!(open.data, other.data);
}

#[test]
fn tokens_are_rotated_by_their_positions_alone() {
    let rope = RotaryEmbedding::new_with_dtype(4, 8, 10000.0f32.to_bits(), DType::F32, &Native).expect("a float dtype");
    let data: Vec<f32> = (0..24).map(|i| (i as f32) * 0.25 - 2.0).collect();
    let x = make_tensor(&[1, 2, 3, 4], data.clone(), DType::F32);
    let t = bits(&data_of(&rope.forward(&x, 2, &quiet(), &Native).expect("positions")));
    for row in 0..6 {
        let mut dst = vec![0u32; 4];
        let src = bits(&data[row * 4..row * 4 + 4]);
        assert_eq!(rope.rope_1token_copy(&src, &mut dst, 2 + row % 3, &Native), Ok(()));
        assert_eq!(t[row * 4..row * 4 + 4], dst[..]);
    }
}

#[test]
fn shares_keep_the_order_of_a_row() {
    let data = vec![0.5, -3.0, 2.25, 2.25, 80.0, -80.0, 0.0, 1e-3];
    let x = make_tensor(&[2, 4], data.clone(), DType::F32);
    let y = data_of(&Softmax::new(1).forward(&x, &quiet(), &Native).expect("the last axis"));
    for row in 0..2 {
        for i in row * 4..row * 4 + 4 {
            assert!((0.0..=1.0).contains(&y[i]));
            for j in row * 4..row * 4 + 4 {
                assert!(data[i] > data[j] || y[i] <= y[j]);
            }
        }
    }
}

#[test]
fn the_first_position_keeps_its_features() {
    let rope = RotaryEmbedding::new_with_dtype(4, 8, 10000.0f32.to_bits(), DType::F32, &Native).expect("a float dtype");
    let data: Vec<f32> = (0..16).map(|i| (i as f32) * 0.75 - 5.5).collect();
    let x = make_tensor(&[1, 2, 2, 4], data.clone(), DType::F32);
    let t = data_of(&rope.forward(&x, 0, &quiet(), &Native).expect("positions"));
    assert_eq!(t[..4], data[..4]);
    assert_eq!(t[8..12], data[8..12]);
    assert_ne!(t[4..8], data[4..8]);
}

#[test]
fn steps_continue_alike_from_parts_and_from_the_whole() {
    let attn = plain_attention();
    let mode = quiet();
    let data: Vec<f32> = (0..48).map(|i| ((i * 11 % 17) as f32) * 0.1 - 0.8).collect();
    let tokens = |from: usize, to: usize| make_tensor(&[1, to - from, 8], data[from * 8..to * 8].to_vec(), DType::F32);
    let (_, mut whole) = attn.forward(&tokens(0, 4), None, &mode, &Native).expect("four tokens");
    let (_, middle) = attn.forward(&tokens(0, 2), None, &mode, &Native).expect("two tokens");
    let (_, mut parts) = attn.forward(&tokens(2, 4), middle, &mode, &Native).expect("two tokens");
    for i in 4..6 {
        let (a, after) = attn.forward(&tokens(i, i + 1), whole, &mode, &Native).expect("one token");
        whole = after;
        let (b, after) = attn.forward(&tokens(i, i + 1), parts, &mode, &Native).expect("one token");
        parts = after;
        assert_eq!(last_bits(&a), last_bits(&b));
    }
    assert_eq!(data_of(&whole.expect("a cache").k), data_of(&parts.expect("a cache").k));
}
