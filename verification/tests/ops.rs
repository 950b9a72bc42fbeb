use lumen::array::NdArray;
use lumen::autograd::{no_grad, set_inference_mode, GradMode, Tensor, TensorStorage};
use lumen::fpu::Fpu;
use lumen::ops::arithmetic::{add_tensors, mul_tensors, sub_tensors, sum};
use lumen::ops::fused::{
    fused_gate_up_silu_infer, fused_gate_up_silu_infer_into, fused_qkv_decode_infer, fused_qkv_decode_infer_into,
    fused_softmax,
};
use lumen::ops::int8_kernels::{
    active_int8_backend, active_int8_backend_name, dot2_f32_i8_arch, dot3_f32_i8_arch, dot_f32_i8_arch,
    Int8KernelBackend, Int8Support,
};
use lumen::layers::activation::SiLU;
use lumen::ops::matmul::matmul;
use lumen::ops::shape::{cat, permute, reshape, slice_last_dim, PermuteError, ReshapeError, SliceError};
use lumen::precision::DType;

struct Native;

fn value(bits: u32) -> f32 {
    f32::from_bits(bits)
}

impl Fpu for Native {
    fn add(&self, a: u32, b: u32) -> u32 {
        (value(a) + value(b)).to_bits()
    }
    fn sub(&self, a: u32, b: u32) -> u32 {
        (value(a) - value(b)).to_bits()
    }
    fn mul(&self, a: u32, b: u32) -> u32 {
        (value(a) * value(b)).to_bits()
    }
    fn div(&self, a: u32, b: u32) -> u32 {
        (value(a) / value(b)).to_bits()
    }
    fn sqrt(&self, a: u32) -> u32 {
        value(a).sqrt().to_bits()
    }
    fn exp(&self, a: u32) -> u32 {
        value(a).exp().to_bits()
    }
    fn ln(&self, a: u32) -> u32 {
        value(a).ln().to_bits()
    }
    fn tanh(&self, a: u32) -> u32 {
        value(a).tanh().to_bits()
    }
    fn cos(&self, a: u32) -> u32 {
        value(a).cos().to_bits()
    }
    fn sin(&self, a: u32) -> u32 {
        value(a).sin().to_bits()
    }
    fn powf(&self, a: u32, b: u32) -> u32 {
        value(a).powf(value(b)).to_bits()
    }
    fn powi(&self, a: u32, n: i32) -> u32 {
        value(a).powi(n).to_bits()
    }
    fn parse(&self, text: &String) -> Option<u32> {
        text.parse::<f32>().ok().map(|v| v.to_bits())
    }
    fn from_count(&self, n: usize) -> u32 {
        (n as f32).to_bits()
    }
    fn from_byte(&self, q: i8) -> u32 {
        (q as f32).to_bits()
    }
    fn to_byte(&self, a: u32) -> i8 {
        value(a).round().clamp(-127.0, 127.0) as i8
    }
    fn byte_step(&self, xs: &[u32]) -> u32 {
        let largest = xs.iter().fold(0.0f32, |m, x| m.max(value(*x).abs()));
        let step = if largest > 0.0 { largest / 127.0 } else { 1.0 };
        step.to_bits()
    }
    fn sum(&self, xs: &[u32]) -> u32 {
        xs.iter().map(|x| value(*x)).sum::<f32>().to_bits()
    }
    fn dot(&self, xs: &[u32], ys: &[u32]) -> u32 {
        xs.iter().zip(ys).map(|(x, y)| value(*x) * value(*y)).sum::<f32>().to_bits()
    }
    fn dot_bytes(&self, xs: &[u32], qs: &[i8]) -> u32 {
        xs.iter().zip(qs).map(|(x, q)| value(*x) * *q as f32).sum::<f32>().to_bits()
    }
    fn keeps(&self, p: u32) -> bool {
        value(p) <= 0.5
    }
}

fn bits(values: &[f32]) -> Vec<u32> {
    values.iter().map(|v| v.to_bits()).collect()
}

fn values(bits: &[u32]) -> Vec<f32> {
    bits.iter().map(|b| value(*b)).collect()
}

fn array(shape: &[usize], data: &[f32]) -> NdArray<u32> {
    NdArray::from_shape_vec(shape.to_vec(), bits(data)).expect("test tensor shape mismatch")
}

fn make_tensor(shape: &[usize], data: Vec<f32>, dtype: DType) -> Tensor {
    let mut t = Tensor::from_array_no_grad(array(shape, &data));
    t.cast_inplace(&Native, dtype);
    t
}

fn data_of(t: &Tensor) -> Vec<f32> {
    values(&t.data(&Native).data)
}

fn quiet() -> GradMode {
    let mut mode = GradMode::new();
    set_inference_mode(&mut mode, true);
    mode
}

fn bf16_values(t: &Tensor) -> Vec<f32> {
    match t.data_ref() {
        TensorStorage::BF16(a) => a.data.iter().map(|b| half::bf16::from_bits(*b).to_f32()).collect(),
        _ => panic!("the output should stay in the precision of the input"),
    }
}

fn sample_f32(len: usize) -> Vec<f32> {
    (0..len).map(|i| (((i * 19 + 7) % 31) as f32) / 15.0 - 1.0).collect()
}

fn quantize_bf16(src: &[f32]) -> Vec<f32> {
    src.iter().map(|&v| half::bf16::from_f32(v).to_f32()).collect()
}

fn quantize_f16(src: &[f32]) -> Vec<f32> {
    src.iter().map(|&v| half::f16::from_f32(v).to_f32()).collect()
}

fn quantize_i8(shape: &[usize], src: &[f32]) -> Vec<f32> {
    data_of(&make_tensor(shape, src.to_vec(), DType::I8))
}

fn assert_close(lhs: &[f32], rhs: &[f32], tol: f32) {
    assert_eq!(lhs.len(), rhs.len());
    for (idx, (&a, &b)) in lhs.iter().zip(rhs.iter()).enumerate() {
        assert!((a - b).abs() <= tol, "idx={idx}, lhs={a}, rhs={b}, tol={tol}");
    }
}

#[test]
fn bf16_add_no_grad_preserves_dtype_and_inputs() {
    let lhs = make_tensor(&[2], vec![1.0, -2.0], DType::BF16);
    let rhs = make_tensor(&[2], vec![0.5, 3.0], DType::BF16);

    let out = no_grad(&GradMode::new(), |m| add_tensors(&lhs, &rhs, m, &Native));

    assert_eq!(lhs.dtype(), DType::BF16);
    assert_eq!(rhs.dtype(), DType::BF16);
    assert_eq!(out.dtype(), DType::BF16);
    let expected = vec![half::bf16::from_f32(1.5).to_f32(), half::bf16::from_f32(1.0).to_f32()];
    assert_eq!(bf16_values(&out), expected);
}

#[test]
fn mixed_add_no_grad_promotes_to_f32_without_mutating_bf16_input() {
    let lhs = make_tensor(&[2], vec![1.0, -2.0], DType::BF16);
    let rhs = make_tensor(&[2], vec![0.5, 3.0], DType::F32);

    let out = no_grad(&GradMode::new(), |m| add_tensors(&lhs, &rhs, m, &Native));

    assert_eq!(lhs.dtype(), DType::BF16);
    assert_eq!(rhs.dtype(), DType::F32);
    assert_eq!(out.dtype(), DType::F32);
    assert_eq!(data_of(&out), vec![1.5, 1.0]);
}

#[test]
fn bf16_mul_no_grad_preserves_dtype() {
    let lhs = make_tensor(&[2], vec![2.0, -1.5], DType::BF16);
    let rhs = make_tensor(&[2], vec![0.25, 2.0], DType::BF16);

    let out = no_grad(&GradMode::new(), |m| mul_tensors(&lhs, &rhs, m, &Native));
    assert_eq!(out.dtype(), DType::BF16);
}

#[test]
fn bf16_sum_no_grad_keeps_input_dtype() {
    let input = make_tensor(&[2, 2], vec![1.0, 2.0, 3.0, 4.0], DType::BF16);
    let out = no_grad(&GradMode::new(), |m| sum(&input, m, &Native));
    assert_eq!(input.dtype(), DType::BF16);
    assert_eq!(out.dtype(), DType::F32);
    assert_eq!(data_of(&out).first().copied(), Some(10.0));
}

#[test]
fn i8_add_no_grad_preserves_dtype() {
    let lhs = make_tensor(&[2], vec![1.0, -2.0], DType::I8);
    let rhs = make_tensor(&[2], vec![0.5, 3.0], DType::I8);

    let out = no_grad(&GradMode::new(), |m| add_tensors(&lhs, &rhs, m, &Native));

    assert_eq!(lhs.dtype(), DType::I8);
    assert_eq!(rhs.dtype(), DType::I8);
    assert_eq!(out.dtype(), DType::I8);
    let vals = data_of(&out);
    assert!((vals[0] - 1.5).abs() <= 0.02);
    assert!((vals[1] - 1.0).abs() <= 0.02);
}

#[test]
fn i8_mul_no_grad_preserves_dtype() {
    let lhs = make_tensor(&[2], vec![2.0, -1.5], DType::I8);
    let rhs = make_tensor(&[2], vec![0.25, 2.0], DType::I8);

    let out = no_grad(&GradMode::new(), |m| mul_tensors(&lhs, &rhs, m, &Native));
    assert_eq!(out.dtype(), DType::I8);
}

#[test]
fn broadcasting_stretches_missing_axes() {
    let lhs = make_tensor(&[2, 3], vec![1.0, 2.0, 3.0, 4.0, 5.0, 6.0], DType::F32);
    let rhs = make_tensor(&[3], vec![10.0, 20.0, 30.0], DType::F32);
    let out = sub_tensors(&lhs, &rhs, &quiet(), &Native);
    assert_eq!(out.shape_vec(), vec![2, 3]);
    assert_eq!(data_of(&out), vec![-9.0, -18.0, -27.0, -6.0, -15.0, -24.0]);
}

#[test]
fn backend_name_matches_backend_enum() {
    for arm64 in [false, true] {
        for x86 in [false, true] {
            let support = Int8Support { arm64, x86 };
            let name = active_int8_backend_name(&support);
            match active_int8_backend(&support) {
                Int8KernelBackend::Portable => assert_eq!(name, "portable"),
                Int8KernelBackend::Arm64Neon => assert_eq!(name, "arm64-neon"),
                Int8KernelBackend::X86Avx2 => assert_eq!(name, "x86-avx2"),
            }
        }
    }
}

#[test]
fn architecture_dispatch_consistency() {
    let x = bits(&[0.5f32, -1.0, 2.0, 0.25, -0.75, 1.5, -0.5, 3.0]);
    let row0 = [3i8, -2, 5, 1, -4, 6, -1, 2];
    let row1 = [-1i8, 4, -3, 2, 5, -2, 7, -6];
    let row2 = [2i8, 1, -2, 3, -5, 4, 1, -3];
    let (s0, s1, s2) = (0.125f32.to_bits(), 0.25f32.to_bits(), 0.5f32.to_bits());
    for arm64 in [false, true] {
        for x86 in [false, true] {
            let support = Int8Support { arm64, x86 };
            let single = dot_f32_i8_arch(&x, &row0, s0, &support, &Native);
            let triple = dot3_f32_i8_arch(&x, &row0, s0, &row1, s1, &row2, s2, &support, &Native);

            if active_int8_backend(&support) == Int8KernelBackend::Portable {
                assert!(single.is_none());
                assert!(triple.is_none());
            } else {
                assert!(single.is_some());
                assert!(triple.is_some());
                assert_eq!(single.map(value), Some(0.125 * 32.25));
            }
        }
    }
}

#[test]
fn length_mismatch_disables_arch_fast_path() {
    let x = bits(&[1.0f32, 2.0, 3.0, 4.0]);
    let short = [1i8, 2];
    let (s0, s1, s2) = (0.5f32.to_bits(), 0.25f32.to_bits(), 0.125f32.to_bits());
    let support = Int8Support { arm64: false, x86: true };

    assert!(dot_f32_i8_arch(&x, &short, s0, &support, &Native).is_none());
    assert!(dot2_f32_i8_arch(&x, &short, s0, &short, s1, &support, &Native).is_none());
    assert!(dot3_f32_i8_arch(&x, &short, s0, &short, s1, &short, s2, &support, &Native).is_none());
}

#[test]
fn reshape_supports_single_inferred_dimension() {
    let input = make_tensor(&[2, 3, 4], (0..24).map(|v| v as f32).collect(), DType::F32);
    let out = no_grad(&GradMode::new(), |m| reshape(&input, vec![2, -1], m, &Native));
    assert_eq!(out.expect("a shape that fits").shape_vec(), vec![2, 12]);
}

#[test]
fn reshape_rejects_multiple_inferred_dimensions() {
    let input = make_tensor(&[2, 3, 4], (0..24).map(|v| v as f32).collect(), DType::F32);
    let out = no_grad(&GradMode::new(), |m| reshape(&input, vec![-1, -1], m, &Native));
    assert!(matches!(out, Err(ReshapeError::SecondInferredDimension)));
}

#[test]
fn reshape_rejects_invalid_negative_dimension() {
    let input = make_tensor(&[2, 3, 4], (0..24).map(|v| v as f32).collect(), DType::F32);
    let out = no_grad(&GradMode::new(), |m| reshape(&input, vec![2, -2, 6], m, &Native));
    assert!(matches!(out, Err(ReshapeError::NegativeDimension)));
}

#[test]
fn reshape_names_what_does_not_fit() {
    let input = make_tensor(&[2, 3], vec![0.0; 6], DType::F32);
    let mode = quiet();
    assert!(matches!(reshape(&input, vec![], &mode, &Native), Err(ReshapeError::NoDimension)));
    assert!(matches!(reshape(&input, vec![4, -1], &mode, &Native), Err(ReshapeError::NotDivisible)));
    assert!(matches!(reshape(&input, vec![0, -1], &mode, &Native), Err(ReshapeError::InferWithZeroProduct)));
    assert!(matches!(reshape(&input, vec![4, 2], &mode, &Native), Err(ReshapeError::CountMismatch)));
    let huge = vec![i32::MAX, i32::MAX, i32::MAX];
    assert!(matches!(reshape(&input, huge, &mode, &Native), Err(ReshapeError::ProductOverflow)));
}

#[test]
fn slice_last_dim_rejects_out_of_bounds_end() {
    let input = make_tensor(&[2, 3], (0..6).map(|v| v as f32).collect(), DType::F32);
    let out = no_grad(&GradMode::new(), |m| slice_last_dim(&input, 0, 4, m, &Native));
    assert!(matches!(out, Err(SliceError::EndOutOfBounds)));
    let mode = quiet();
    assert!(matches!(slice_last_dim(&input, 3, 2, &mode, &Native), Err(SliceError::StartAfterEnd)));
}

#[test]
fn slice_last_dim_takes_the_middle() {
    let input = make_tensor(&[2, 3], (0..6).map(|v| v as f32).collect(), DType::F32);
    let out = slice_last_dim(&input, 1, 3, &quiet(), &Native).expect("within the bounds");
    assert_eq!(out.shape_vec(), vec![2, 2]);
    assert_eq!(data_of(&out), vec![1.0, 2.0, 4.0, 5.0]);
}

#[test]
fn bf16_shape_ops_preserve_native_dtype_in_no_grad() {
    let input = make_tensor(&[2, 3, 4], (0..24).map(|v| v as f32 * 0.25).collect(), DType::BF16);
    let mode = quiet();

    let reshaped = reshape(&input, vec![2, -1], &mode, &Native).expect("reshape");
    let permuted = permute(&input, vec![2, 0, 1], &mode, &Native).expect("permute");
    let sliced = slice_last_dim(&input, 1, 3, &mode, &Native).expect("slice");

    assert_eq!(reshaped.dtype(), DType::BF16);
    assert_eq!(permuted.dtype(), DType::BF16);
    assert_eq!(sliced.dtype(), DType::BF16);
}

#[test]
fn bf16_cat_preserves_native_dtype_in_no_grad() {
    let lhs = make_tensor(&[1, 2], vec![0.0, 1.0], DType::BF16);
    let rhs = make_tensor(&[1, 2], vec![2.0, 3.0], DType::BF16);

    let out = no_grad(&GradMode::new(), |m| cat(&vec![lhs.clone(), rhs.clone()], 0, m, &Native)).expect("cat");
    assert_eq!(out.shape_vec(), vec![2, 2]);
    assert_eq!(out.dtype(), DType::BF16);
    assert_eq!(data_of(&out), vec![0.0, 1.0, 2.0, 3.0]);
}

#[test]
fn i8_shape_ops_preserve_native_dtype_in_no_grad() {
    let input = make_tensor(&[2, 3, 4], (0..24).map(|v| v as f32 * 0.125 - 1.0).collect(), DType::I8);
    let mode = quiet();

    let reshaped = reshape(&input, vec![2, -1], &mode, &Native).expect("reshape");
    let permuted = permute(&input, vec![2, 0, 1], &mode, &Native).expect("permute");
    let sliced = slice_last_dim(&input, 1, 3, &mode, &Native).expect("slice");
    let cat_out = cat(&vec![input.clone(), input.clone()], 0, &mode, &Native).expect("cat");

    assert_eq!(reshaped.dtype(), DType::I8);
    assert_eq!(permuted.dtype(), DType::I8);
    assert_eq!(sliced.dtype(), DType::I8);
    assert_eq!(cat_out.dtype(), DType::I8);

    match reshaped.data_ref() {
        TensorStorage::I8(_, scale) => assert!(value(*scale) > 0.0),
        _ => panic!("reshape should keep i8 storage"),
    }
}

#[test]
fn permute_rejects_duplicate_axes() {
    let input = make_tensor(&[2, 3, 4], (0..24).map(|v| v as f32).collect(), DType::F32);
    let out = no_grad(&GradMode::new(), |m| permute(&input, vec![0, 1, 1], m, &Native));
    assert!(matches!(out, Err(PermuteError::DuplicateAxis)));
    let mode = quiet();
    assert!(matches!(permute(&input, vec![0, 1], &mode, &Native), Err(PermuteError::LengthMismatch)));
    assert!(matches!(permute(&input, vec![0, 1, 3], &mode, &Native), Err(PermuteError::AxisOutOfBounds)));
}

#[test]
fn permute_moves_elements_and_back() {
    let input = make_tensor(&[2, 3], (0..6).map(|v| v as f32).collect(), DType::F32);
    let mode = quiet();
    let turned = permute(&input, vec![1, 0], &mode, &Native).expect("permute");
    assert_eq!(turned.shape_vec(), vec![3, 2]);
    assert_eq!(data_of(&turned), vec![0.0, 3.0, 1.0, 4.0, 2.0, 5.0]);
    let again = turned.transpose(0, 1, &mode, &Native);
    assert_eq!(data_of(&again), data_of(&input));
}

#[test]
fn parts_come_back_out_of_what_they_were_joined_to() {
    let a = make_tensor(&[2, 2], vec![1.0, 2.0, 3.0, 4.0], DType::F32);
    let b = make_tensor(&[2, 1], vec![5.0, 6.0], DType::F32);
    let mode = quiet();
    let whole = cat(&vec![a.clone(), b.clone()], 1, &mode, &Native).expect("cat");
    assert_eq!(data_of(&whole), vec![1.0, 2.0, 5.0, 3.0, 4.0, 6.0]);
    assert_eq!(data_of(&slice_last_dim(&whole, 0, 2, &mode, &Native).expect("slice")), data_of(&a));
    assert_eq!(data_of(&slice_last_dim(&whole, 2, 3, &mode, &Native).expect("slice")), data_of(&b));
}

#[test]
fn fused_softmax_no_grad_preserves_bf16_dtype() {
    let data = vec![1.0, 2.0, 3.0, 4.0, -1.0, 0.5, 2.5, -3.0];
    let input_f32 = make_tensor(&[1, 1, 2, 4], data.clone(), DType::F32);
    let input_bf16 = make_tensor(&[1, 1, 2, 4], data, DType::BF16);
    let mode = quiet();

    let ref_out = fused_softmax(&input_f32, 1.0f32.to_bits(), false, &mode, &Native).expect("four axes");
    let out = fused_softmax(&input_bf16, 1.0f32.to_bits(), false, &mode, &Native).expect("four axes");

    assert_eq!(input_bf16.dtype(), DType::BF16);
    assert_eq!(out.dtype(), DType::BF16);
    assert_eq!(bf16_values(&out), quantize_bf16(&data_of(&ref_out)));
}

#[test]
fn fused_softmax_bf16_matches_quantized_reference() {
    let data = vec![1.0, 2.0, 3.0, 4.0, -1.0, 0.5, 2.5, -3.0];
    let input_f32 = make_tensor(&[1, 1, 2, 4], data.clone(), DType::F32);
    let input_bf16 = make_tensor(&[1, 1, 2, 4], data, DType::BF16);
    let mode = quiet();

    let ref_out = fused_softmax(&input_f32, 0.75f32.to_bits(), true, &mode, &Native).expect("four axes");
    let out = fused_softmax(&input_bf16, 0.75f32.to_bits(), true, &mode, &Native).expect("four axes");

    assert_eq!(bf16_values(&out), quantize_bf16(&data_of(&ref_out)));
}

#[test]
fn fused_softmax_asks_for_four_axes() {
    let input = make_tensor(&[2, 4], vec![0.0; 8], DType::F32);
    assert!(fused_softmax(&input, 1.0f32.to_bits(), false, &quiet(), &Native).is_err());
}

/// Three weights, as a model of width `hidden` has them.
fn qkv_weights(hidden: usize) -> (Vec<f32>, Vec<f32>, Vec<f32>) {
    let q = sample_f32(hidden * hidden);
    let k = sample_f32(hidden * hidden).into_iter().map(|v| v * 0.7 - 0.1).collect();
    let v = sample_f32(hidden * hidden).into_iter().map(|v| v * -0.4 + 0.05).collect();
    (q, k, v)
}

fn gate_up_weights(inter: usize, hidden: usize) -> (Vec<f32>, Vec<f32>) {
    let gate = sample_f32(inter * hidden);
    let up = sample_f32(inter * hidden).into_iter().map(|v| v * 0.5 - 0.2).collect();
    (gate, up)
}

fn qkv_into(input: &Tensor, q: &Tensor, k: &Tensor, v: &Tensor, hidden: usize) -> (Vec<f32>, Vec<f32>, Vec<f32>) {
    let mut q_out = vec![0u32; hidden];
    let mut k_out = vec![0u32; hidden];
    let mut v_out = vec![0u32; hidden];
    no_grad(&GradMode::new(), |m| {
        fused_qkv_decode_infer_into(input, q, k, v, &mut q_out, &mut k_out, &mut v_out, m, &Native)
    })
    .expect("shapes agree");
    (values(&q_out), values(&k_out), values(&v_out))
}

fn gate_up_into(input: &Tensor, gate: &Tensor, up: &Tensor, inter: usize) -> Vec<f32> {
    let mut out = vec![0u32; inter];
    no_grad(&GradMode::new(), |m| fused_gate_up_silu_infer_into(input, gate, up, &mut out, m, &Native))
        .expect("shapes agree");
    values(&out)
}

fn qkv_of(input: &Tensor, q: &Tensor, k: &Tensor, v: &Tensor) -> (Vec<f32>, Vec<f32>, Vec<f32>) {
    let (q, k, v) =
        no_grad(&GradMode::new(), |m| fused_qkv_decode_infer(input, q, k, v, 1, 1, m, &Native)).expect("shapes agree");
    (values(&q.data), values(&k.data), values(&v.data))
}

fn assert_all_close(a: &(Vec<f32>, Vec<f32>, Vec<f32>), b: &(Vec<f32>, Vec<f32>, Vec<f32>), tol: f32) {
    assert_close(&a.0, &b.0, tol);
    assert_close(&a.1, &b.1, tol);
    assert_close(&a.2, &b.2, tol);
}

#[test]
fn fused_qkv_bf16_matches_quantized_reference() {
    let hidden = 8usize;
    let x = sample_f32(hidden);
    let (q, k, v) = qkv_weights(hidden);
    let w = [hidden, hidden];

    let reference = qkv_into(
        &make_tensor(&[1, 1, hidden], quantize_bf16(&x), DType::F32),
        &make_tensor(&w, quantize_bf16(&q), DType::F32),
        &make_tensor(&w, quantize_bf16(&k), DType::F32),
        &make_tensor(&w, quantize_bf16(&v), DType::F32),
        hidden,
    );
    let out = qkv_into(
        &make_tensor(&[1, 1, hidden], x, DType::BF16),
        &make_tensor(&w, q, DType::BF16),
        &make_tensor(&w, k, DType::BF16),
        &make_tensor(&w, v, DType::BF16),
        hidden,
    );
    assert_all_close(&reference, &out, 1e-4);
}

#[test]
fn fused_qkv_f16_matches_quantized_reference() {
    let hidden = 8usize;
    let x = sample_f32(hidden);
    let (q, k, v) = qkv_weights(hidden);
    let w = [hidden, hidden];

    let reference = qkv_into(
        &make_tensor(&[1, 1, hidden], quantize_f16(&x), DType::F32),
        &make_tensor(&w, quantize_f16(&q), DType::F32),
        &make_tensor(&w, quantize_f16(&k), DType::F32),
        &make_tensor(&w, quantize_f16(&v), DType::F32),
        hidden,
    );
    let out = qkv_into(
        &make_tensor(&[1, 1, hidden], x, DType::F16),
        &make_tensor(&w, q, DType::F16),
        &make_tensor(&w, k, DType::F16),
        &make_tensor(&w, v, DType::F16),
        hidden,
    );
    assert_all_close(&reference, &out, 1e-4);
}

#[test]
fn fused_qkv_decode_infer_bf16_matches_quantized_reference() {
    let hidden = 8usize;
    let x = sample_f32(hidden);
    let (q, k, v) = qkv_weights(hidden);
    let w = [hidden, hidden];

    let reference = qkv_of(
        &make_tensor(&[1, 1, hidden], quantize_bf16(&x), DType::F32),
        &make_tensor(&w, quantize_bf16(&q), DType::F32),
        &make_tensor(&w, quantize_bf16(&k), DType::F32),
        &make_tensor(&w, quantize_bf16(&v), DType::F32),
    );
    let out = qkv_of(
        &make_tensor(&[1, 1, hidden], x, DType::BF16),
        &make_tensor(&w, q, DType::BF16),
        &make_tensor(&w, k, DType::BF16),
        &make_tensor(&w, v, DType::BF16),
    );
    assert_all_close(&reference, &out, 1e-4);
}

#[test]
fn fused_qkv_decode_infer_batch_bf16_matches_quantized_reference() {
    let batch = 2usize;
    let hidden = 8usize;
    let x: Vec<f32> =
        sample_f32(batch * hidden).into_iter().enumerate().map(|(i, v)| v + (i / hidden) as f32 * 0.1).collect();
    let (q, k, v) = qkv_weights(hidden);
    let w = [hidden, hidden];

    let reference = qkv_of(
        &make_tensor(&[batch, 1, hidden], quantize_bf16(&x), DType::F32),
        &make_tensor(&w, quantize_bf16(&q), DType::F32),
        &make_tensor(&w, quantize_bf16(&k), DType::F32),
        &make_tensor(&w, quantize_bf16(&v), DType::F32),
    );
    let out = qkv_of(
        &make_tensor(&[batch, 1, hidden], x, DType::BF16),
        &make_tensor(&w, q, DType::BF16),
        &make_tensor(&w, k, DType::BF16),
        &make_tensor(&w, v, DType::BF16),
    );
    assert_all_close(&reference, &out, 1e-4);
}

#[test]
fn fused_qkv_decode_infer_batch_accepts_non_contiguous_input() {
    let batch = 2usize;
    let hidden = 8usize;
    let x: Vec<f32> =
        sample_f32(batch * hidden).into_iter().enumerate().map(|(i, v)| v + (i / hidden) as f32 * 0.2).collect();
    let (q, k, v) = qkv_weights(hidden);
    let w = [hidden, hidden];

    let input_contig = make_tensor(&[batch, 1, hidden], x.clone(), DType::F32);
    let exchanged = make_tensor(&[1, batch, hidden], x, DType::F32);
    let input_non_contig = permute(&exchanged, vec![1, 0, 2], &quiet(), &Native).expect("permute");
    let q = make_tensor(&w, q, DType::F32);
    let k = make_tensor(&w, k, DType::F32);
    let v = make_tensor(&w, v, DType::F32);

    assert_all_close(&qkv_of(&input_contig, &q, &k, &v), &qkv_of(&input_non_contig, &q, &k, &v), 1e-5);
}

#[test]
fn fused_gateup_bf16_matches_quantized_reference() {
    let hidden = 8usize;
    let inter = 12usize;
    let x = sample_f32(hidden);
    let (gate, up) = gate_up_weights(inter, hidden);
    let w = [inter, hidden];

    let reference = gate_up_into(
        &make_tensor(&[1, 1, hidden], quantize_bf16(&x), DType::F32),
        &make_tensor(&w, quantize_bf16(&gate), DType::F32),
        &make_tensor(&w, quantize_bf16(&up), DType::F32),
        inter,
    );
    let out = gate_up_into(
        &make_tensor(&[1, 1, hidden], x, DType::BF16),
        &make_tensor(&w, gate, DType::BF16),
        &make_tensor(&w, up, DType::BF16),
        inter,
    );
    assert_close(&reference, &out, 1e-3);
}

#[test]
fn fused_gateup_f16_matches_quantized_reference() {
    let hidden = 8usize;
    let inter = 12usize;
    let x = sample_f32(hidden);
    let (gate, up) = gate_up_weights(inter, hidden);
    let w = [inter, hidden];

    let reference = gate_up_into(
        &make_tensor(&[1, 1, hidden], quantize_f16(&x), DType::F32),
        &make_tensor(&w, quantize_f16(&gate), DType::F32),
        &make_tensor(&w, quantize_f16(&up), DType::F32),
        inter,
    );
    let out = gate_up_into(
        &make_tensor(&[1, 1, hidden], x, DType::F16),
        &make_tensor(&w, gate, DType::F16),
        &make_tensor(&w, up, DType::F16),
        inter,
    );
    assert_close(&reference, &out, 1e-3);
}

#[test]
fn fused_gateup_batch_accepts_non_contiguous_input() {
    let batch = 2usize;
    let hidden = 8usize;
    let inter = 12usize;
    let x: Vec<f32> =
        sample_f32(batch * hidden).into_iter().enumerate().map(|(i, v)| v + (i / hidden) as f32 * 0.15).collect();
    let (gate, up) = gate_up_weights(inter, hidden);
    let mode = quiet();

    let input_contig = make_tensor(&[batch, 1, hidden], x.clone(), DType::F32);
    let exchanged = make_tensor(&[1, batch, hidden], x, DType::F32);
    let input_non_contig = permute(&exchanged, vec![1, 0, 2], &mode, &Native).expect("permute");
    let gate = make_tensor(&[inter, hidden], gate, DType::F32);
    let up = make_tensor(&[inter, hidden], up, DType::F32);

    let ref_out = fused_gate_up_silu_infer(&input_contig, &gate, &up, &mode, &Native).expect("shapes agree");
    let out = fused_gate_up_silu_infer(&input_non_contig, &gate, &up, &mode, &Native).expect("shapes agree");
    assert_close(&data_of(&ref_out), &data_of(&out), 1e-5);
}

fn qkv_bytes_match(input: DType) {
    let hidden = 8usize;
    let x = sample_f32(hidden);
    let (q, k, v) = qkv_weights(hidden);
    let w = [hidden, hidden];
    let input = make_tensor(&[1, 1, hidden], x, input);

    let expected = qkv_into(
        &input,
        &make_tensor(&w, quantize_i8(&w, &q), DType::F32),
        &make_tensor(&w, quantize_i8(&w, &k), DType::F32),
        &make_tensor(&w, quantize_i8(&w, &v), DType::F32),
        hidden,
    );
    let out = qkv_into(
        &input,
        &make_tensor(&w, q, DType::I8),
        &make_tensor(&w, k, DType::I8),
        &make_tensor(&w, v, DType::I8),
        hidden,
    );
    assert_all_close(&expected, &out, 1e-5);
}

fn gate_up_bytes_match(input: DType) {
    let hidden = 8usize;
    let inter = 12usize;
    let x = sample_f32(hidden);
    let (gate, up) = gate_up_weights(inter, hidden);
    let w = [inter, hidden];
    let input = make_tensor(&[1, 1, hidden], x, input);

    let reference = gate_up_into(
        &input,
        &make_tensor(&w, quantize_i8(&w, &gate), DType::F32),
        &make_tensor(&w, quantize_i8(&w, &up), DType::F32),
        inter,
    );
    let out = gate_up_into(&input, &make_tensor(&w, gate, DType::I8), &make_tensor(&w, up, DType::I8), inter);
    assert_close(&reference, &out, 1e-5);
}

#[test]
fn fused_qkv_i8_matches_quantized_reference() {
    qkv_bytes_match(DType::F32);
}

#[test]
fn fused_qkv_bf16_input_i8_matches_quantized_reference() {
    qkv_bytes_match(DType::BF16);
}

#[test]
fn fused_qkv_f16_input_i8_matches_quantized_reference() {
    qkv_bytes_match(DType::F16);
}

#[test]
fn fused_gateup_i8_matches_quantized_reference() {
    gate_up_bytes_match(DType::F32);
}

#[test]
fn fused_gateup_bf16_input_i8_matches_quantized_reference() {
    gate_up_bytes_match(DType::BF16);
}

#[test]
fn fused_gateup_f16_input_i8_matches_quantized_reference() {
    gate_up_bytes_match(DType::F16);
}

#[test]
fn reshaping_back_gives_the_same_tensor() {
    let input = make_tensor(&[2, 3, 4], (0..24).map(|v| v as f32).collect(), DType::F32);
    let mode = quiet();
    let flat = reshape(&input, vec![-1], &mode, &Native).expect("one axis");
    let again = reshape(&flat, vec![2, 3, 4], &mode, &Native).expect("three axes");
    assert_eq!(again.shape_vec(), input.shape_vec());
    assert_eq!(data_of(&again), data_of(&input));
}

#[test]
fn operands_stretch_in_either_order() {
    let a = make_tensor(&[2, 1, 3], (0..6).map(|v| v as f32).collect(), DType::F32);
    let b = make_tensor(&[4, 1], vec![0.5, 1.5, 2.5, 3.5], DType::F32);
    let mode = quiet();
    let left = add_tensors(&a, &b, &mode, &Native);
    let right = add_tensors(&b, &a, &mode, &Native);
    assert_eq!(left.shape_vec(), vec![2, 4, 3]);
    assert_eq!(right.shape_vec(), vec![2, 4, 3]);
    assert_eq!(data_of(&left), data_of(&right));
}

#[test]
fn cat_of_several_precisions_leaves_no_record_without_grad() {
    let a = Tensor::parameter(array(&[1, 2], &[1.5, -2.0]));
    let b = make_tensor(&[1, 2], vec![0.25, 3.0], DType::F16);
    let c = make_tensor(&[1, 2], vec![-8.0, 0.5], DType::BF16);
    let parts = vec![a, b, c];
    let quietly = cat(&parts, 0, &quiet(), &Native).expect("cat");
    assert!(!quietly.requires_grad());
    assert!(quietly.op.is_none());
    assert_eq!(quietly.dtype(), DType::F32);
    assert_eq!(quietly.shape_vec(), vec![3, 2]);
    assert_eq!(data_of(&quietly), vec![1.5, -2.0, 0.25, 3.0, -8.0, 0.5]);
    let recorded = cat(&parts, 0, &GradMode::new(), &Native).expect("cat");
    assert!(recorded.requires_grad());
    assert!(recorded.op.is_some());
    assert_eq!(data_of(&recorded), data_of(&quietly));
    let mut d = make_tensor(&[1, 2], vec![1.0, 127.0], DType::I8);
    let e = make_tensor(&[1, 2], vec![2.0, 254.0], DType::I8);
    let mixed = cat(&vec![d.clone(), e], 0, &quiet(), &Native).expect("cat");
    assert!(!mixed.requires_grad() && mixed.op.is_none());
    assert_eq!(mixed.dtype(), DType::F32);
    d = cat(&vec![d.clone(), d], 0, &quiet(), &Native).expect("cat");
    assert_eq!(d.dtype(), DType::I8);
}

#[test]
fn slices_laid_end_to_end_are_the_tensor() {
    let mode = quiet();
    for dtype in [DType::F32, DType::F16, DType::BF16, DType::I8] {
        let x = make_tensor(&[2, 5], (0..10).map(|v| v as f32 * 0.5 - 2.0).collect(), dtype);
        let parts: Vec<Tensor> = [(0, 2), (2, 2), (2, 5)]
            .iter()
            .map(|(a, b)| slice_last_dim(&x, *a, *b, &mode, &Native).expect("slice"))
            .collect();
        let whole = cat(&parts, 1, &mode, &Native).expect("cat");
        assert_eq!(whole.shape_vec(), x.shape_vec());
        assert_eq!(whole.dtype(), dtype);
        assert_eq!(data_of(&whole), data_of(&x));
        if let (TensorStorage::I8(a, p), TensorStorage::I8(b, q)) = (&x.storage, &whole.storage) {
            assert_eq!((&a.data, p), (&b.data, q));
        }
    }
}

#[test]
fn a_fused_gate_is_its_steps() {
    let (hidden, inter) = (11usize, 5usize);
    let (gate, up) = gate_up_weights(inter, hidden);
    let mode = quiet();
    for (input, weight) in [(DType::F32, DType::F32), (DType::BF16, DType::F16), (DType::F32, DType::I8)] {
        let x = make_tensor(&[1, 1, hidden], sample_f32(hidden), input);
        let gate = make_tensor(&[inter, hidden], gate.clone(), weight);
        let up = make_tensor(&[inter, hidden], up.clone(), DType::F32);
        let fused = fused_gate_up_silu_infer(&x, &gate, &up, &mode, &Native).expect("shapes agree");
        let gated = matmul(&x, &gate, &mode, &Native).expect("shapes agree");
        let lifted = matmul(&x, &up, &mode, &Native).expect("shapes agree");
        let product = mul_tensors(&SiLU::new().forward(&gated, &mode, &Native), &lifted, &mode, &Native);
        assert_eq!(fused.shape_vec(), product.shape_vec());
        assert_eq!(data_of(&fused), data_of(&product));
    }
}
