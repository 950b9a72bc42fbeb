use lumen::float_bits::{bf16_from_single, f16_from_single, f16_to_single, is_above, is_at_most};
use lumen::array::NdArray;
use lumen::autograd::{set_inference_mode, GradMode, Tensor, TensorStorage};
use lumen::fpu::Fpu;
use lumen::precision::DType;

struct Native;

fn value(bits: u32) -> f32 {
    f32::from_bits(bits)
}

impl Fpu for Native {
    fn add(&self, a: u32, b: u32) -> u32 {
        (value(a) + value(b)).to_bits()
    }
    fn sub(&self, a: u32, b: u32) -> u32 {
        (value(a) - value(b)).to_bits()
    }
    fn mul(&self, a: u32, b: u32) -> u32 {
        (value(a) * value(b)).to_bits()
    }
    fn div(&self, a: u32, b: u32) -> u32 {
        (value(a) / value(b)).to_bits()
    }
    fn sqrt(&self, a: u32) -> u32 {
        value(a).sqrt().to_bits()
    }
    fn exp(&self, a: u32) -> u32 {
        value(a).exp().to_bits()
    }
    fn ln(&self, a: u32) -> u32 {
        value(a).ln().to_bits()
    }
    fn tanh(&self, a: u32) -> u32 {
        value(a).tanh().to_bits()
    }
    fn cos(&self, a: u32) -> u32 {
        value(a).cos().to_bits()
    }
    fn sin(&self, a: u32) -> u32 {
        value(a).sin().to_bits()
    }
    fn powf(&self, a: u32, b: u32) -> u32 {
        value(a).powf(value(b)).to_bits()
    }
    fn powi(&self, a: u32, n: i32) -> u32 {
        value(a).powi(n).to_bits()
    }
    fn parse(&self, text: &String) -> Option<u32> {
        text.parse::<f32>().ok().map(|v| v.to_bits())
    }
    fn from_count(&self, n: usize) -> u32 {
        (n as f32).to_bits()
    }
    fn from_byte(&self, q: i8) -> u32 {
        (q as f32).to_bits()
    }
    fn to_byte(&self, a: u32) -> i8 {
        value(a).round().clamp(-127.0, 127.0) as i8
    }
    fn byte_step(&self, xs: &[u32]) -> u32 {
        let largest = xs.iter().fold(0.0f32, |m, x| m.max(value(*x).abs()));
        let step = if largest > 0.0 { largest / 127.0 } else { 1.0 };
        step.to_bits()
    }
    fn sum(&self, xs: &[u32]) -> u32 {
        xs.iter().map(|x| value(*x)).sum::<f32>().to_bits()
    }
    fn dot(&self, xs: &[u32], ys: &[u32]) -> u32 {
        xs.iter().zip(ys).map(|(x, y)| value(*x) * value(*y)).sum::<f32>().to_bits()
    }
    fn dot_bytes(&self, xs: &[u32], qs: &[i8]) -> u32 {
        xs.iter().zip(qs).map(|(x, q)| value(*x) * *q as f32).sum::<f32>().to_bits()
    }
    fn keeps(&self, p: u32) -> bool {
        value(p) <= 0.5
    }
}

fn bits(values: &[f32]) -> Vec<u32> {
    values.iter().map(|v| v.to_bits()).collect()
}

fn values(bits: &[u32]) -> Vec<f32> {
    bits.iter().map(|b| value(*b)).collect()
}

fn array(shape: &[usize], data: &[f32]) -> NdArray<u32> {
    NdArray::from_shape_vec(shape.to_vec(), bits(data)).expect("test tensor shape mismatch")
}

fn make_tensor(shape: &[usize], data: Vec<f32>, dtype: DType) -> Tensor {
    let mut t = Tensor::from_array_no_grad(array(shape, &data));
    t.cast_inplace(&Native, dtype);
    t
}

fn data_of(t: &Tensor) -> Vec<f32> {
    values(&t.data(&Native).data)
}

fn quiet() -> GradMode {
    let mut mode = GradMode::new();
    set_inference_mode(&mut mode, true);
    mode
}

#[test]
fn half_precision_widens_as_the_processor_does() {
    for b in 0..=u16::MAX {
        let expected = half::f16::from_bits(b).to_f32();
        let got = value(f16_to_single(b));
        assert!(got.to_bits() == expected.to_bits() || (got.is_nan() && expected.is_nan()), "{b:#x}");
    }
}

#[test]
fn bfloat16_widens_through_a_tensor() {
    let patterns: Vec<u16> = (0..=u16::MAX).collect();
    let a = NdArray::from_shape_vec(vec![65536], patterns).expect("as many as extents say");
    let t = Tensor::from_storage_no_grad(TensorStorage::BF16(std::sync::Arc::new(a)));
    for (b, v) in t.data(&Native).data.iter().enumerate() {
        assert_eq!(*v, half::bf16::from_bits(b as u16).to_f32().to_bits(), "{b:#x}");
    }
}

#[test]
fn narrowing_rounds_to_the_nearest() {
    let mut b: u32 = 0;
    loop {
        let v = value(b);
        if !v.is_nan() {
            assert_eq!(f16_from_single(b), half::f16::from_f32(v).to_bits(), "{b:#x}");
            assert_eq!(bf16_from_single(b), half::bf16::from_f32(v).to_bits(), "{b:#x}");
        } else {
            assert!(half::f16::from_bits(f16_from_single(b)).is_nan());
            assert!(half::bf16::from_bits(bf16_from_single(b)).is_nan());
        }
        match b.checked_add(20011) {
            Some(next) => b = next,
            None => break,
        }
    }
}

#[test]
fn widening_and_narrowing_come_back() {
    for b in 0..=u16::MAX {
        if b % 0x8000 <= 0x7c00 {
            assert_eq!(f16_from_single(f16_to_single(b)), b);
        }
        if b % 0x8000 <= 0x7f80 {
            assert_eq!(bf16_from_single((b as u32) << 16), b);
        }
    }
}

#[test]
fn patterns_are_ordered_as_their_values() {
    let samples = bits(&[
        0.0, -0.0, 1.0, -1.0, 0.5, f32::MAX, f32::MIN, f32::INFINITY, f32::NEG_INFINITY, f32::NAN, 1e-40, -1e-40,
    ]);
    for a in &samples {
        for b in &samples {
            assert_eq!(is_above(*a, *b), value(*a) > value(*b));
            assert_eq!(is_at_most(*a, *b), value(*a) <= value(*b));
        }
    }
}

#[test]
fn casting_there_and_back_keeps_numbers() {
    let data = vec![1.0, -0.375, 100.0, 0.0];
    for dtype in [DType::F16, DType::BF16] {
        let mut t = make_tensor(&[4], data.clone(), dtype);
        t.cast_inplace(&Native, DType::F32);
        t.cast_inplace(&Native, dtype);
        assert_eq!(data_of(&t), data);
    }
    let mode = quiet();
    assert!(mode.inference);
    assert_eq!(array(&[1], &[2.0]).data, bits(&[2.0]));
    assert_eq!(values(&[0]), vec![0.0]);
}
