use lumen::array::NdArray;
use lumen::autograd::{detach, is_no_grad, no_grad, set_inference_mode, GradMode, NoGradGuard, Tensor};
use lumen::fpu::Fpu;
use lumen::graph::Graph;
use lumen::layers::activation::{Gelu, ReLU, SiLU, Sigmoid, Softmax, Tanh};
use lumen::layers::attention::self_attention::{AttentionShape, AttentionWeights, SelfAttention};
use lumen::layers::attention::{repeat_kv, RotaryEmbedding};
use lumen::layers::basic::{Dropout, Embedding, Linear};
use lumen::layers::norm::RMSNorm;
use lumen::layers::rnn::{LSTM, RNN};
use lumen::loss::{CrossEntropyLoss, MSELoss};
use lumen::module::{checkpoint, load, LoadError, ModelCheckpoint, Module, ModuleError, Sequential};
use lumen::ops::arithmetic::{add_tensors, mul_tensors, sub_tensors, sum, BinaryOp};
use lumen::ops::convolution::{conv2d, max_pool2d};
use lumen::ops::fused::fused_softmax;
use lumen::ops::matmul::{batch_matmul, matmul, BatchMatmulError, MatmulError};
use lumen::ops::matvec::{matvec_argmax_rowmajor_parallel, matvec_rowmajor_parallel, MatvecError};
use lumen::ops::shape::{cat, permute, reshape, slice_last_dim};
use lumen::optim::{Optimizer, SGD};
use lumen::precision::{DType, PrecisionConfig};
use lumen::tape::ApplyError;

struct Native;

fn value(bits: u32) -> f32 {
    f32::from_bits(bits)
}

impl Fpu for Native {
    fn add(&self, a: u32, b: u32) -> u32 {
        (value(a) + value(b)).to_bits()
    }
    fn sub(&self, a: u32, b: u32) -> u32 {
        (value(a) - value(b)).to_bits()
    }
    fn mul(&self, a: u32, b: u32) -> u32 {
        (value(a) * value(b)).to_bits()
    }
    fn div(&self, a: u32, b: u32) -> u32 {
        (value(a) / value(b)).to_bits()
    }
    fn sqrt(&self, a: u32) -> u32 {
        value(a).sqrt().to_bits()
    }
    fn exp(&self, a: u32) -> u32 {
        value(a).exp().to_bits()
    }
    fn ln(&self, a: u32) -> u32 {
        value(a).ln().to_bits()
    }
    fn tanh(&self, a: u32) -> u32 {
        value(a).tanh().to_bits()
    }
    fn cos(&self, a: u32) -> u32 {
        value(a).cos().to_bits()
    }
    fn sin(&self, a: u32) -> u32 {
        value(a).sin().to_bits()
    }
    fn powf(&self, a: u32, b: u32) -> u32 {
        value(a).powf(value(b)).to_bits()
    }
    fn powi(&self, a: u32, n: i32) -> u32 {
        value(a).powi(n).to_bits()
    }
    fn parse(&self, text: &String) -> Option<u32> {
        text.parse::<f32>().ok().map(|v| v.to_bits())
    }
    fn from_count(&self, n: usize) -> u32 {
        (n as f32).to_bits()
    }
    fn from_byte(&self, q: i8) -> u32 {
        (q as f32).to_bits()
    }
    fn to_byte(&self, a: u32) -> i8 {
        value(a).round().clamp(-127.0, 127.0) as i8
    }
    fn byte_step(&self, xs: &[u32]) -> u32 {
        let largest = xs.iter().fold(0.0f32, |m, x| m.max(value(*x).abs()));
        let step = if largest > 0.0 { largest / 127.0 } else { 1.0 };
        step.to_bits()
    }
    fn sum(&self, xs: &[u32]) -> u32 {
        xs.iter().map(|x| value(*x)).sum::<f32>().to_bits()
    }
    fn dot(&self, xs: &[u32], ys: &[u32]) -> u32 {
        xs.iter().zip(ys).map(|(x, y)| value(*x) * value(*y)).sum::<f32>().to_bits()
    }
    fn dot_bytes(&self, xs: &[u32], qs: &[i8]) -> u32 {
        xs.iter().zip(qs).map(|(x, q)| value(*x) * *q as f32).sum::<f32>().to_bits()
    }
    fn keeps(&self, p: u32) -> bool {
        value(p) <= 0.5
    }
}

fn bits(values: &[f32]) -> Vec<u32> {
    values.iter().map(|v| v.to_bits()).collect()
}

fn values(bits: &[u32]) -> Vec<f32> {
    bits.iter().map(|b| value(*b)).collect()
}

fn array(shape: &[usize], data: &[f32]) -> NdArray<u32> {
    NdArray::from_shape_vec(shape.to_vec(), bits(data)).expect("test tensor shape mismatch")
}

fn make_tensor(shape: &[usize], data: Vec<f32>, dtype: DType) -> Tensor {
    let mut t = Tensor::from_array_no_grad(array(shape, &data));
    t.cast_inplace(&Native, dtype);
    t
}

fn data_of(t: &Tensor) -> Vec<f32> {
    values(&t.data(&Native).data)
}

fn quiet() -> GradMode {
    let mut mode = GradMode::new();
    set_inference_mode(&mut mode, true);
    mode
}

fn plain() -> PrecisionConfig {
    PrecisionConfig { parameter_dtype: DType::F32, runtime_dtype: DType::F32, allow_parameter_dtype_copies: false }
}

fn wave(shape: &[usize], seed: usize) -> NdArray<u32> {
    let n: usize = shape.iter().product();
    let data: Vec<f32> = (0..n).map(|i| (((i * 13 + seed * 5 + 2) % 17) as f32 - 8.0) * 0.11 + 0.013).collect();
    array(shape, &data)
}

/// Pushes one leaf per array, builds the rest of the graph, and gives the result's place.
fn built(leaves: &[NdArray<u32>], build: &dyn Fn(&mut Graph) -> usize) -> (Graph, usize) {
    let mut g = Graph::new();
    for a in leaves {
        g.push(Tensor::parameter(a.copy()), Vec::new());
    }
    let root = build(&mut g);
    (g, root)
}

fn total(g: &Graph, root: usize) -> f64 {
    data_of(&g.nodes[root].tensor).iter().map(|v| *v as f64).sum()
}

/// The gradients of the sum of the result are its slopes.
fn check_gradients(leaves: &[NdArray<u32>], build: &dyn Fn(&mut Graph) -> usize) {
    let (mut g, root) = built(leaves, build);
    g.backward(root, &Native);
    let step = 1e-2f32;
    for (l, leaf) in leaves.iter().enumerate() {
        let grad = values(&g.nodes[l].tensor.grad().expect("a gradient").data);
        for i in 0..leaf.data.len() {
            let moved = |by: f32| {
                let mut changed: Vec<NdArray<u32>> = leaves.iter().map(|a| a.copy()).collect();
                let old = value(changed[l].data[i]);
                changed[l].data[i] = (old + by).to_bits();
                let (g, root) = built(&changed, build);
                total(&g, root)
            };
            let slope = (moved(step) - moved(-step)) / (2.0 * step as f64);
            let diff = (slope - grad[i] as f64).abs();
            assert!(diff <= 2e-2 * (1.0 + slope.abs()), "leaf {l} at {i}: {} is not {slope}", grad[i]);
        }
    }
}

fn leaf(g: &Graph, i: usize) -> Tensor {
    g.nodes[i].tensor.clone()
}

const ON: GradMode = GradMode { depth: 0, inference: false };

#[test]
fn arithmetic_gradients_are_slopes() {
    let leaves = [wave(&[2, 3], 1), wave(&[3], 2), wave(&[2, 1], 3)];
    check_gradients(&leaves, &|g| {
        let a = add_tensors(&leaf(g, 0), &leaf(g, 1), &ON, &Native);
        let a = g.push(a, vec![0, 1]);
        let b = mul_tensors(&leaf(g, a), &leaf(g, 2), &ON, &Native);
        let b = g.push(b, vec![a, 2]);
        let c = sub_tensors(&leaf(g, b), &leaf(g, 0), &ON, &Native);
        let c = g.push(c, vec![b, 0]);
        let d = mul_tensors(&leaf(g, c), &leaf(g, c), &ON, &Native);
        let d = g.push(d, vec![c, c]);
        let e = sum(&leaf(g, d), &ON, &Native);
        g.push(e, vec![d])
    });
}

#[test]
fn shape_gradients_are_slopes() {
    let leaves = [wave(&[2, 3], 1), wave(&[2, 2], 2), wave(&[5, 2], 4)];
    check_gradients(&leaves, &|g| {
        let a = cat(&vec![leaf(g, 0), leaf(g, 1)], 1, &ON, &Native).expect("two rows each");
        let a = g.push(a, vec![0, 1]);
        let b = permute(&leaf(g, a), vec![1, 0], &ON, &Native).expect("two axes");
        let b = g.push(b, vec![a]);
        let c = mul_tensors(&leaf(g, b), &leaf(g, 2), &ON, &Native);
        let c = g.push(c, vec![b, 2]);
        let d = reshape(&leaf(g, c), vec![2, -1], &ON, &Native).expect("ten elements");
        let d = g.push(d, vec![c]);
        let e = slice_last_dim(&leaf(g, d), 1, 4, &ON, &Native).expect("five columns");
        let e = g.push(e, vec![d]);
        let h = mul_tensors(&leaf(g, e), &leaf(g, e), &ON, &Native);
        g.push(h, vec![e, e])
    });
}

#[test]
fn activation_gradients_are_slopes() {
    for kind in 0..6 {
        check_gradients(&[wave(&[2, 4], 3), wave(&[2, 4], 5)], &|g| {
            let x = leaf(g, 0);
            let a = match kind {
                0 => ReLU::new().forward(&x, &ON, &Native),
                1 => Sigmoid::new().forward(&x, &ON, &Native),
                2 => Tanh::new().forward(&x, &ON, &Native),
                3 => SiLU::new().forward(&x, &ON, &Native),
                4 => Gelu::new().forward(&x, &ON, &Native),
                _ => Softmax::new(1).forward(&x, &ON, &Native).expect("the last axis"),
            };
            let a = g.push(a, vec![0]);
            let b = mul_tensors(&leaf(g, a), &leaf(g, 1), &ON, &Native);
            g.push(b, vec![a, 1])
        });
    }
}

#[test]
fn product_gradients_are_slopes() {
    check_gradients(&[wave(&[2, 2, 3], 1), wave(&[4, 3], 2)], &|g| {
        let a = matmul(&leaf(g, 0), &leaf(g, 1), &ON, &Native).expect("three features");
        let a = g.push(a, vec![0, 1]);
        let b = mul_tensors(&leaf(g, a), &leaf(g, a), &ON, &Native);
        g.push(b, vec![a, a])
    });
    check_gradients(&[wave(&[1, 2, 2, 3], 1), wave(&[1, 2, 3, 2], 2)], &|g| {
        let a = batch_matmul(&leaf(g, 0), &leaf(g, 1), &ON, &Native).expect("three features");
        let a = g.push(a, vec![0, 1]);
        let b = mul_tensors(&leaf(g, a), &leaf(g, a), &ON, &Native);
        g.push(b, vec![a, a])
    });
}

#[test]
fn attention_parts_have_gradients_that_are_slopes() {
    check_gradients(&[wave(&[1, 1, 2, 2], 1), wave(&[1, 1, 2, 2], 6)], &|g| {
        let a = fused_softmax(&leaf(g, 0), 0.7f32.to_bits(), true, &ON, &Native).expect("four axes");
        let a = g.push(a, vec![0]);
        let b = mul_tensors(&leaf(g, a), &leaf(g, 1), &ON, &Native);
        g.push(b, vec![a, 1])
    });
    let rope = RotaryEmbedding::new(4, 8, 10000.0f32.to_bits(), &plain(), &Native).expect("a table");
    check_gradients(&[wave(&[1, 2, 2, 4], 1), wave(&[1, 2, 2, 4], 6)], &|g| {
        let a = rope.forward(&leaf(g, 0), 1, &ON, &Native).expect("within the table");
        let a = g.push(a, vec![0]);
        let b = mul_tensors(&leaf(g, a), &leaf(g, 1), &ON, &Native);
        g.push(b, vec![a, 1])
    });
    check_gradients(&[wave(&[1, 2, 1, 2], 1), wave(&[1, 4, 1, 2], 6)], &|g| {
        let a = repeat_kv(&leaf(g, 0), 2, &ON, &Native);
        let a = g.push(a, vec![0]);
        let b = mul_tensors(&leaf(g, a), &leaf(g, 1), &ON, &Native);
        g.push(b, vec![a, 1])
    });
}

#[test]
fn convolution_gradients_are_slopes() {
    check_gradients(&[wave(&[1, 2, 3, 3], 1), wave(&[2, 2, 2, 2], 2), wave(&[2], 3)], &|g| {
        let bias = leaf(g, 2);
        let a = conv2d(&leaf(g, 0), &leaf(g, 1), Some(&bias), (2, 1), (1, 0), &ON, &Native);
        let a = g.push(a, vec![0, 1, 2]);
        let b = mul_tensors(&leaf(g, a), &leaf(g, a), &ON, &Native);
        g.push(b, vec![a, a])
    });
}

#[test]
fn convolution_and_pooling_compute_windows() {
    let x = make_tensor(&[1, 1, 3, 3], (1..10).map(|v| v as f32).collect(), DType::F32);
    let w = make_tensor(&[1, 1, 2, 2], vec![1.0, 0.0, 0.0, -1.0], DType::F32);
    let out = conv2d(&x, &w, None, (1, 1), (0, 0), &ON, &Native);
    assert_eq!(out.shape_vec(), vec![1, 1, 2, 2]);
    assert_eq!(data_of(&out), vec![-4.0; 4]);
    let mut g = Graph::new();
    let root = Tensor::parameter(array(&[1, 1, 3, 3], &[1.0, 5.0, 2.0, 4.0, 5.0, 6.0, 9.0, 8.0, 7.0]));
    let root = g.push(root, Vec::new());
    let pooled = max_pool2d(&leaf(&g, root), (2, 2), (1, 1), &ON, &Native);
    assert_eq!(data_of(&pooled), vec![5.0, 6.0, 9.0, 8.0]);
    let pooled = g.push(pooled, vec![root]);
    g.backward(pooled, &Native);
    // The first of two equal elements is chosen, and a chosen element takes the gradient
    // of every window that it lies in.
    let grad = values(&g.nodes[root].tensor.grad().expect("a gradient").data);
    assert_eq!(grad, vec![0.0, 2.0, 0.0, 0.0, 0.0, 2.0, 1.0, 2.0, 0.0]);
    let apart = max_pool2d(&leaf(&g, root), (2, 2), (2, 2), &ON, &Native);
    assert_eq!(data_of(&apart), vec![5.0]);
    g.nodes[root].tensor.zero_grad();
    let apart = g.push(apart, vec![root]);
    g.backward(apart, &Native);
    let grad = values(&g.nodes[root].tensor.grad().expect("a gradient").data);
    assert_eq!(grad, vec![0.0, 1.0, 0.0, 0.0, 0.0, 0.0, 0.0, 0.0, 0.0]);
}

#[test]
fn norm_gradients_are_slopes() {
    check_gradients(&[wave(&[2, 3], 1), wave(&[3], 2), wave(&[2, 3], 3)], &|g| {
        let norm = RMSNorm { weight: leaf(g, 1), eps: 1e-5f32.to_bits() };
        let a = norm.forward(&leaf(g, 0), &ON, &Native);
        let a = g.push(a, vec![0, 1]);
        let b = mul_tensors(&leaf(g, a), &leaf(g, 2), &ON, &Native);
        g.push(b, vec![a, 2])
    });
}

#[test]
fn embedding_gradients_gather_in_the_rows() {
    let mut g = Graph::new();
    let indices = g.push(make_tensor(&[3], vec![2.0, 0.0, 2.0], DType::F32), Vec::new());
    let emb = Embedding::new(wave(&[3, 2], 1), &plain(), &Native);
    let weight = g.push(emb.weight.clone(), Vec::new());
    let out = emb.forward(&leaf(&g, indices), &ON, &Native).expect("indices");
    let out = g.push(out, vec![indices, weight]);
    g.backward(out, &Native);
    let grad = values(&g.nodes[weight].tensor.grad().expect("a gradient").data);
    assert_eq!(grad, vec![1.0, 1.0, 0.0, 0.0, 2.0, 2.0]);
    assert!(g.nodes[indices].tensor.grad().is_none());
}

#[test]
fn loss_gradients_are_slopes() {
    check_gradients(&[wave(&[2, 3], 1), wave(&[2, 3], 2)], &|g| {
        let a = MSELoss::apply(&leaf(g, 0), &leaf(g, 1), &ON, &Native);
        g.push(a, vec![0, 1])
    });
    check_gradients(&[wave(&[2, 3], 1)], &|g| {
        let target = g.push(make_tensor(&[2, 3], vec![1.0, 0.0, 0.0, 0.0, 0.0, 1.0], DType::F32), Vec::new());
        let a = CrossEntropyLoss::apply(&leaf(g, 0), &leaf(g, target), &ON, &Native);
        g.push(a, vec![0, target])
    });
}

#[test]
fn recurrent_gradients_are_slopes() {
    let leaves = [wave(&[1, 2], 1), wave(&[1, 3], 2), wave(&[3, 2], 3), wave(&[3], 4), wave(&[3, 3], 5), wave(&[3], 6)];
    check_gradients(&leaves, &|g| {
        let mut rnn = RNN::new(wave(&[3, 2], 3), wave(&[3, 3], 5), &plain(), &Native);
        rnn.w_ih.weight = leaf(g, 2);
        rnn.w_ih.bias = Some(leaf(g, 3));
        rnn.w_hh.weight = leaf(g, 4);
        rnn.w_hh.bias = Some(leaf(g, 5));
        let steps = rnn.forward_step(&leaf(g, 0), &leaf(g, 1), &ON, &Native).expect("sizes that fit");
        g.append(&vec![0, 1, 2, 3, 4, 5], &steps)
    });
    let leaves = [
        wave(&[1, 2], 1),
        wave(&[1, 2], 2),
        wave(&[1, 2], 7),
        wave(&[8, 2], 3),
        wave(&[8], 4),
        wave(&[8, 2], 5),
        wave(&[8], 6),
    ];
    check_gradients(&leaves, &|g| {
        let mut lstm = LSTM::new(wave(&[8, 2], 3), wave(&[8, 2], 5), 2, &plain(), &Native);
        lstm.w_x.weight = leaf(g, 3);
        lstm.w_x.bias = Some(leaf(g, 4));
        lstm.w_h.weight = leaf(g, 5);
        lstm.w_h.bias = Some(leaf(g, 6));
        let steps = lstm.forward_step(&leaf(g, 0), &leaf(g, 1), &leaf(g, 2), &ON, &Native).expect("sizes that fit");
        g.append(&vec![0, 1, 2, 3, 4, 5, 6], &steps)
    });
}

#[test]
fn lstm_gates_have_their_own_rows() {
    let zeros = |shape: &[usize]| array(shape, &vec![0.0; shape.iter().product()]);
    let mut lstm = LSTM::new(zeros(&[4, 1]), zeros(&[4, 1]), 1, &plain(), &Native);
    let names = lstm.parameters().len();
    assert_eq!(names, 4);
    lstm.w_x.bias = Some(Tensor::parameter(array(&[4], &[0.3, -0.2, 0.9, 1.1])));
    lstm.w_h.bias = Some(Tensor::parameter(zeros(&[4])));
    let one = make_tensor(&[1, 1], vec![0.0], DType::F32);
    let cell = make_tensor(&[1, 1], vec![0.8], DType::F32);
    let steps = lstm.forward_step(&one, &one, &cell, &quiet(), &Native).expect("sizes that fit");
    let state = data_of(&steps[steps.len() - 1].tensor)[0];
    let sigmoid = |x: f32| 1.0 / (1.0 + (-x).exp());
    let (i, f, g, o) = (sigmoid(0.3), sigmoid(-0.2), 0.9f32.tanh(), sigmoid(1.1));
    assert!((o * (f * 0.8 + i * g).tanh() - state).abs() <= 1e-6);
    let next_cell = data_of(&steps[steps.len() - 3].tensor)[0];
    assert!((f * 0.8 + i * g - next_cell).abs() <= 1e-6);
}

#[test]
fn lstm_begins_by_keeping_its_cell() {
    let lstm = LSTM::new(wave(&[8, 2], 3), wave(&[8, 2], 5), 2, &plain(), &Native);
    let bias = lstm.w_x.bias.as_ref().map(data_of);
    assert_eq!(bias, Some(vec![0.0, 0.0, 1.0, 1.0, 0.0, 0.0, 0.0, 0.0]));
}

#[test]
fn attention_gradients_are_slopes() {
    let size = AttentionShape { embed_dim: 4, n_head: 2, n_kv_head: 1, max_seq_len: 4 };
    let leaves = [wave(&[1, 2, 4], 1), wave(&[4, 4], 2), wave(&[2, 4], 3), wave(&[2, 4], 4), wave(&[4, 4], 5)];
    check_gradients(&leaves, &|g| {
        let w = AttentionWeights { q: wave(&[4, 4], 2), k: wave(&[2, 4], 3), v: wave(&[2, 4], 4), o: wave(&[4, 4], 5) };
        let mut attn = SelfAttention::new(&size, 10000.0f32.to_bits(), true, w, &plain(), &Native).expect("sizes that fit");
        attn.w_q.weight = leaf(g, 1);
        attn.w_k.weight = leaf(g, 2);
        attn.w_v.weight = leaf(g, 3);
        attn.w_o.weight = leaf(g, 4);
        let (steps, cache) = attn.forward(&leaf(g, 0), None, &ON, &Native).expect("two tokens");
        assert!(cache.is_none());
        g.append(&vec![0, 1, 2, 3, 4], &steps)
    });
}

#[test]
fn gradients_of_two_passes_add_up() {
    let (mut g, root) = built(&[wave(&[2], 1)], &|g| {
        let a = mul_tensors(&leaf(g, 0), &leaf(g, 0), &ON, &Native);
        g.push(a, vec![0, 0])
    });
    g.backward(root, &Native);
    let once = values(&g.nodes[0].tensor.grad().expect("a gradient").data);
    g.nodes[root].tensor.zero_grad();
    g.backward(root, &Native);
    let twice = values(&g.nodes[0].tensor.grad().expect("a gradient").data);
    for (a, b) in once.iter().zip(&twice) {
        assert_eq!(2.0 * a, *b);
    }
}

#[test]
fn scopes_without_records_close() {
    let mut mode = GradMode::new();
    let x = Tensor::parameter(array(&[1], &[3.0]));
    let inside = no_grad(&mode, |m| {
        assert!(is_no_grad(m));
        add_tensors(&x, &x, m, &Native)
    });
    assert!(!inside.requires_grad());
    assert!(!is_no_grad(&mode));
    let outer = NoGradGuard::enter(&mut mode);
    let inner = NoGradGuard::enter(&mut mode);
    inner.leave(&mut mode);
    assert!(is_no_grad(&mode));
    outer.leave(&mut mode);
    assert_eq!(mode, GradMode::new());
    assert!(add_tensors(&x, &x, &mode, &Native).requires_grad());
    assert!(!detach(&x, &Native).requires_grad());
}

#[test]
fn descent_lowers_a_loss() {
    let mut g = Graph::new();
    let w = g.push(Tensor::parameter(array(&[1, 2], &[0.5, -0.5])), Vec::new());
    let x = make_tensor(&[4, 2], vec![1.0, 0.0, 0.0, 1.0, 1.0, 1.0, 2.0, -1.0], DType::F32);
    let y = make_tensor(&[4, 1], vec![2.0, -1.0, 1.0, 5.0], DType::F32);
    let mut opt = SGD::new(vec![w], 0.05f32.to_bits(), &plain()).expect("a floating dtype");
    let mut losses = Vec::new();
    for _ in 0..60 {
        let x_id = g.push(x.clone(), Vec::new());
        let y_id = g.push(y.clone(), Vec::new());
        let out = matmul(&x, &leaf(&g, w), &ON, &Native).expect("two features");
        let out = g.push(out, vec![x_id, w]);
        let loss = MSELoss::apply(&leaf(&g, out), &y, &ON, &Native);
        losses.push(data_of(&loss)[0]);
        let loss = g.push(loss, vec![out, y_id]);
        Optimizer::<Native>::zero_grad(&opt, &mut g);
        g.backward(loss, &Native);
        opt.step(&mut g, &Native);
    }
    assert!(losses[59] < 1e-2 * losses[0]);
    let found = data_of(&g.nodes[w].tensor);
    assert!((found[0] - 2.0).abs() < 0.05 && (found[1] + 1.0).abs() < 0.05);
}

#[test]
fn products_refuse_what_does_not_fit() {
    let mode = quiet();
    let a = make_tensor(&[2, 3], vec![0.0; 6], DType::F32);
    let b = make_tensor(&[2, 2], vec![0.0; 4], DType::F32);
    let c = make_tensor(&[1, 2, 2], vec![0.0; 4], DType::F32);
    assert!(matches!(matmul(&a, &b, &mode, &Native), Err(MatmulError::InnerMismatch)));
    assert!(matches!(matmul(&a, &c, &mode, &Native), Err(MatmulError::RhsNotMatrix)));
    let four = |s: [usize; 4]| make_tensor(&s, vec![0.0; s.iter().product()], DType::F32);
    let refused = |l, r| batch_matmul(&four(l), &four(r), &mode, &Native).err();
    assert_eq!(refused([1, 1, 2, 3], [2, 1, 3, 1]), Some(BatchMatmulError::BatchMismatch));
    assert_eq!(refused([1, 2, 2, 3], [1, 1, 3, 1]), Some(BatchMatmulError::HeadMismatch));
    assert_eq!(refused([1, 1, 2, 3], [1, 1, 2, 1]), Some(BatchMatmulError::InnerMismatch));
    let x = bits(&[1.0, 2.0]);
    let w = bits(&[1.0, 0.0, 3.0, 4.0, 3.0, 4.0]);
    assert_eq!(matvec_argmax_rowmajor_parallel(&x, &w, 3, 2, &Native), Ok(1));
    assert_eq!(matvec_argmax_rowmajor_parallel(&x, &w, 3, 3, &Native), Err(MatvecError::InputLength));
    assert_eq!(matvec_argmax_rowmajor_parallel(&x, &w, 4, 2, &Native), Err(MatvecError::WeightLength));
}

fn model() -> Sequential<Native> {
    let first = Linear::new(wave(&[3, 2], 1), &plain(), &Native);
    let second = Linear::new(wave(&[1, 3], 2), &plain(), &Native);
    Sequential::new(vec![Box::new(first), Box::new(Tanh::new()), Box::new(second)])
}

#[test]
fn modules_run_one_after_the_other() {
    let m = model();
    let x = make_tensor(&[1, 2], vec![0.3, -0.7], DType::F32);
    let steps = match Module::forward(&m, &x, &quiet(), &Native) {
        Ok(steps) => steps,
        Err(e) => panic!("refused: {e:?}"),
    };
    let (a, b) = (values(&wave(&[3, 2], 1).data), values(&wave(&[1, 3], 2).data));
    let hidden: Vec<f32> = (0..3).map(|i| (a[2 * i] * 0.3 + a[2 * i + 1] * -0.7).tanh()).collect();
    let expected: f32 = (0..3).map(|i| hidden[i] * b[i]).sum();
    assert!((data_of(&steps[steps.len() - 1].tensor)[0] - expected).abs() <= 1e-6);
    assert_eq!(m.parameters().len(), 4);
    let wide = make_tensor(&[1, 4], vec![0.0; 4], DType::F32);
    let refused = Module::forward(&m, &wide, &quiet(), &Native).err();
    assert_eq!(refused, Some(ModuleError::Inner(MatmulError::InnerMismatch)));
}

#[test]
fn modules_switch_between_training_and_inference() {
    let mut m = model();
    let mut mode = GradMode::new();
    m.eval_mode(&mut mode);
    assert!(is_no_grad(&mode));
    m.train_mode(&mut mode);
    assert!(!is_no_grad(&mode));
}

#[test]
fn modules_name_why_they_refuse() {
    let mode = quiet();
    let refused = |m: &dyn Module<Native>, shape: &[usize]| {
        m.forward(&make_tensor(shape, vec![0.0; shape.iter().product()], DType::F32), &mode, &Native).err()
    };
    let linear = Linear::new(wave(&[3, 2], 1), &plain(), &Native);
    assert_eq!(refused(&linear, &[]), Some(ModuleError::NoAxis));
    assert_eq!(refused(&linear, &[3, 0]), Some(ModuleError::EmptyAxis));
    let norm = RMSNorm::new(2, 1e-5f32.to_bits());
    assert_eq!(refused(&norm, &[]), Some(ModuleError::NoAxis));
    let recorded = Module::forward(&norm, &Tensor::parameter(wave(&[1, 3], 1)), &ON, &Native).err();
    assert_eq!(recorded, Some(ModuleError::WidthMismatch));
    let rnn = RNN::new(wave(&[3, 2], 3), wave(&[3, 3], 5), &plain(), &Native);
    assert_eq!(refused(&rnn, &[1, 2]), Some(ModuleError::UseForwardStep));
    let lstm = LSTM::new(wave(&[8, 2], 3), wave(&[8, 2], 5), 2, &plain(), &Native);
    assert_eq!(refused(&lstm, &[1, 2]), Some(ModuleError::UseForwardStep));
}

#[test]
fn checkpoints_give_parameters_back() {
    let m = model();
    let saved = m.save(&Native);
    assert_eq!(saved.params[0].0, vec![3, 2]);
    assert_eq!(values(&saved.params[0].1), values(&wave(&[3, 2], 1).data));
    let mut params: Vec<Tensor> =
        m.parameters().iter().map(|p| Tensor::parameter(array(&p.shape_vec(), &vec![0.0; p.len()]))).collect();
    assert_eq!(load(&mut params, saved), Ok(()));
    for (a, b) in params.iter().zip(m.parameters().iter()) {
        assert_eq!(data_of(a), data_of(b));
    }
    let two = checkpoint(&params[..2].to_vec(), &Native);
    assert_eq!(load(&mut params, two), Err(LoadError::CountMismatch));
    let broken = ModelCheckpoint { params: vec![(vec![2], vec![0]); 4] };
    assert_eq!(load(&mut params, broken), Err(LoadError::BadEntry));
}

#[test]
fn windows_leave_no_record_without_grad() {
    let x = Tensor::parameter(array(&[1, 1, 2, 2], &[1.0, 2.0, 3.0, 4.0]));
    let w = Tensor::parameter(array(&[1, 1, 1, 1], &[2.0]));
    let out = conv2d(&x, &w, None, (1, 1), (0, 0), &quiet(), &Native);
    assert!(!out.requires_grad() && out.op.is_none());
    assert_eq!(data_of(&out), vec![2.0, 4.0, 6.0, 8.0]);
    assert!(conv2d(&x, &w, None, (1, 1), (0, 0), &ON, &Native).op.is_some());
    let out = max_pool2d(&x, (2, 1), (1, 1), &quiet(), &Native);
    assert!(!out.requires_grad() && out.op.is_none());
    assert_eq!(data_of(&out), vec![3.0, 4.0]);
}

#[test]
fn windows_without_elements_give_the_lowest_number() {
    let mut g = Graph::new();
    let x = g.push(Tensor::parameter(wave(&[1, 1, 3, 3], 4)), Vec::new());
    let out = g.max_pool2d(x, (0, 2), (2, 1), &ON, &Native);
    assert_eq!(g.nodes[out].tensor.shape_vec(), vec![1, 1, 2, 2]);
    assert_eq!(data_of(&g.nodes[out].tensor), vec![f32::MIN; 4]);
    g.backward(out, &Native);
    assert_eq!(values(&g.nodes[x].tensor.grad().expect("a gradient").data), vec![0.0; 9]);
}

#[test]
fn rows_are_summed_in_a_fixed_order() {
    let x = bits(&[1.0; 9]);
    let row = bits(&[1e8, 1.0, 1.0, 1.0, -1e8, 1.0, 1.0, 1.0, 1.0]);
    let sums = |n: usize| {
        let mut out = vec![0; n];
        assert_eq!(matvec_rowmajor_parallel(&x, &row.repeat(n), n, 9, &mut out, &Native), Ok(()));
        values(&out)
    };
    assert_eq!(sums(3), vec![7.0; 3]);
    assert_eq!(sums(300), vec![7.0; 300]);
    assert_eq!(sums(16384), vec![4.0; 16384]);
    let four = bits(&[1e8, 1.0, -1e8, 1.0, 3.0]);
    let mut out = vec![0];
    assert_eq!(matvec_rowmajor_parallel(&x[..5], &four, 1, 5, &mut out, &Native), Ok(()));
    assert_eq!(values(&out), vec![4.0]);
}

#[test]
fn descent_trains_a_module() {
    let mut m: Sequential<Native> = Sequential::new(vec![
        Box::new(Linear::new(wave(&[2, 2], 1), &plain(), &Native)),
        Box::new(Linear::new(wave(&[1, 2], 2), &plain(), &Native)),
    ]);
    let first = data_of(&m.parameters()[0]);
    let mut g = Graph::new();
    let ids = g.adopt(&m).expect("sound parameters");
    let x = make_tensor(&[4, 2], vec![1.0, 0.0, 0.0, 1.0, 1.0, 1.0, 2.0, -1.0], DType::F32);
    let y = make_tensor(&[4, 1], vec![2.5, -0.5, 1.5, 5.5], DType::F32);
    let mut opt = SGD::new(ids.clone(), 0.02f32.to_bits(), &plain()).expect("a floating dtype");
    let mut losses = Vec::new();
    for _ in 0..600 {
        let x_id = g.push(x.clone(), Vec::new());
        let y_id = g.push(y.clone(), Vec::new());
        let out = g.apply(&mut m, x_id, &ids, &ON, &Native).expect("two features");
        let loss = g.mean_squared_error(out, y_id, &ON, &Native);
        losses.push(data_of(&g.nodes[loss].tensor)[0]);
        Optimizer::<Native>::zero_grad(&opt, &mut g);
        g.backward(loss, &Native);
        opt.step(&mut g, &Native);
    }
    assert!(losses[599] < 0.01 * losses[0], "{} {}", losses[0], losses[599]);
    assert_eq!(g.hand_back(&ids, &mut m), Ok(()));
    let steps = Module::forward(&m, &x, &quiet(), &Native).ok().expect("two features");
    let answer = data_of(&steps[steps.len() - 1].tensor);
    let error: f32 = answer.iter().zip(data_of(&y)).map(|(a, b)| (a - b) * (a - b)).sum::<f32>() / 4.0;
    assert!(error < 0.01 * losses[0]);
    assert!(data_of(&m.parameters()[0]) != first);
}

#[test]
fn modules_are_applied_to_nodes() {
    let mut m = model();
    let mut g = Graph::new();
    let x = make_tensor(&[1, 2], vec![0.3, -0.7], DType::F32);
    let x_id = g.push(x.clone(), Vec::new());
    let ids = g.adopt(&m).expect("sound parameters");
    let size = g.nodes.len();
    assert_eq!(g.apply(&mut m, 99, &ids, &ON, &Native), Err(ApplyError::NoSuchNode));
    assert_eq!(g.apply(&mut m, x_id, &vec![99; 4], &ON, &Native), Err(ApplyError::NoSuchNode));
    let few = g.apply(&mut m, x_id, &ids[..3].to_vec(), &ON, &Native);
    assert_eq!(few, Err(ApplyError::Parameters(LoadError::CountMismatch)));
    let turned: Vec<usize> = ids.iter().rev().copied().collect();
    let turned = g.apply(&mut m, x_id, &turned, &ON, &Native);
    assert_eq!(turned, Err(ApplyError::Parameters(LoadError::BadEntry)));
    let refused = g.apply(&mut m, ids[2], &ids, &ON, &Native);
    assert_eq!(refused, Err(ApplyError::Refused(ModuleError::Inner(MatmulError::InnerMismatch))));
    assert_eq!(g.nodes.len(), size);
    g.nodes[ids[3]].tensor = Tensor::parameter(array(&[1], &[40.0]));
    let out = g.apply(&mut m, x_id, &ids, &ON, &Native).expect("two features");
    assert!(data_of(&g.nodes[out].tensor)[0] > 30.0);
    assert_eq!(data_of(&m.parameters()[3]), vec![40.0]);
    let mut none: Sequential<Native> = Sequential::new(Vec::new());
    assert_eq!(g.apply(&mut none, x_id, &Vec::new(), &ON, &Native), Ok(x_id));
}

#[test]
fn loaded_modules_compute_with_what_was_saved() {
    let m = model();
    let zero = |shape: &[usize]| array(shape, &vec![0.0; shape.iter().product()]);
    let mut other: Sequential<Native> = Sequential::new(vec![
        Box::new(Linear::new(zero(&[3, 2]), &plain(), &Native)),
        Box::new(Tanh::new()),
        Box::new(Linear::new(zero(&[1, 3]), &plain(), &Native)),
    ]);
    let x = make_tensor(&[1, 2], vec![0.3, -0.7], DType::F32);
    let answer = |m: &Sequential<Native>| {
        let steps = Module::forward(m, &x, &quiet(), &Native).ok().expect("two features");
        data_of(&steps[steps.len() - 1].tensor)
    };
    assert_eq!(answer(&other), vec![0.0]);
    assert_eq!(other.load(m.save(&Native)), Ok(()));
    assert_eq!(answer(&other), answer(&m));
    assert!(answer(&m)[0] != 0.0);
    let two = checkpoint(&m.parameters()[..2].to_vec(), &Native);
    assert_eq!(other.load(two), Err(LoadError::CountMismatch));
    assert_eq!(other.load(ModelCheckpoint { params: vec![(vec![2], vec![0]); 4] }), Err(LoadError::BadEntry));
    assert_eq!(answer(&other), answer(&m));
    let mut wide = m.parameters();
    wide[0] = make_tensor(&[2, 3], vec![0.0; 6], DType::F32);
    assert_eq!(other.set_parameters(&wide), Err(LoadError::BadEntry));
    wide.pop();
    assert_eq!(other.set_parameters(&wide), Err(LoadError::CountMismatch));
    assert_eq!(answer(&other), answer(&m));
    let mut norm = RMSNorm::new(2, 1e-5f32.to_bits());
    let scaled = vec![make_tensor(&[2], vec![2.0, 3.0], DType::F32)];
    assert_eq!(Module::<Native>::set_parameters(&mut norm, &scaled), Ok(()));
    assert_eq!(data_of(&norm.weight), vec![2.0, 3.0]);
}

#[test]
fn dropout_stands_among_modules() {
    let drop = |p: f32| -> Sequential<Native> { Sequential::new(vec![Box::new(Dropout::new(p.to_bits()))]) };
    let x = make_tensor(&[2], vec![1.0, -3.0], DType::F32);
    let answer = |m: &Sequential<Native>, mode: &GradMode| {
        let steps = Module::forward(m, &x, mode, &Native).ok().expect("a share");
        steps.last().map(|n| data_of(&n.tensor))
    };
    assert_eq!(answer(&drop(0.5), &ON), Some(vec![2.0, -6.0]));
    assert_eq!(answer(&drop(0.75), &ON), Some(vec![0.0, 0.0]));
    assert_eq!(answer(&drop(0.0), &ON), None);
    assert_eq!(Module::forward(&drop(1.5), &x, &ON, &Native).err(), Some(ModuleError::Share));
    let mut m = drop(0.75);
    let mut mode = GradMode::new();
    m.eval_mode(&mut mode);
    assert!(is_no_grad(&mode));
    assert_eq!(answer(&m, &mode), None);
    m.train_mode(&mut mode);
    assert!(!is_no_grad(&mode));
    assert_eq!(answer(&m, &mode), Some(vec![0.0, 0.0]));
    let mut alone = Dropout::new(0.75f32.to_bits());
    Module::<Native>::eval_mode(&mut alone, &mut mode);
    assert!(!is_no_grad(&mode) && !alone.training);
}

#[test]
fn operations_on_nodes_name_their_operands() {
    let mut g = Graph::new();
    let a = g.push(Tensor::parameter(array(&[2, 2], &[1.0, 2.0, 3.0, 4.0])), Vec::new());
    let b = g.push(Tensor::parameter(array(&[2, 2], &[0.5, -1.0, 2.0, 0.0])), Vec::new());
    let c = g.combine(BinaryOp::Mul, a, b, &ON, &Native);
    assert_eq!((data_of(&g.nodes[c].tensor), &g.nodes[c].parents), (vec![0.5, -2.0, 6.0, 0.0], &vec![a, b]));
    let d = g.combine(BinaryOp::Sub, c, a, &ON, &Native);
    assert_eq!((data_of(&g.nodes[d].tensor), &g.nodes[d].parents), (vec![-0.5, -4.0, 3.0, -4.0], &vec![c, a]));
    let e = g.matmul(a, b, &ON, &Native).expect("two columns");
    assert_eq!((data_of(&g.nodes[e].tensor), &g.nodes[e].parents), (vec![-1.5, 2.0, -2.5, 6.0], &vec![a, b]));
    let t = g.permute(e, vec![1, 0], &ON, &Native).expect("two axes");
    assert_eq!((data_of(&g.nodes[t].tensor), &g.nodes[t].parents), (vec![-1.5, -2.5, 2.0, 6.0], &vec![e]));
    let left = g.slice_last_dim(t, 0, 1, &ON, &Native).expect("a column");
    assert_eq!((data_of(&g.nodes[left].tensor), &g.nodes[left].parents), (vec![-1.5, 2.0], &vec![t]));
    let wide = g.cat(&vec![left, a], 1, &ON, &Native).expect("two rows");
    assert_eq!(data_of(&g.nodes[wide].tensor), vec![-1.5, 1.0, 2.0, 2.0, 3.0, 4.0]);
    assert_eq!(g.nodes[wide].parents, vec![left, a]);
    let flat = g.reshape(wide, vec![-1], &ON, &Native).expect("six elements");
    assert_eq!(g.nodes[flat].tensor.shape_vec(), vec![6]);
    let total = g.sum(flat, &ON, &Native);
    assert_eq!((data_of(&g.nodes[total].tensor), &g.nodes[total].parents), (vec![10.5], &vec![flat]));
    g.backward(total, &Native);
    assert_eq!(values(&g.nodes[a].tensor.grad().expect("a gradient").data), vec![3.5, 0.0, 1.0, 1.0]);
    assert_eq!(g.matmul(a, flat, &ON, &Native), Err(MatmulError::RhsNotMatrix));
    let size = g.nodes.len();
    assert_eq!(g.slice_last_dim(b, 0, 2, &quiet(), &Native), Ok(b));
    assert_eq!(g.cat(&vec![b], 0, &quiet(), &Native), Ok(b));
    assert_eq!(g.nodes.len(), size);
    let still = g.combine(BinaryOp::Add, a, b, &quiet(), &Native);
    assert!(g.nodes[still].parents.is_empty() && g.nodes[still].tensor.op.is_none());
}

#[test]
fn losses_and_windows_on_nodes() {
    let mut g = Graph::new();
    let x = g.push(Tensor::parameter(wave(&[1, 1, 3, 3], 1)), Vec::new());
    let w = g.push(Tensor::parameter(wave(&[1, 1, 2, 2], 2)), Vec::new());
    let b = g.push(Tensor::parameter(wave(&[1], 3)), Vec::new());
    let plain_out = g.conv2d(x, w, None, (1, 1), (0, 0), &ON, &Native);
    assert_eq!(g.nodes[plain_out].parents, vec![x, w]);
    let out = g.conv2d(x, w, Some(b), (1, 1), (0, 0), &ON, &Native);
    assert_eq!(g.nodes[out].parents, vec![x, w, b]);
    let bias = data_of(&leaf(&g, b))[0];
    for (p, q) in data_of(&g.nodes[plain_out].tensor).iter().zip(data_of(&g.nodes[out].tensor)) {
        assert_eq!(p + bias, q);
    }
    let pooled = g.max_pool2d(out, (2, 2), (1, 1), &ON, &Native);
    let largest = data_of(&g.nodes[out].tensor).into_iter().fold(f32::MIN, f32::max);
    assert_eq!((data_of(&g.nodes[pooled].tensor), &g.nodes[pooled].parents), (vec![largest], &vec![out]));
    let logits = g.push(Tensor::parameter(array(&[1, 2], &[0.0, 0.0])), Vec::new());
    let target = g.push(make_tensor(&[1, 2], vec![1.0, 0.0], DType::F32), Vec::new());
    let loss = g.cross_entropy(logits, target, &ON, &Native);
    assert!((data_of(&g.nodes[loss].tensor)[0] - 2.0f32.ln()).abs() < 1e-6);
    assert_eq!(g.nodes[loss].parents, vec![logits, target]);
    let squares = g.mean_squared_error(logits, target, &ON, &Native);
    assert_eq!(data_of(&g.nodes[squares].tensor), vec![0.5]);
    let l = g.push(Tensor::parameter(array(&[1, 1, 1, 2], &[2.0, 3.0])), Vec::new());
    let r = g.push(Tensor::parameter(array(&[1, 1, 2, 1], &[5.0, 7.0])), Vec::new());
    let product = g.batch_matmul(l, r, &ON, &Native).expect("two features");
    assert_eq!((data_of(&g.nodes[product].tensor), &g.nodes[product].parents), (vec![31.0], &vec![l, r]));
    assert_eq!(g.batch_matmul(l, l, &ON, &Native), Err(BatchMatmulError::InnerMismatch));
}

#[test]
fn graphs_adopt_parameters_and_hand_them_back() {
    let mut m = model();
    let mut g = Graph::new();
    g.push(make_tensor(&[1], vec![0.0], DType::F32), Vec::new());
    let ids = g.adopt(&m).expect("sound parameters");
    assert_eq!(ids, vec![1, 2, 3, 4]);
    for (id, p) in ids.iter().zip(m.parameters()) {
        assert_eq!(data_of(&g.nodes[*id].tensor), data_of(&p));
        assert!(g.nodes[*id].parents.is_empty());
    }
    g.nodes[4].tensor = Tensor::parameter(array(&[1], &[-6.5]));
    assert_eq!(g.hand_back(&ids, &mut m), Ok(()));
    assert_eq!(data_of(&m.parameters()[3]), vec![-6.5]);
    assert_eq!(g.hand_back(&vec![0, 1, 2, 9], &mut m), Err(ApplyError::NoSuchNode));
    assert_eq!(g.hand_back(&vec![0, 1, 2, 3], &mut m), Err(ApplyError::Parameters(LoadError::BadEntry)));
    let made = add_tensors(&leaf(&g, 4), &leaf(&g, 4), &ON, &Native);
    let layer = Linear { weight: Tensor::parameter(wave(&[1, 2], 1)), bias: Some(made), in_features: 2, out_features: 1 };
    let odd: Sequential<Native> = Sequential::new(vec![Box::new(layer)]);
    assert_eq!(g.adopt(&odd), Err(LoadError::BadEntry));
}

#[test]
fn derivatives_are_taken_of_what_operands_hold() {
    let mut g = Graph::new();
    let a = g.push(Tensor::parameter(array(&[2], &[1.0, 2.0])), Vec::new());
    let b = g.push(Tensor::parameter(array(&[2], &[3.0, 4.0])), Vec::new());
    let c = g.combine(BinaryOp::Mul, a, b, &ON, &Native);
    g.nodes[b].tensor = Tensor::parameter(array(&[2], &[50.0, 60.0]));
    g.backward(c, &Native);
    assert_eq!(data_of(&leaf(&g, c)), vec![3.0, 8.0]);
    assert_eq!(values(&g.nodes[a].tensor.grad().expect("a gradient").data), vec![50.0, 60.0]);
    assert_eq!(values(&g.nodes[b].tensor.grad().expect("a gradient").data), vec![1.0, 2.0]);
    let x = g.push(Tensor::parameter(array(&[1, 2], &[1.0, 1.0])), Vec::new());
    let w = g.push(Tensor::parameter(array(&[1, 2], &[5.0, 7.0])), Vec::new());
    let y = g.matmul(x, w, &ON, &Native).expect("two features");
    g.nodes[w].tensor = Tensor::parameter(array(&[1, 2], &[-1.0, 9.0]));
    g.backward(y, &Native);
    assert_eq!(values(&g.nodes[x].tensor.grad().expect("a gradient").data), vec![-1.0, 9.0]);
}

#[test]
fn modules_that_do_not_fit_together_are_found() {
    let good = make_tensor(&[1, 2], vec![0.3, -0.7], DType::F32);
    let mut m = model();
    assert!(m.is_valid());
    let steps = m.checked_forward(&good, &quiet(), &Native).ok().expect("two features");
    let same = Module::forward(&m, &good, &quiet(), &Native).ok().expect("two features");
    assert_eq!(data_of(&steps[steps.len() - 1].tensor), data_of(&same[same.len() - 1].tensor));
    let torn = Tensor::from_array_no_grad(NdArray { shape: vec![1, 2], data: bits(&[1.0]) });
    assert_eq!(m.checked_forward(&torn, &quiet(), &Native).err(), Some(ModuleError::UnsoundInput));
    let mut wide = m.save(&Native);
    wide.params[0] = (vec![4, 2], bits(&[0.5; 8]));
    assert_eq!(m.load(wide), Ok(()));
    assert!(!m.is_valid());
    assert_eq!(m.checked_forward(&good, &quiet(), &Native).err(), Some(ModuleError::Invalid));
    let mut g = Graph::new();
    let x = g.push(good, Vec::new());
    let ids = g.adopt(&m).expect("sound parameters");
    assert_eq!(g.apply(&mut m, x, &ids, &ON, &Native), Err(ApplyError::Refused(ModuleError::Invalid)));
    let rnn = RNN::new(wave(&[3, 2], 3), wave(&[3, 3], 5), &plain(), &Native);
    let lstm = LSTM::new(wave(&[8, 2], 3), wave(&[8, 2], 5), 2, &plain(), &Native);
    assert!(rnn.is_sound() && lstm.is_sound());
    let size = AttentionShape { embed_dim: 4, n_head: 2, n_kv_head: 1, max_seq_len: 4 };
    let w = AttentionWeights { q: wave(&[4, 4], 2), k: wave(&[2, 4], 3), v: wave(&[2, 4], 4), o: wave(&[4, 4], 5) };
    let mut attn = SelfAttention::new(&size, 10000.0f32.to_bits(), true, w, &plain(), &Native).expect("sizes that fit");
    assert!(attn.is_sound());
    attn.n_head = 3;
    assert!(!attn.is_sound());
}

#[test]
fn filters_without_elements_need_no_channels() {
    let x = make_tensor(&[1, 2, 2, 2], vec![1.0; 8], DType::F32);
    let none = make_tensor(&[0, 5, 1, 1], vec![], DType::F32);
    let out = conv2d(&x, &none, None, (1, 1), (0, 0), &quiet(), &Native);
    assert_eq!(out.shape_vec(), vec![1, 0, 2, 2]);
    let empty = make_tensor(&[2, 7, 0, 1], vec![], DType::F32);
    let bias = make_tensor(&[2], vec![0.5, -1.5], DType::F32);
    let out = conv2d(&x, &empty, Some(&bias), (1, 1), (0, 0), &quiet(), &Native);
    assert_eq!(out.shape_vec(), vec![1, 2, 3, 2]);
    assert_eq!(data_of(&out), [[0.5; 6], [-1.5; 6]].concat());
}

#[test]
fn a_longer_bias_is_used_as_far_as_there_are_filters() {
    let x = make_tensor(&[1, 1, 1, 2], vec![1.0, 2.0], DType::F32);
    let w = make_tensor(&[1, 1, 1, 1], vec![3.0], DType::F32);
    let bias = make_tensor(&[3], vec![0.5, 7.0, 9.0], DType::F32);
    let out = conv2d(&x, &w, Some(&bias), (1, 1), (0, 0), &ON, &Native);
    assert_eq!(data_of(&out), vec![3.5, 6.5]);
    let nothing = make_tensor(&[0, 1, 1, 2], vec![], DType::F32);
    let odd = make_tensor(&[2, 2], vec![0.0; 4], DType::F32);
    let out = conv2d(&nothing, &w, Some(&odd), (1, 1), (0, 0), &ON, &Native);
    assert_eq!(out.shape_vec(), vec![0, 1, 1, 2]);
}

#[test]
fn entropy_of_rows_under_other_extents() {
    let flat = Tensor::parameter(array(&[2, 3], &[0.5, -1.0, 2.0, 1.0, 0.0, -0.5]));
    let deep = Tensor::parameter(array(&[2, 3, 1], &[0.5, -1.0, 2.0, 1.0, 0.0, -0.5]));
    let target = make_tensor(&[2, 3], vec![1.0, 0.0, 0.0, 0.0, 0.0, 1.0], DType::F32);
    let line = make_tensor(&[6], vec![1.0, 0.0, 0.0, 0.0, 0.0, 1.0], DType::F32);
    let want = CrossEntropyLoss::apply(&flat, &target, &ON, &Native);
    let got = CrossEntropyLoss::apply(&deep, &line, &ON, &Native);
    assert!(got.requires_grad() && got.op.is_some());
    assert_eq!(data_of(&got), data_of(&want));
}
