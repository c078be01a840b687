use std::collections::HashMap;

use gguf_rs::calc::{
    make_decay, make_largest, make_rms, make_sigmoid, make_silu, make_softplus, Calc,
};
use gguf_rs::model::kv_cache::KvCache;
use gguf_rs::model::kv_dtype::KvDtype;
use gguf_rs::model::llama::program::{Buffer, Launch, NormRef, Op};
use gguf_rs::model::llama::steps::launched_steps;
use gguf_rs::model::llama::types::MixerKind;
use gguf_rs::model::llama::vectors::{vector_values, LayerVector};
use gguf_rs::model::select::create_model;
use gguf_rs::model::{InferenceState, LlamaModel};
use gguf_rs::ops::kernels::attention::{attention_output, attention_scores, attention_softmax};
use gguf_rs::ops::kernels::elementwise::{kv_cache_write, silu_mul};
use gguf_rs::ops::kernels::norm::{add_residual_rms_norm, qk_norm_rope, rms_norm};
use gguf_rs::runner::{generate, greedy_run, Generation};
use gguf_rs::sampler::argmax;
use gguf_rs::tokenizer::{build_byte_maps, Tokenizer};
use gguf_rs::types::{
    FloatBits, GgmlType, GgufFile, Metadata, MetadataArrayType, MetadataValue, TensorInfo,
};

fn half(bits: u16) -> f32 {
    half::f16::from_bits(bits).to_f32()
}

/// Single-precision arithmetic.
fn calc(c: Calc) -> u32 {
    let f = f32::from_bits;
    let r: f32 = match c {
        Calc::Add(a, b) => f(a) + f(b),
        Calc::Sub(a, b) => f(a) - f(b),
        Calc::Mul(a, b) => f(a) * f(b),
        Calc::Div(a, b) => f(a) / f(b),
        Calc::Max(a, b) => f(a).max(f(b)),
        Calc::Pow(a, b) => f(a).powf(f(b)),
        Calc::Neg(a) => -f(a),
        Calc::Sqrt(a) => f(a).sqrt(),
        Calc::Exp(a) => f(a).exp(),
        Calc::Ln(a) => f(a).ln(),
        Calc::Sin(a) => f(a).sin(),
        Calc::Cos(a) => f(a).cos(),
        Calc::OfInt(n) => n as f32,
        Calc::OfCount(n) => n as f32,
        Calc::OfHalf(h) => half(h),
        Calc::OfDouble(d) => f64::from_bits(d) as f32,
        Calc::ToHalf(a) => return half::f16::from_f32(f(a)).to_bits() as u32,
        Calc::Round(a) => return f(a).round() as i32 as u32,
    };
    r.to_bits()
}

fn numbers(bits: &[u32]) -> Vec<f32> {
    bits.iter().map(|&b| f32::from_bits(b)).collect()
}

// ── A small model ─────────────────────────────────────────────────────────

const D: usize = 8;
const HEADS: usize = 2;
const KV_HEADS: usize = 1;
const HEAD: usize = 4;
const FF: usize = 6;
const VOCAB: usize = 5;
const EPS: f32 = 1e-5;
const THETA: f32 = 10000.0;

struct Builder {
    metadata: Metadata,
    tensors: Vec<TensorInfo>,
    data: Vec<u8>,
    values: HashMap<String, Vec<f32>>,
    seed: u32,
}

impl Builder {
    fn new(layers: u32) -> Self {
        let mut b = Builder {
            metadata: Metadata::new(),
            tensors: vec![],
            data: vec![],
            values: HashMap::new(),
            seed: 1,
        };
        b.set("general.architecture", MetadataValue::String("llama".to_string()));
        b.number("attention.head_count", HEADS as u32);
        b.number("attention.head_count_kv", KV_HEADS as u32);
        b.number("embedding_length", D as u32);
        b.number("block_count", layers);
        b.number("feed_forward_length", FF as u32);
        b.number("context_length", 8);
        b.tensor("token_embd.weight", &[D, VOCAB]);
        b.tensor("output_norm.weight", &[D]);
        b
    }

    fn set(&mut self, key: &str, v: MetadataValue) {
        self.metadata.insert(key.to_string(), v);
    }

    fn number(&mut self, field: &str, n: u32) {
        self.set(&format!("llama.{field}"), MetadataValue::U32(n));
    }

    fn tensor(&mut self, name: &str, dims: &[usize]) {
        let n: usize = dims.iter().product();
        let byte_offset = self.data.len() as u64;
        let mut values = Vec::new();
        for _ in 0..n {
            self.seed = self.seed.wrapping_mul(1664525).wrapping_add(1013904223);
            let v = (self.seed >> 16) as f32 / 65536.0 - 0.5;
            self.data.extend_from_slice(&v.to_le_bytes());
            values.push(v);
        }
        self.values.insert(name.to_string(), values);
        self.tensors.push(TensorInfo {
            name: name.to_string(),
            n_dims: dims.len() as u32,
            dims: dims.iter().map(|&d| d as u64).collect(),
            ggml_type: GgmlType::F32,
            byte_offset,
        });
    }

    /// What every layer has beside its mixer.
    fn layer(&mut self, i: usize) {
        self.tensor(&format!("blk.{i}.attn_norm.weight"), &[D]);
        self.tensor(&format!("blk.{i}.ffn_norm.weight"), &[D]);
        self.tensor(&format!("blk.{i}.ffn_gate.weight"), &[D, FF]);
        self.tensor(&format!("blk.{i}.ffn_up.weight"), &[D, FF]);
        self.tensor(&format!("blk.{i}.ffn_down.weight"), &[FF, D]);
    }

    fn attention(&mut self, i: usize, gated: bool, norms: bool) {
        let q = HEADS * HEAD * if gated { 2 } else { 1 };
        self.layer(i);
        self.tensor(&format!("blk.{i}.attn_q.weight"), &[D, q]);
        self.tensor(&format!("blk.{i}.attn_k.weight"), &[D, KV_HEADS * HEAD]);
        self.tensor(&format!("blk.{i}.attn_v.weight"), &[D, KV_HEADS * HEAD]);
        self.tensor(&format!("blk.{i}.attn_output.weight"), &[HEADS * HEAD, D]);
        if norms {
            self.tensor(&format!("blk.{i}.attn_q_norm.weight"), &[HEAD]);
            self.tensor(&format!("blk.{i}.attn_k_norm.weight"), &[HEAD]);
        }
    }

    fn file(self) -> (GgufFile, Vec<u8>, HashMap<String, Vec<f32>>) {
        let f = GgufFile {
            version: 3,
            tensor_count: self.tensors.len() as u64,
            metadata: self.metadata,
            tensors: self.tensors,
            data_offset: 0,
        };
        (f, self.data, self.values)
    }
}

// ── The same pass, written out in floating point ──────────────────────────

fn product(w: &[f32], x: &[f32]) -> Vec<f32> {
    w.chunks(x.len())
        .map(|row| row.iter().zip(x).map(|(a, b)| a * b).sum())
        .collect()
}

fn normed(x: &[f32], w: &[f32]) -> Vec<f32> {
    let mean: f32 = x.iter().map(|v| v * v).sum::<f32>() / x.len() as f32;
    let rms = (mean + EPS).sqrt();
    x.iter().zip(w).map(|(v, w)| w * v / rms).collect()
}

fn sigmoid(x: f32) -> f32 {
    1.0 / (1.0 + (-x).exp())
}

fn rotated(x: &[f32], n_rot: usize, pos: usize) -> Vec<f32> {
    let mut out = x.to_vec();
    let half = n_rot / 2;
    for h in 0..x.len() / HEAD {
        for d in 0..half {
            let by = pos as f32 / THETA.powf(2.0 * d as f32 / n_rot as f32);
            let (a, b) = (x[h * HEAD + d], x[h * HEAD + d + half]);
            out[h * HEAD + d] = a * by.cos() - b * by.sin();
            out[h * HEAD + d + half] = a * by.sin() + b * by.cos();
        }
    }
    out
}

struct Reference {
    w: HashMap<String, Vec<f32>>,
    keys: Vec<Vec<Vec<f32>>>,
    vals: Vec<Vec<Vec<f32>>>,
    history: Vec<Vec<Vec<f32>>>,
    state: Vec<Vec<f32>>,
    n_rot: usize,
}

impl Reference {
    fn new(w: HashMap<String, Vec<f32>>, layers: usize, n_rot: usize) -> Self {
        Reference {
            w,
            keys: vec![vec![]; layers],
            vals: vec![vec![]; layers],
            history: vec![vec![]; layers],
            state: vec![vec![0.0; 64]; layers],
            n_rot,
        }
    }

    fn at(&self, i: usize, name: &str) -> Vec<f32> {
        self.w[&format!("blk.{i}.{name}")].clone()
    }

    fn heads_normed(&self, x: &[f32], w: &[f32]) -> Vec<f32> {
        x.chunks(HEAD).flat_map(|h| normed(h, w)).collect()
    }

    fn attention(&mut self, i: usize, xn: &[f32], pos: usize, gated: bool, norms: bool) -> Vec<f32> {
        let mut q = product(&self.at(i, "attn_q.weight"), xn);
        let mut k = product(&self.at(i, "attn_k.weight"), xn);
        let v = product(&self.at(i, "attn_v.weight"), xn);
        let mut gate = vec![];
        if gated {
            gate = q.chunks(2 * HEAD).flat_map(|h| h[HEAD..].to_vec()).collect();
            q = q.chunks(2 * HEAD).flat_map(|h| h[..HEAD].to_vec()).collect();
        }
        if norms {
            q = self.heads_normed(&q, &self.at(i, "attn_q_norm.weight"));
            k = self.heads_normed(&k, &self.at(i, "attn_k_norm.weight"));
        }
        let n_rot = if gated { self.n_rot } else { HEAD };
        q = rotated(&q, n_rot, pos);
        k = rotated(&k, n_rot, pos);
        let to_half = |x: Vec<f32>| -> Vec<f32> {
            x.iter().map(|&v| half::f16::from_f32(v).to_f32()).collect()
        };
        self.keys[i].push(to_half(k));
        self.vals[i].push(to_half(v));
        let mut out = vec![];
        for h in 0..HEADS {
            let kv = h / (HEADS / KV_HEADS);
            let mine = &q[h * HEAD..h * HEAD + HEAD];
            let scores: Vec<f32> = self.keys[i]
                .iter()
                .map(|k| product(&k[kv * HEAD..kv * HEAD + HEAD], mine)[0] / 2.0)
                .collect();
            let top = scores.iter().cloned().fold(f32::NEG_INFINITY, f32::max);
            let up: Vec<f32> = scores.iter().map(|s| (s - top).exp()).collect();
            let all: f32 = up.iter().sum();
            for d in 0..HEAD {
                let values = self.vals[i].iter().map(|v| v[kv * HEAD + d]);
                out.push(up.iter().zip(values).map(|(u, v)| u / all * v).sum());
            }
        }
        for (o, g) in out.iter_mut().zip(&gate) {
            *o *= sigmoid(*g);
        }
        product(&self.at(i, "attn_output.weight"), &out)
    }

    /// The inputs of a convolution of width 3, with zeros before the first one.
    fn convolved(&mut self, i: usize, w: &[f32], input: Vec<f32>) -> Vec<f32> {
        self.history[i].push(input);
        let seen = &self.history[i];
        let n = seen.len();
        (0..seen[0].len())
            .map(|ch| {
                (0..3)
                    .filter(|k| n + k >= 3)
                    .map(|k| w[ch * 3 + k] * seen[n + k - 3][ch])
                    .sum()
            })
            .collect()
    }

    fn short_conv(&mut self, i: usize, xn: &[f32]) -> Vec<f32> {
        let bcx = product(&self.at(i, "shortconv.in_proj.weight"), xn);
        let bx: Vec<f32> = (0..D).map(|j| bcx[j] * bcx[2 * D + j]).collect();
        let conv = self.convolved(i, &self.at(i, "shortconv.conv.weight"), bx);
        let y: Vec<f32> = (0..D).map(|j| bcx[D + j] * conv[j]).collect();
        product(&self.at(i, "shortconv.out_proj.weight"), &y)
    }

    /// One key head of 3, two value heads of 4.
    fn delta_net(&mut self, i: usize, xn: &[f32]) -> Vec<f32> {
        let (hk, hv, nv) = (3, 4, 2);
        let qkv = product(&self.at(i, "attn_qkv.weight"), xn);
        let z = product(&self.at(i, "attn_gate.weight"), xn);
        let beta = product(&self.at(i, "ssm_beta.weight"), xn);
        let alpha = product(&self.at(i, "ssm_alpha.weight"), xn);
        let (a, bias) = (self.at(i, "ssm_a"), self.at(i, "ssm_dt.bias"));
        let conv = self.convolved(i, &self.at(i, "ssm_conv1d.weight"), qkv);
        let x: Vec<f32> = conv.iter().map(|v| v * sigmoid(*v)).collect();
        let unit = |s: &[f32]| -> Vec<f32> {
            let n = (s.iter().map(|v| v * v).sum::<f32>() + EPS).sqrt();
            s.iter().map(|v| v / n).collect()
        };
        let (q, k) = (unit(&x[..hk]), unit(&x[hk..2 * hk]));
        let norm = self.at(i, "ssm_norm.weight");
        let mut out = vec![];
        for h in 0..nv {
            let v = &x[2 * hk + h * hv..2 * hk + h * hv + hv];
            let decay = (a[h] * (1.0 + (alpha[h] + bias[h]).exp()).ln()).exp();
            let s = &mut self.state[i][h * hk * hv..(h + 1) * hk * hv];
            let delta: Vec<f32> = (0..hv)
                .map(|b| {
                    let predicted: f32 = (0..hk).map(|a| s[a * hv + b] * k[a]).sum();
                    sigmoid(beta[h]) * (v[b] - predicted)
                })
                .collect();
            for a in 0..hk {
                for b in 0..hv {
                    s[a * hv + b] = decay * s[a * hv + b] + k[a] * delta[b];
                }
            }
            let read: Vec<f32> = (0..hv)
                .map(|b| (0..hk).map(|a| q[a] / (hk as f32).sqrt() * s[a * hv + b]).sum())
                .collect();
            for (b, n) in normed(&read, &norm).iter().enumerate() {
                let g = z[h * hv + b];
                out.push(n * g * sigmoid(g));
            }
        }
        product(&self.at(i, "ssm_out.weight"), &out)
    }

    fn forward(&mut self, kinds: &[MixerKind], norms: bool, token: usize, pos: usize) -> Vec<f32> {
        let mut x = self.w["token_embd.weight"][token * D..token * D + D].to_vec();
        for (i, kind) in kinds.iter().enumerate() {
            let xn = normed(&x, &self.at(i, "attn_norm.weight"));
            let mixed = match kind {
                MixerKind::Attention => self.attention(i, &xn, pos, false, norms),
                MixerKind::GatedAttention => self.attention(i, &xn, pos, true, true),
                MixerKind::ShortConv => self.short_conv(i, &xn),
                MixerKind::GatedDeltaNet => self.delta_net(i, &xn),
            };
            x = x.iter().zip(&mixed).map(|(a, b)| a + b).collect();
            let xn = normed(&x, &self.at(i, "ffn_norm.weight"));
            let gate = product(&self.at(i, "ffn_gate.weight"), &xn);
            let up = product(&self.at(i, "ffn_up.weight"), &xn);
            let act: Vec<f32> = gate.iter().zip(&up).map(|(g, u)| g * sigmoid(*g) * u).collect();
            let down = product(&self.at(i, "ffn_down.weight"), &act);
            x = x.iter().zip(&down).map(|(a, b)| a + b).collect();
        }
        let xn = normed(&x, &self.w["output_norm.weight"]);
        product(&self.w["token_embd.weight"], &xn)
    }
}

fn assert_close(a: &[f32], b: &[f32]) {
    assert_eq!(a.len(), b.len());
    for (x, y) in a.iter().zip(b) {
        assert!((x - y).abs() < 1e-3, "{a:?} != {b:?}");
    }
}

fn fresh(m: &LlamaModel) -> InferenceState<u32> {
    InferenceState::new(&m.cfg, m.l_cache, &m.layers, m.gdn_dims, 0)
}

fn empty_cache(m: &LlamaModel, dtype: KvDtype) -> KvCache {
    KvCache::new_with_dtype(m.layers.len(), KV_HEADS, HEAD, 8, dtype)
}

fn check(b: Builder, kinds: &[MixerKind], norms: bool, n_rot: usize) {
    let (f, data, w) = b.file();
    let m = create_model(&f, &data).unwrap();
    let found: Vec<MixerKind> = m.layers.iter().map(|l| l.mixer.kind()).collect();
    assert_eq!(found, kinds);
    let mut reference = Reference::new(w, kinds.len(), n_rot);
    let mut state = fresh(&m);
    let mut cache = empty_cache(&m, KvDtype::F16);
    for (pos, token) in [3u32, 0, 4, 3].into_iter().enumerate() {
        let logits = m.forward(token, pos, &mut cache, &mut state, &calc).unwrap().unwrap();
        let expected = reference.forward(kinds, norms, token as usize, pos);
        assert_close(&numbers(&logits), &expected);
    }
}

fn dense() -> Builder {
    let mut b = Builder::new(1);
    b.attention(0, false, false);
    b
}

#[test]
fn pass_of_an_attention_model() {
    check(dense(), &[MixerKind::Attention], false, HEAD);
}

#[test]
fn pass_with_normalized_queries_and_keys() {
    let mut b = Builder::new(2);
    b.attention(0, false, true);
    b.attention(1, false, true);
    check(b, &[MixerKind::Attention, MixerKind::Attention], true, HEAD);
}

#[test]
fn pass_of_a_short_conv_model() {
    let mut b = Builder::new(2);
    b.number("shortconv.l_cache", 3);
    b.layer(0);
    b.tensor("blk.0.shortconv.conv.weight", &[3, D]);
    b.tensor("blk.0.shortconv.in_proj.weight", &[D, 3 * D]);
    b.tensor("blk.0.shortconv.out_proj.weight", &[D, D]);
    b.attention(1, false, false);
    check(b, &[MixerKind::ShortConv, MixerKind::Attention], false, HEAD);
}

#[test]
fn pass_of_a_delta_net_model() {
    check(delta_net(), &[MixerKind::GatedDeltaNet, MixerKind::GatedAttention], true, 2);
}

fn delta_net() -> Builder {
    let mut b = Builder::new(2);
    b.number("ssm.state_size", 3);
    b.number("ssm.group_count", 1);
    b.number("ssm.inner_size", 8);
    b.number("ssm.time_step_rank", 2);
    b.number("ssm.conv_kernel", 3);
    b.number("rope.dimension_count", 2);
    b.layer(0);
    b.tensor("blk.0.attn_qkv.weight", &[D, 14]);
    b.tensor("blk.0.attn_gate.weight", &[D, 8]);
    b.tensor("blk.0.ssm_conv1d.weight", &[3, 14]);
    b.tensor("blk.0.ssm_a", &[2]);
    b.tensor("blk.0.ssm_dt.bias", &[2]);
    b.tensor("blk.0.ssm_beta.weight", &[D, 2]);
    b.tensor("blk.0.ssm_alpha.weight", &[D, 2]);
    b.tensor("blk.0.ssm_norm.weight", &[4]);
    b.tensor("blk.0.ssm_out.weight", &[8, D]);
    b.attention(1, true, true);
    b
}

#[test]
fn vectors_of_layers() {
    let (f, data, _) = delta_net().file();
    let m = create_model(&f, &data).unwrap();
    let list = m.vector_list().unwrap();
    let at = |kind: LayerVector| list.iter().find(|v| v.kind == kind).map(|v| (v.layer, v.zeros));
    // Two norms of each layer, and six vectors of the first one.
    assert_eq!(list.len(), 10);
    // Two heads of three rows and four columns, and two inputs of fourteen channels.
    assert_eq!(at(LayerVector::GdnRecurrentState), Some((0, 24)));
    assert_eq!(at(LayerVector::GdnConvHistory), Some((0, 28)));
    assert_eq!(at(LayerVector::ConvWeight), None);
    assert_eq!(vector_values(&m.layers[0], LayerVector::GdnSsmA).unwrap().len(), 2);
    assert!(vector_values(&m.layers[0], LayerVector::GdnRecurrentState).is_none());
    assert!(vector_values(&m.layers[1], LayerVector::GdnSsmA).is_none());
}

#[test]
fn batch_is_one_pass_after_the_other() {
    let (f, data, _) = dense().file();
    let m = create_model(&f, &data).unwrap();
    let tokens = [1u32, 2, 3];
    let mut state = fresh(&m);
    let mut cache = empty_cache(&m, KvDtype::Q8_0);
    let batch = m.forward_batch(&tokens, 0, &mut cache, &mut state, &calc).unwrap().unwrap();
    let mut state = fresh(&m);
    let mut cache = empty_cache(&m, KvDtype::Q8_0);
    let mut last = vec![];
    for (pos, &t) in tokens.iter().enumerate() {
        last = m.run(t, pos, &mut cache, &mut state, &calc).unwrap();
    }
    assert_eq!(batch, last);
    let none = m.forward_batch(&[], 3, &mut cache, &mut state, &calc).unwrap().unwrap();
    assert_eq!(none, Vec::<u32>::new());
}

#[test]
fn passes_that_are_not_defined() {
    let (f, data, _) = dense().file();
    let m = create_model(&f, &data).unwrap();
    let mut state = fresh(&m);
    let mut cache = empty_cache(&m, KvDtype::F16);
    // Past the end of the context.
    assert!(m.forward(0, 8, &mut cache, &mut state, &calc).is_none());
    // A cache without the layer.
    let mut other = KvCache::new(0, KV_HEADS, HEAD, 8);
    assert!(m.forward(0, 0, &mut other, &mut state, &calc).is_none());
    // A state of another shape.
    state.q.push(0);
    assert!(m.is_ready(Op::Norm(NormRef::Output), 0, 0, &state, &cache));
    assert!(!m.is_ready(Op::RotateQ(false), 0, 0, &state, &cache));
    assert!(m.forward_batch(&[1, 2], 0, &mut cache, &mut state, &calc).is_none());
}

#[test]
fn passes_that_fail() {
    let (f, data, _) = dense().file();
    let m = create_model(&f, &data).unwrap();
    let mut cache = empty_cache(&m, KvDtype::F16);
    let e = m.forward(9, 0, &mut cache, &mut fresh(&m), &calc).unwrap().unwrap_err();
    assert_eq!(
        e.message(),
        "backend error: row index 9 out of range (tensor has 5 rows)"
    );
    let mut b = dense();
    b.tensors.retain(|t| t.name != "blk.0.ffn_up.weight");
    let (f, data, _) = b.file();
    let m = create_model(&f, &data).unwrap();
    let e = m.forward(1, 0, &mut cache, &mut fresh(&m), &calc).unwrap().unwrap_err();
    assert_eq!(e.message(), "missing required metadata key: tensor blk.0.ffn_up.weight");
}

#[test]
fn errors_come_before_what_is_not_defined() {
    let (f, data, _) = dense().file();
    let m = create_model(&f, &data).unwrap();
    let mut state = fresh(&m);
    let mut cache = empty_cache(&m, KvDtype::F16);
    let message = "backend error: row index 9 out of range (tensor has 5 rows)";
    // The position lies past the end of the context, but the token is looked up first.
    let e = m.forward(9, 8, &mut cache, &mut state, &calc).unwrap().unwrap_err();
    assert_eq!(e.message(), message);
    for tokens in [[9u32, 1], [1, 9]] {
        let e = m.forward_batch(&tokens, 7, &mut cache, &mut state, &calc).unwrap().unwrap_err();
        assert_eq!(e.message(), message);
    }
    assert!(m.forward_batch(&[1, 1], 7, &mut cache, &mut state, &calc).is_none());
    assert!(m.forward_batch(&[1, 1, 9], 7, &mut cache, &mut state, &calc).is_none());
}

/// The outcome of a first pass through a dense model whose tensors are changed.
fn pass_with(change: fn(&mut Vec<TensorInfo>)) -> Option<Result<Vec<u32>, String>> {
    let mut b = dense();
    change(&mut b.tensors);
    let (f, data, _) = b.file();
    let m = create_model(&f, &data).unwrap();
    let mut cache = empty_cache(&m, KvDtype::F16);
    let r = m.forward(1, 0, &mut cache, &mut fresh(&m), &calc)?;
    Some(r.map_err(|e| e.message()))
}

fn named<'a>(tensors: &'a mut [TensorInfo], name: &str) -> &'a mut TensorInfo {
    tensors.iter_mut().find(|t| t.name == format!("blk.0.{name}.weight")).unwrap()
}

#[test]
fn projections_of_a_feed_forward_block() {
    // A row that only the second tensor lacks.
    let r = pass_with(|t| named(t, "ffn_up").dims[1] = 4);
    let message = "backend error: row index 4 out of range (tensor has 4 rows)";
    assert_eq!(r, Some(Err(message.to_string())));
    // Rows that cannot be decoded: the first tensor counts, but both are looked up first.
    let r = pass_with(|t| named(t, "ffn_gate").ggml_type = GgmlType::Q4_0);
    let message = "backend error: dequantization not yet implemented for Q4_0";
    assert_eq!(r, Some(Err(message.to_string())));
    let r = pass_with(|t| {
        named(t, "ffn_gate").ggml_type = GgmlType::Q4_0;
        named(t, "ffn_up").dims[1] = 4;
    });
    assert_eq!(r, Some(Err(message.to_string())));
    let r = pass_with(|t| {
        named(t, "ffn_gate").ggml_type = GgmlType::Q4_0;
        t.retain(|t| t.name != "blk.0.ffn_up.weight");
    });
    let message = "missing required metadata key: tensor blk.0.ffn_up.weight";
    assert_eq!(r, Some(Err(message.to_string())));
    let r = pass_with(|t| t.retain(|t| !t.name.starts_with("blk.0.ffn_")
        || t.name.ends_with("norm.weight")));
    // The norm is read when the model is loaded; of the projections the first is missed.
    let message = "missing required metadata key: tensor blk.0.ffn_gate.weight";
    assert_eq!(r, Some(Err(message.to_string())));
}

#[test]
fn rows_of_a_feed_forward_block() {
    // The second dimension of the first tensor says how many rows there are, whatever the
    // dimensions behind it; the second tensor may have more.
    let whole = pass_with(|_| ()).unwrap().unwrap();
    let half = pass_with(|t| named(t, "ffn_gate").dims[1] = 3).unwrap().unwrap();
    let folded = pass_with(|t| {
        let gate = named(t, "ffn_gate");
        gate.n_dims = 3;
        gate.dims = vec![8, 3, 2];
    });
    assert_eq!(folded.unwrap().unwrap(), half);
    assert_ne!(whole, half);
    // More rows than there is room for, and no second dimension.
    assert!(pass_with(|t| named(t, "ffn_gate").dims[1] = 7).is_none());
    let flat = pass_with(|t| {
        let gate = named(t, "ffn_gate");
        gate.n_dims = 1;
        gate.dims = vec![8];
    });
    assert!(flat.is_none());
}

#[test]
fn other_positions_stay() {
    let (f, data, _) = dense().file();
    let m = create_model(&f, &data).unwrap();
    let mut state = fresh(&m);
    let mut cache = empty_cache(&m, KvDtype::F16);
    m.forward(1, 0, &mut cache, &mut state, &calc).unwrap().unwrap();
    m.forward(2, 5, &mut cache, &mut state, &calc).unwrap().unwrap();
    let at = |c: &KvCache, p: usize| format!("{:?}", c.read(0, p));
    let before: Vec<String> = (0..8).map(|p| at(&cache, p)).collect();
    m.forward(3, 2, &mut cache, &mut state, &calc).unwrap().unwrap();
    for p in 0..8 {
        assert_eq!(at(&cache, p) == before[p], p != 2);
    }
}

#[test]
fn formulas() {
    let b = |x: f32| x.to_bits();
    assert_eq!(make_sigmoid(&calc, b(0.0)), b(0.5));
    assert_eq!(make_silu(&calc, b(0.0)), b(0.0));
    assert_eq!(make_rms(&calc, b(0.5), &[b(1.0), b(2.0), b(0.0), b(1.0)]), b(2f32.sqrt()));
    assert_eq!(make_largest(&calc, &[b(-3.0), b(-1.0), b(-2.0)]), b(-1.0));
    // Where the exponential is large, softplus is its argument.
    assert_eq!(make_softplus(&calc, b(20.5)), b(20.5));
    assert_eq!(make_softplus(&calc, b(0.0)), b(2f32.ln()));
    assert_eq!(make_decay(&calc, b(1.0), b(29.0), b(-0.5)), b((-15f32).exp()));
    assert_eq!(calc(Calc::OfDouble(0.5f64.to_bits())), b(0.5));
    assert!(matches!(FloatBits::Single(b(1.0)), FloatBits::Single(0x3F80_0000)));
}

// ── Greedy decoding ───────────────────────────────────────────────────────

/// One token for each byte.
fn byte_tokenizer() -> Tokenizer {
    let (b2c, _) = build_byte_maps();
    let strings = |items: Vec<MetadataValue>| {
        MetadataValue::Array(MetadataArrayType::String, items)
    };
    let mut metadata = Metadata::new();
    metadata.insert(
        "tokenizer.ggml.model".to_string(),
        MetadataValue::String("gpt2".to_string()),
    );
    metadata.insert(
        "tokenizer.ggml.tokens".to_string(),
        strings(b2c.iter().map(|c| MetadataValue::String(c.to_string())).collect()),
    );
    metadata.insert("tokenizer.ggml.merges".to_string(), strings(vec![]));
    let gguf = GgufFile { version: 3, tensor_count: 0, metadata, tensors: vec![], data_offset: 0 };
    Tokenizer::from_gguf(&gguf).unwrap()
}

/// The tokens that come after `[1, 2]`, chosen and run one by one.
fn greedy_by_hand(m: &LlamaModel, n: usize) -> Vec<u32> {
    let mut state = fresh(m);
    let mut cache = empty_cache(m, KvDtype::F16);
    let mut logits = m.forward_batch(&[1, 2], 0, &mut cache, &mut state, &calc).unwrap().unwrap();
    let mut ids = vec![];
    for i in 0..n {
        let next = argmax(&logits) as u32;
        ids.push(next);
        logits = m.forward(next, 2 + i, &mut cache, &mut state, &calc).unwrap().unwrap();
    }
    ids
}

#[test]
fn greedy_decoding_runs_to_the_end_of_the_context() {
    let (f, data, _) = dense().file();
    let m = create_model(&f, &data).unwrap();
    let t = byte_tokenizer();
    for max_new in [0, 3, 6, 20] {
        let mut state = fresh(&m);
        let mut cache = empty_cache(&m, KvDtype::F16);
        m.forward_batch(&[1, 2], 0, &mut cache, &mut state, &calc).unwrap().unwrap();
        let mut g = Generation::start(vec![1, 2], max_new, m.cfg.context_length, None).unwrap();
        m.decode_greedy(&mut g, &t, &mut cache, &mut state, &calc).unwrap().unwrap();
        // The context has eight positions, two of them for the prompt.
        let expected = greedy_by_hand(&m, max_new.min(6));
        assert_eq!(g.token_ids, expected);
        assert!(!g.stopped_eos);
        assert!(!g.active());
        let bytes: Vec<u8> = expected.iter().flat_map(|&id| t.token_bytes(id)).collect();
        assert_eq!(g.bytes, bytes);
    }
}

#[test]
fn greedy_decoding_stops() {
    let (f, data, _) = dense().file();
    let m = create_model(&f, &data).unwrap();
    let t = byte_tokenizer();
    let free = greedy_by_hand(&m, 6);
    let stop = free[5];
    let until = free.iter().position(|&id| id == stop).unwrap();
    let mut state = fresh(&m);
    let mut cache = empty_cache(&m, KvDtype::F16);
    m.forward_batch(&[1, 2], 0, &mut cache, &mut state, &calc).unwrap().unwrap();
    let mut g = Generation::start(vec![1, 2], 6, m.cfg.context_length, Some(stop)).unwrap();
    m.decode_greedy(&mut g, &t, &mut cache, &mut state, &calc).unwrap().unwrap();
    assert_eq!(g.token_ids, &free[..until]);
    assert!(g.stopped_eos);
}

#[test]
fn greedy_decoding_that_does_not_go_through() {
    let (f, data, _) = dense().file();
    let m = create_model(&f, &data).unwrap();
    let t = byte_tokenizer();
    // More positions than the cache has.
    let mut state = fresh(&m);
    let mut cache = KvCache::new(1, KV_HEADS, HEAD, 3);
    m.forward_batch(&[1, 2], 0, &mut cache, &mut state, &calc).unwrap().unwrap();
    let mut g = Generation::start(vec![1, 2], 4, 100, None).unwrap();
    assert!(m.decode_greedy(&mut g, &t, &mut cache, &mut state, &calc).is_none());
    assert_eq!(g.token_ids, greedy_by_hand(&m, 2));
    // A tensor is missing.
    let mut b = dense();
    b.tensors.retain(|t| t.name != "blk.0.ffn_up.weight");
    let (f, data, _) = b.file();
    let m = create_model(&f, &data).unwrap();
    let mut state = fresh(&m);
    let mut cache = empty_cache(&m, KvDtype::F16);
    let mut g = Generation::start(vec![1, 2], 4, 100, None).unwrap();
    let e = m.decode_greedy(&mut g, &t, &mut cache, &mut state, &calc).unwrap().unwrap_err();
    assert_eq!(e.message(), "missing required metadata key: tensor blk.0.ffn_up.weight");
    assert_eq!(g.token_ids, vec![0]);
}

// ── Whole runs ────────────────────────────────────────────────────────────

/// A model with a tokenizer of the letters a to e.
fn lettered() -> Builder {
    let mut b = dense();
    let strings = |items: &[&str]| {
        let items = items.iter().map(|s| MetadataValue::String(s.to_string())).collect();
        MetadataValue::Array(MetadataArrayType::String, items)
    };
    b.set("tokenizer.ggml.model", MetadataValue::String("gpt2".to_string()));
    b.set("tokenizer.ggml.tokens", strings(&["a", "b", "c", "d", "e"]));
    b.set("tokenizer.ggml.merges", strings(&[]));
    b
}

#[test]
fn run_of_a_text() {
    let (f, data, _) = lettered().file();
    let m = create_model(&f, &data).unwrap();
    let expected = greedy_by_hand(&m, 4);
    let r = greedy_run(&f, &data, "bc", 4, false, &calc).unwrap().unwrap();
    assert_eq!(r.prompt_ids, vec![1, 2]);
    assert_eq!(r.token_ids, expected);
    let text: String = expected.iter().map(|&id| (b'a' + id as u8) as char).collect();
    assert_eq!(r.text, text);
    assert_eq!(r.backend, "cpu");
    assert!(!r.stopped_eos);
    let t = Tokenizer::from_gguf(&f).unwrap();
    let again = generate(&m, &t, "bc", 4, false, &calc).unwrap().unwrap();
    assert_eq!(again.token_ids, expected);
}

#[test]
fn run_that_stops() {
    let mut b = lettered();
    let (f, data, _) = lettered().file();
    let free = greedy_by_hand(&create_model(&f, &data).unwrap(), 6);
    b.set("tokenizer.ggml.eos_token_id", MetadataValue::U32(free[3]));
    let (f, data, _) = b.file();
    let until = free.iter().position(|&id| id == free[3]).unwrap();
    let r = greedy_run(&f, &data, "bc", 6, true, &calc).unwrap().unwrap();
    assert_eq!(r.token_ids, &free[..until]);
    assert!(r.stopped_eos);
    let r = greedy_run(&f, &data, "bc", 6, false, &calc).unwrap().unwrap();
    assert_eq!(r.token_ids, free);
    assert!(!r.stopped_eos);
}

#[test]
fn runs_that_fail() {
    let (f, data, _) = lettered().file();
    let e = greedy_run(&f, &data, "", 4, false, &calc).unwrap().unwrap_err();
    assert_eq!(e.message(), "backend error: prompt encoded to zero tokens");
    // More tokens than there are positions.
    assert!(greedy_run(&f, &data, "abcdeabcd", 4, false, &calc).is_none());
    let (f, data, _) = dense().file();
    let e = greedy_run(&f, &data, "bc", 4, false, &calc).unwrap().unwrap_err();
    assert_eq!(e.message(), "missing required metadata key: tokenizer.ggml.model");
    let mut b = lettered();
    b.tensors.retain(|t| t.name != "output_norm.weight");
    let (f, data, _) = b.file();
    assert!(greedy_run(&f, &data, "bc", 4, false, &calc).unwrap().is_err());
    let mut b = lettered();
    b.tensors.retain(|t| t.name != "blk.0.ffn_up.weight");
    let (f, data, _) = b.file();
    let e = greedy_run(&f, &data, "bc", 4, false, &calc).unwrap().unwrap_err();
    assert_eq!(e.message(), "missing required metadata key: tensor blk.0.ffn_up.weight");
}

#[test]
fn run_of_a_text_that_cannot_be_encoded() {
    let mut b = lettered();
    let strings = ["a", "b", "c", "d", ""];
    let items = strings.iter().map(|s| MetadataValue::String(s.to_string())).collect();
    b.set("tokenizer.ggml.tokens", MetadataValue::Array(MetadataArrayType::String, items));
    let types = [1, 1, 1, 1, 3].into_iter().map(MetadataValue::I32).collect();
    b.set("tokenizer.ggml.token_type", MetadataValue::Array(MetadataArrayType::I32, types));
    let (f, data, _) = b.file();
    assert!(greedy_run(&f, &data, "bc", 4, false, &calc).is_none());
    let e = greedy_run(&f, &data, "", 4, false, &calc).unwrap().unwrap_err();
    assert_eq!(e.message(), "backend error: prompt encoded to zero tokens");
}

/// A model whose launches are run kernel by kernel, and each kernel thread by thread.
struct Launched<'a> {
    model: LlamaModel<'a>,
    w: HashMap<String, Vec<f32>>,
    memory: HashMap<Buffer, Vec<u32>>,
    cache: HashMap<usize, (Vec<u32>, Vec<u32>)>,
}

impl Launched<'_> {
    fn at(&self, b: Buffer) -> Vec<u32> {
        self.memory[&b].clone()
    }

    fn weights(&self, name: &str) -> Vec<u32> {
        self.w[name].iter().map(|v| v.to_bits()).collect()
    }

    fn norm(&self, n: NormRef) -> Vec<u32> {
        match n {
            NormRef::Attn(i) => self.weights(&format!("blk.{i}.attn_norm.weight")),
            NormRef::Ffn(i) => self.weights(&format!("blk.{i}.ffn_norm.weight")),
            NormRef::Output => self.weights("output_norm.weight"),
        }
    }

    fn heads(&mut self, b: Buffer, norm: &str, n: usize, pos: usize) {
        let w = self.weights(norm);
        let (eps, theta) = (EPS.to_bits(), THETA.to_bits());
        let mut x = self.at(b);
        for h in (0..n).rev() {
            qk_norm_rope(h, &mut x, &w, n, HEAD, eps, HEAD, pos, theta, &calc);
        }
        self.memory.insert(b, x);
    }

    fn attend(&mut self, i: usize, pos: usize) {
        let (keys, vals) = &self.cache[&i];
        let q = self.at(Buffer::Q);
        let mut scores = vec![0u32; HEADS * 8];
        for idx in 0..HEADS * (pos + 1) {
            attention_scores(idx, &q, keys, &mut scores, pos, HEAD, HEADS, KV_HEADS, 8, &calc);
        }
        let mut weights = vec![0u32; HEADS * 8];
        let mut sums = vec![0u32; HEADS];
        for h in 0..HEADS {
            attention_softmax(h, &scores, &mut weights, &mut sums, pos, HEADS, 8, &calc);
        }
        let mut out = vec![0u32; HEADS * HEAD];
        for idx in 0..HEADS * HEAD {
            attention_output(
                idx, vals, &weights, &sums, &mut out, pos, HEAD, HEADS, KV_HEADS, 8, &calc,
            );
        }
        self.memory.insert(Buffer::AttnOut, out);
    }

    fn one(&mut self, op: Op, token: usize, pos: usize) {
        match op {
            Op::Embed => {
                let x = self.weights("token_embd.weight")[token * D..token * D + D].to_vec();
                self.memory.insert(Buffer::X, x);
            }
            Op::Norm(n) => {
                let mut out = vec![0u32; D];
                rms_norm(0, &self.at(Buffer::X), &self.norm(n), &mut out, EPS.to_bits(), &calc);
                self.memory.insert(Buffer::Xn, out);
            }
            Op::MatMul(matrix, from, to) => {
                let name = self.model.matrix_name(matrix).unwrap().to_string();
                let out = product(&self.w[&name], &numbers(&self.at(from)));
                self.memory.insert(to, out.iter().map(|v| v.to_bits()).collect());
            }
            Op::CacheWrite(i) => {
                let (k, v) = (self.at(Buffer::K), self.at(Buffer::V));
                let (keys, vals) = self.cache.get_mut(&i).unwrap();
                for idx in 0..k.len() {
                    kv_cache_write(idx, keys, vals, &k, &v, pos);
                }
            }
            Op::Attend(i) => self.attend(i, pos),
            Op::SiluMul(_) => {
                let (gate, up) = (self.at(Buffer::Gate), self.at(Buffer::Up));
                let mut out = vec![0u32; gate.len()];
                for idx in 0..out.len() {
                    silu_mul(idx, &gate, &up, &mut out, &calc);
                }
                self.memory.insert(Buffer::FfnAct, out);
            }
            _ => panic!("{op:?} is no launch of such a model"),
        }
    }

    fn forward(&mut self, token: usize, pos: usize) -> Vec<u32> {
        for launch in launched_steps(&self.model.layers) {
            match launch {
                Launch::One(op) => self.one(op, token, pos),
                Launch::NormRotateQ(i, _) => {
                    self.heads(Buffer::Q, &format!("blk.{i}.attn_q_norm.weight"), HEADS, pos);
                }
                Launch::NormRotateK(i, _) => {
                    self.heads(Buffer::K, &format!("blk.{i}.attn_k_norm.weight"), KV_HEADS, pos);
                }
                Launch::AddNorm(n) => {
                    let (x, delta) = (self.at(Buffer::X), self.at(Buffer::Proj));
                    let (mut new_x, mut normed) = (vec![0u32; D], vec![0u32; D]);
                    let (w, eps) = (self.norm(n), EPS.to_bits());
                    add_residual_rms_norm(0, &x, &delta, &w, &mut new_x, &mut normed, eps, &calc);
                    self.memory.insert(Buffer::X, new_x);
                    self.memory.insert(Buffer::Xn, normed);
                }
            }
        }
        self.at(Buffer::Logits)
    }
}

#[test]
fn launches_compute_the_pass() {
    let mut b = Builder::new(2);
    b.attention(0, false, true);
    b.attention(1, false, true);
    let (f, data, w) = b.file();
    let m = create_model(&f, &data).unwrap();
    let mut state = fresh(&m);
    let mut cache = empty_cache(&m, KvDtype::F16);
    let empty = || vec![0u32; 8 * KV_HEADS * HEAD];
    let mut launched = Launched {
        model: create_model(&f, &data).unwrap(),
        w,
        memory: HashMap::new(),
        cache: (0..2).map(|i| (i, (empty(), empty()))).collect(),
    };
    for (pos, token) in [3u32, 0, 4].into_iter().enumerate() {
        let logits = m.forward(token, pos, &mut cache, &mut state, &calc).unwrap().unwrap();
        let kernels = launched.forward(token as usize, pos);
        assert_close(&numbers(&kernels), &numbers(&logits));
    }
}
