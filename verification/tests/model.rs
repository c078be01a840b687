use gguf_rs::error::GgufError;
use gguf_rs::model::config::ModelConfig;
use gguf_rs::model::info::ModelInfo;
use gguf_rs::model::kv_cache::KvCache;
use gguf_rs::model::kv_dtype::{quantize_kv, KvDtype, KvVector};
use gguf_rs::model::llama::attention::attend;
use gguf_rs::model::llama::conv::{causal_depthwise_conv, short_conv};
use gguf_rs::model::llama::delta::{delta_step, is_consistent};
use gguf_rs::model::llama::gpu::{KvPlan, Residency, Route};
use gguf_rs::model::llama::kernels::{
    norm_into, residual_add, rotate_heads, scale_segments, split_qg,
};
use gguf_rs::model::llama::products::Products;
use gguf_rs::model::llama::program::{Buffer, Launch, Matrix, NormRef, Op, Role};
use gguf_rs::model::llama::state::InferenceState;
use gguf_rs::model::llama::steps::{forward_steps, launched_steps};
use gguf_rs::model::llama::trace_cpu::{phase_of, Phase};
use gguf_rs::model::llama::types::{GdnDims, MixerKind};
use gguf_rs::model::llama::vectors::{vector_values, LayerVector};
use gguf_rs::model::select::{create_model, is_llama_family, try_create_model};
use gguf_rs::model::weights::{token_major, WeightMap};
use gguf_rs::ops::{create_backend, AnyBackend, BackendPreference, WgpuDevice};
use gguf_rs::quant::Row;
use gguf_rs::report::{
    budget_row, budget_stated, byte_scale, count_scale, is_current_tier, parameter_count,
    quant_distribution, ram_tiers, truncate_name, truncate_value,
};
use gguf_rs::types::{
    FloatBits, GgmlType, GgufFile, Metadata, MetadataArrayType, MetadataValue, TensorInfo,
};

// ── A small model ─────────────────────────────────────────────────────────

struct Builder {
    metadata: Metadata,
    tensors: Vec<TensorInfo>,
    data: Vec<u8>,
}

impl Builder {
    fn new(arch: &str) -> Self {
        let mut b = Builder { metadata: Metadata::new(), tensors: vec![], data: vec![] };
        b.set("general.architecture", MetadataValue::String(arch.to_string()));
        b
    }

    fn set(&mut self, key: &str, v: MetadataValue) {
        self.metadata.insert(key.to_string(), v);
    }

    fn tensor(&mut self, name: &str, dims: &[u64]) {
        let n: u64 = dims.iter().product();
        self.tensors.push(TensorInfo {
            name: name.to_string(),
            n_dims: dims.len() as u32,
            dims: dims.to_vec(),
            ggml_type: GgmlType::F32,
            byte_offset: self.data.len() as u64,
        });
        for i in 0..n {
            self.data.extend_from_slice(&(i as f32).to_le_bytes());
        }
    }

    fn file(self) -> (GgufFile, Vec<u8>) {
        let f = GgufFile {
            version: 3,
            tensor_count: self.tensors.len() as u64,
            metadata: self.metadata,
            tensors: self.tensors,
            data_offset: 0,
        };
        (f, self.data)
    }
}

/// One attention layer of width 4 with 2 query heads and 1 key head.
fn dense() -> Builder {
    let mut b = Builder::new("llama");
    b.set("llama.attention.head_count", MetadataValue::U32(2));
    b.set("llama.attention.head_count_kv", MetadataValue::U32(1));
    b.set("llama.embedding_length", MetadataValue::U32(4));
    b.set("llama.block_count", MetadataValue::U32(1));
    b.set("llama.feed_forward_length", MetadataValue::U32(8));
    b.set("llama.context_length", MetadataValue::U32(16));
    b.tensor("token_embd.weight", &[4, 6]);
    b.tensor("output_norm.weight", &[4]);
    b.tensor("blk.0.attn_norm.weight", &[4]);
    b.tensor("blk.0.attn_q.weight", &[4, 4]);
    b.tensor("blk.0.attn_k.weight", &[4, 2]);
    b.tensor("blk.0.attn_v.weight", &[4, 2]);
    b.tensor("blk.0.attn_output.weight", &[4, 4]);
    b.tensor("blk.0.ffn_norm.weight", &[4]);
    b.tensor("blk.0.ffn_gate.weight", &[4, 8]);
    b.tensor("blk.0.ffn_up.weight", &[4, 8]);
    b.tensor("blk.0.ffn_down.weight", &[8, 4]);
    b
}

fn single(row: &Row) -> Vec<f32> {
    match row {
        Row::Single(v) => v.iter().map(|&b| f32::from_bits(b)).collect(),
        _ => panic!("single-precision values expected"),
    }
}

// ── Configuration ─────────────────────────────────────────────────────────

#[test]
fn configuration_of_a_file() {
    let (f, _) = dense().file();
    assert!(ModelConfig::computable(&f));
    let c = ModelConfig::from_gguf(&f).unwrap();
    assert_eq!(c.architecture, "llama");
    assert_eq!((c.head_count, c.head_count_kv, c.head_dim), (2, 1, 2));
    assert_eq!(c.vocab_size, 6);
    assert_eq!(c.gqa_group_size(), 2);
    assert_eq!(c.rope_freq_base, FloatBits::Single(10000.0f32.to_bits()));
    assert_eq!(c.layer_norm_rms_epsilon, FloatBits::Single(1e-5f32.to_bits()));
    assert!(c.rope_scaling_type.is_none());
}

#[test]
fn configuration_defaults_and_arrays() {
    let mut b = Builder::new("lfm2");
    b.set("lfm2.attention.head_count", MetadataValue::U32(4));
    b.set("lfm2.embedding_length", MetadataValue::U32(64));
    b.set(
        "lfm2.attention.head_count_kv",
        MetadataValue::Array(
            MetadataArrayType::I32,
            vec![MetadataValue::I32(0), MetadataValue::I32(2), MetadataValue::I32(1)],
        ),
    );
    b.tensor("token_embd.weight", &[2, 3]);
    let (f, _) = b.file();
    let c = ModelConfig::from_gguf(&f).unwrap();
    assert_eq!(c.head_count_kv, 2);
    assert_eq!(c.context_length, 4096);
    assert_eq!(c.block_count, 32);
    assert_eq!(c.feed_forward_length, 0);
    assert_eq!(c.head_dim, 16);
}

#[test]
fn configuration_needs_its_keys() {
    let missing = |f: &GgufFile| match ModelConfig::from_gguf(f) {
        Err(GgufError::MissingMetadata(k)) => k,
        _ => panic!("a missing key was expected"),
    };
    let (f, _) = Builder { metadata: Metadata::new(), tensors: vec![], data: vec![] }.file();
    assert_eq!(missing(&f), "general.architecture");
    let mut b = Builder::new("llama");
    b.set("llama.embedding_length", MetadataValue::U32(4));
    assert_eq!(missing(&b.file().0), "llama.attention.head_count");
    let mut b = Builder::new("llama");
    b.set("llama.attention.head_count", MetadataValue::U32(2));
    assert_eq!(missing(&b.file().0), "llama.embedding_length");
    let mut b = Builder::new("llama");
    b.set("llama.attention.head_count", MetadataValue::U32(2));
    b.set("llama.embedding_length", MetadataValue::U32(4));
    assert_eq!(missing(&b.file().0), "token_embd.weight tensor");
    // A head count of zero divides by zero.
    let mut b = Builder::new("llama");
    b.set("llama.attention.head_count", MetadataValue::U32(0));
    b.set("llama.embedding_length", MetadataValue::U32(4));
    assert!(!ModelConfig::computable(&b.file().0));
}

#[test]
fn information_about_a_file() {
    let mut b = dense();
    b.set("llama.expert_count", MetadataValue::U32(8));
    b.set("general.name", MetadataValue::String("tiny".to_string()));
    let (f, _) = b.file();
    let i = ModelInfo::from_gguf(&f).unwrap();
    assert_eq!(i.name.as_deref(), Some("tiny"));
    assert_eq!(i.head_dim(), Some(2));
    assert_eq!(i.gqa_group_size(), Some(2));
    assert_eq!(i.effective_head_count_kv(), Some(1));
    let moe = i.moe.as_ref().unwrap();
    assert_eq!((moe.expert_count, moe.expert_used_count), (8, 8));
    assert_eq!(moe.expert_feed_forward_length, 8);
    // K and V of two half-precision numbers each.
    assert_eq!(i.kv_bytes_per_token_per_layer(), Some(8));
    assert_eq!(i.kv_bytes_per_token_per_layer_for(KvDtype::Q8_0), Some(68));
    assert_eq!(i.kv_cache_bytes(10), Some(80));
    assert_eq!(i.max_context_at_kv_dtype(100, KvDtype::F16), Some(12));
    assert_eq!(i.max_context_at_kv_bits(100, 16), Some(12));
    assert_eq!(i.max_context_at_kv_bits(100, 1), Some(0));
    assert_eq!(i.model_bytes(&f), f.total_tensor_bytes());
    assert!(ModelInfo::from_gguf(&Builder { metadata: Metadata::new(), tensors: vec![], data: vec![] }.file().0).is_err());
}

// ── Loading ───────────────────────────────────────────────────────────────

#[test]
fn dense_model_is_loaded() {
    let (f, data) = dense().file();
    let m = create_model(&f, &data).unwrap();
    assert_eq!(m.layers.len(), 1);
    assert_eq!(m.layers[0].mixer.kind(), MixerKind::Attention);
    assert_eq!(single(&m.layers[0].attn_norm), vec![0.0, 1.0, 2.0, 3.0]);
    // The head is tied to the embedding.
    assert_eq!(m.lm_head, "token_embd.weight");
    assert_eq!(m.n_rot, 2);
    assert_eq!(m.l_cache, 0);
    assert!(m.gdn_dims.is_none());
    assert_eq!(m.matrix_name(Matrix::Layer(0, Role::Wk)), Some("blk.0.attn_k.weight"));
    assert_eq!(m.matrix_name(Matrix::Layer(0, Role::InProj)), None);
    assert_eq!(m.matrix_name(Matrix::LmHead), Some("token_embd.weight"));
    assert!(m.norm_weights(NormRef::Attn(0)).is_some());
    assert!(m.norm_weights(NormRef::Ffn(1)).is_none());
}

#[test]
fn models_that_cannot_be_loaded() {
    assert!(is_llama_family("qwen3") && is_llama_family("lfm2") && !is_llama_family("bert"));
    let (f, data) = Builder::new("bert").file();
    match try_create_model(&f, &data, None) {
        Some(Err(e)) => assert_eq!(e.message(), "unsupported architecture: bert"),
        _ => panic!("an unsupported architecture was expected"),
    }
    let mut b = dense();
    b.tensors.retain(|t| t.name != "output_norm.weight");
    let (f, data) = b.file();
    match create_model(&f, &data) {
        Err(GgufError::MissingMetadata(k)) => {
            assert_eq!(k, "output_norm.weight or token_embd_norm.weight")
        }
        _ => panic!("a missing tensor was expected"),
    }
    let mut b = dense();
    b.tensors.retain(|t| t.name != "blk.0.ffn_norm.weight");
    let (f, data) = b.file();
    match create_model(&f, &data) {
        Err(GgufError::MissingMetadata(k)) => {
            assert_eq!(k, "tensor blk.0.post_attention_norm.weight")
        }
        _ => panic!("a missing tensor was expected"),
    }
}

#[test]
fn kinds_of_layers() {
    let mut b = dense();
    b.set("llama.block_count", MetadataValue::U32(2));
    b.set("llama.shortconv.l_cache", MetadataValue::U32(3));
    b.tensor("blk.1.attn_norm.weight", &[4]);
    b.tensor("blk.1.shortconv.conv.weight", &[3, 4]);
    b.tensor("blk.1.ffn_norm.weight", &[4]);
    let (f, data) = b.file();
    let m = create_model(&f, &data).unwrap();
    assert_eq!(m.layers[1].mixer.kind(), MixerKind::ShortConv);
    assert_eq!(m.l_cache, 3);
    let s = InferenceState::new(&m.cfg, m.l_cache, &m.layers, m.gdn_dims, 0.0f32);
    assert_eq!(s.x.len(), 4);
    assert_eq!(s.q.len(), 4);
    assert_eq!(s.k.len(), 2);
    assert_eq!(s.logits.len(), 6);
    assert_eq!(s.bcx.len(), 12);
    assert_eq!(s.conv_state[0].len(), 0);
    assert_eq!(s.conv_state[1].len(), 8);
    let ops = forward_steps(&m.layers);
    assert!(ops.contains(&Op::ShortConv(1)));
    assert_eq!(ops[0], Op::Embed);
}

#[test]
fn steps_of_a_dense_layer() {
    let (f, data) = dense().file();
    let m = create_model(&f, &data).unwrap();
    let p = |r: Role, a: Buffer, b: Buffer| Op::MatMul(Matrix::Layer(0, r), a, b);
    assert_eq!(
        forward_steps(&m.layers),
        vec![
            Op::Embed,
            Op::Norm(NormRef::Attn(0)),
            p(Role::Wq, Buffer::Xn, Buffer::Q),
            p(Role::Wk, Buffer::Xn, Buffer::K),
            p(Role::Wv, Buffer::Xn, Buffer::V),
            Op::RotateQ(false),
            Op::RotateK(false),
            Op::CacheWrite(0),
            Op::Attend(0),
            p(Role::Wo, Buffer::AttnOut, Buffer::Proj),
            Op::AddResidual,
            Op::Norm(NormRef::Ffn(0)),
            p(Role::FfnGate, Buffer::Xn, Buffer::Gate),
            p(Role::FfnUp, Buffer::Xn, Buffer::Up),
            Op::SiluMul(0),
            p(Role::FfnDown, Buffer::FfnAct, Buffer::Proj),
            Op::AddResidual,
            Op::Norm(NormRef::Output),
            Op::MatMul(Matrix::LmHead, Buffer::Xn, Buffer::Logits),
        ]
    );
    let launches = launched_steps(&m.layers);
    assert_eq!(launches[launches.len() - 2], Launch::AddNorm(NormRef::Output));
    assert!(launches.contains(&Launch::AddNorm(NormRef::Ffn(0))));
}

#[test]
fn what_goes_to_the_gpu() {
    let (f, data) = dense().file();
    let m = try_create_model(&f, &data, Some(AnyBackend::Wgpu(WgpuDevice::Default)))
        .unwrap()
        .unwrap();
    let names = m.upload_list();
    // Seven matrices of the layer, the head, and the embedding.
    assert_eq!(names.len(), 9);
    assert_eq!(names[0], "blk.0.attn_q.weight");
    assert_eq!(names[8], "token_embd.weight");
    // Single-precision matrices have no kernel.
    assert_eq!(m.uploads().unwrap().len(), 0);
    let mut r = Residency::new();
    assert!(!m.gpu_resident_ready(&r));
    for (i, n) in names.iter().enumerate() {
        r.add_tensor(n.clone(), i);
    }
    assert!(!m.gpu_resident_ready(&r));
    // The two norms of the layer; an attention layer has no other vectors.
    let vectors = m.vector_list().unwrap();
    let kinds: Vec<LayerVector> = vectors.iter().map(|v| v.kind).collect();
    assert_eq!(kinds, vec![LayerVector::AttnNorm, LayerVector::FfnNorm]);
    for (i, v) in vectors.iter().enumerate() {
        assert!(vector_values(&m.layers[v.layer], v.kind).is_some());
        r.vectors.add_vector(v.kind, v.layer, i);
    }
    assert_eq!(r.vectors.vector(LayerVector::FfnNorm, 0), Some(1));
    assert_eq!(r.vectors.vector(LayerVector::FfnNorm, 1), None);
    assert_eq!(r.vectors.vector(LayerVector::GdnSsmA, 0), None);
    assert!(!m.gpu_resident_ready(&r));
    r.output_norm = Some(2);
    assert!(m.gpu_resident_ready(&r));
    assert_eq!(m.matmul_route(&r, "token_embd.weight").unwrap(), Route::Resident(8));
    match m.gpu_kv_plan(0, &[], 16).unwrap() {
        KvPlan::Allocate { layers, kv_len, scores_len } => {
            assert_eq!(layers, vec![0]);
            assert_eq!((kv_len, scores_len), (32, 32));
        }
        KvPlan::Keep => panic!("a new cache was expected"),
    }
    assert!(matches!(m.gpu_kv_plan(16, &[true], 16), Some(KvPlan::Keep)));
    let cpu = create_model(&f, &data).unwrap();
    assert!(!cpu.gpu_resident_ready(&r));
    assert_eq!(cpu.matmul_route(&r, "token_embd.weight").unwrap(), Route::Cpu);
}

#[test]
fn last_tensor_of_a_name_counts() {
    let mut b = dense();
    b.tensor("output_norm.weight", &[2]);
    let (f, data) = b.file();
    let w = WeightMap::from_gguf(&f, &data);
    assert_eq!(w.get("output_norm.weight").unwrap().dims, vec![2]);
    assert!(w.get("nothing").is_none());
    assert_eq!(single(&w.dequant_1d("output_norm.weight").unwrap()), vec![0.0, 1.0]);
    assert_eq!(single(&w.dequant_row("token_embd.weight", 1).unwrap()), vec![4.0, 5.0, 6.0, 7.0]);
    assert_eq!(single(&w.dequant_tensor("token_embd.weight").unwrap()).len(), 24);
    assert_eq!(
        w.dequant_row("nothing", 0).unwrap_err().message(),
        "missing required metadata key: tensor nothing"
    );
    assert_eq!(w.data_len(), data.len());
}

#[test]
fn rows_become_tokens() {
    assert_eq!(token_major(&[1, 2, 3, 4, 5, 6], 3, 2), vec![1, 3, 5, 2, 4, 6]);
}

// ── The K/V cache ─────────────────────────────────────────────────────────

fn to_half(b: u32) -> u16 {
    half::f16::from_f32(f32::from_bits(b)).to_bits()
}

fn vector(dtype: KvDtype, x: &[f32]) -> KvVector {
    let bits: Vec<u32> = x.iter().map(|v| v.to_bits()).collect();
    quantize_kv(
        dtype,
        &bits,
        to_half,
        |m| (f32::from_bits(m) / 127.0).to_bits(),
        |v, s| (f32::from_bits(v) / f32::from_bits(s)).round().clamp(-127.0, 127.0) as i8,
    )
}

fn decoded(row: &Row) -> Vec<f32> {
    let half = |b: u16| half::f16::from_bits(b).to_f32();
    match row {
        Row::Half(v) => v.iter().map(|&b| half(b)).collect(),
        Row::Quantized(ws) => ws.iter().map(|w| half(w.d) * w.quant as f32).collect(),
        Row::Single(_) => panic!("no single-precision cache"),
    }
}

#[test]
fn cache_gives_back_what_was_written() {
    for dtype in [KvDtype::F16, KvDtype::Q8_0] {
        let mut c = KvCache::new_with_dtype(2, 1, 40, 4, dtype);
        let k: Vec<f32> = (0..40).map(|i| i as f32 - 20.0).collect();
        let v: Vec<f32> = (0..40).map(|i| 0.5 * i as f32).collect();
        c.write(1, 2, &vector(dtype, &k), &vector(dtype, &v));
        let (rk, rv) = c.read(1, 2);
        for i in 0..40 {
            assert!((decoded(&rk)[i] - k[i]).abs() < 0.1);
            assert!((decoded(&rv)[i] - v[i]).abs() < 0.1);
        }
        // Another layer and another position hold zeros.
        assert!(decoded(&c.read(0, 2).0).iter().all(|&x| x == 0.0));
        assert!(decoded(&c.read(1, 3).1).iter().all(|&x| x == 0.0));
        let (ks, vs) = c.read_up_to(1, 2);
        assert_eq!((ks.len(), vs.len()), (3, 3));
        assert_eq!(decoded(&ks[2]), decoded(&rk));
        c.write_range(0, 1, &vec![vector(dtype, &k), vector(dtype, &v)], &vec![
            vector(dtype, &v),
            vector(dtype, &k),
        ]);
        assert_eq!(decoded(&c.read(0, 1).0), decoded(&rk));
        assert_eq!(decoded(&c.read(0, 2).0), decoded(&rv));
        assert_eq!((c.n_layers(), c.max_seq_len(), c.head_dim_kv()), (2, 4, 40));
    }
}

#[test]
fn names_and_sizes_of_cache_types() {
    assert_eq!(KvDtype::parse("F16"), Some(KvDtype::F16));
    assert_eq!(KvDtype::parse("q8"), Some(KvDtype::Q8_0));
    assert_eq!(KvDtype::parse("Q8_0"), Some(KvDtype::Q8_0));
    assert_eq!(KvDtype::parse("q4"), None);
    assert_eq!(KvDtype::F16.bytes_per_token(10), 20);
    assert_eq!(KvDtype::Q8_0.bytes_per_token(33), 68);
    assert_eq!(KvDtype::Q8_0.bits_per_element(), 9);
    assert_eq!(KvDtype::F16.checked_bytes_per_token(usize::MAX), None);
}

#[test]
fn block_of_zeros_has_the_scale_one() {
    match vector(KvDtype::Q8_0, &[0.0; 32]) {
        KvVector::Scaled(scales, quants) => {
            assert_eq!(scales, vec![half::f16::from_f32(1.0).to_bits()]);
            assert!(quants.iter().all(|&q| q == 0));
        }
        KvVector::Half(_) => panic!("scaled values expected"),
    }
}

// ── Kernels ───────────────────────────────────────────────────────────────

#[test]
fn elementwise_kernels() {
    let mut x = vec![1.0, 2.0];
    residual_add(&mut x, &[10.0, 20.0], |a: f64, b: f64| a + b);
    assert_eq!(x, vec![11.0, 22.0]);
    let mut out = vec![0.0; 2];
    norm_into(
        &[3.0, 4.0],
        &[1.0, 2.0],
        &mut out,
        |v: &[f64]| v.iter().map(|a| a * a).sum::<f64>().sqrt(),
        |w, v, m| v / m * w,
    );
    assert_eq!(out, vec![0.6, 1.6]);
    let mut heads = vec![9.0, 1.0, 3.0, 2.0, 6.0];
    scale_segments(&mut heads, 1, 2, 2, |v: &[f64]| v[0] + v[1], |_, _, v, m| v / m);
    assert_eq!(heads, vec![9.0, 0.25, 0.75, 0.25, 0.75]);
}

#[test]
fn rotation_pairs_the_halves() {
    // A quarter turn of pair (d, d + 2); the last element is not rotated.
    let mut x = vec![1.0, 2.0, 3.0, 4.0, 5.0];
    rotate_heads(&mut x, 1, 5, 4, |a: f64, b: f64, d: usize| (b * (d + 1) as f64, -a));
    assert_eq!(x, vec![3.0, 8.0, -1.0, -2.0, 5.0]);
}

#[test]
fn queries_and_gates_are_interleaved_by_head() {
    let raw = [1, 2, 101, 102, 3, 4, 103, 104];
    let mut q = vec![0; 4];
    let mut gate = vec![0; 4];
    split_qg(&raw, &mut q, &mut gate, 2, 2);
    assert_eq!(q, vec![1, 2, 3, 4]);
    assert_eq!(gate, vec![101, 102, 103, 104]);
}

#[test]
fn convolution_sees_the_last_inputs() {
    let mut history = vec![0i64; 4];
    // Taps of each channel: oldest first.
    let weight = [100, 10, 1, 300, 30, 3];
    let mut out = vec![0i64; 2];
    for (input, expected) in [
        ([1, 2], [1, 6]),
        ([3, 4], [13, 72]),
        ([5, 6], [135, 738]),
        ([7, 8], [357, 1404]),
    ] {
        causal_depthwise_conv(
            &mut history,
            &weight,
            2,
            3,
            &input,
            &mut out,
            0,
            |a: i64, w: i64, x: i64| a + w * x,
            |_, v| v,
        );
        assert_eq!(out, expected.to_vec());
    }
    assert_eq!(history, vec![5, 6, 7, 8]);
}

#[test]
fn short_convolution_is_gated() {
    let mut history = vec![0i64; 1];
    let mut bx = vec![0i64; 1];
    let mut out = vec![0i64; 1];
    // B = 2, C = 5, x = 3, and taps 10 and 1.
    short_conv(
        &mut history,
        &[10, 1],
        1,
        2,
        &[2, 5, 3],
        &mut bx,
        &mut out,
        0,
        |a: i64, w: i64, x: i64| a + w * x,
        |a: i64, b: i64| a * b,
    );
    assert_eq!(bx, vec![6]);
    assert_eq!(out, vec![30]);
    assert_eq!(history, vec![6]);
}

#[test]
fn attention_weighs_the_values() {
    // Two query heads share one key head; equal scores give the mean.
    let mut out = vec![0.0f64; 4];
    attend(
        &[0.0, 0.0, 0.0, 0.0],
        &vec![vec![1.0, 1.0], vec![2.0, 2.0]],
        &vec![vec![1.0, 10.0], vec![3.0, 30.0]],
        &mut out,
        2,
        1,
        2,
        2,
        0.0,
        |a: &[f64], b: &[f64]| a.iter().zip(b).map(|(x, y)| x * y).sum(),
        |s: &[f64]| s.iter().cloned().fold(f64::NEG_INFINITY, f64::max),
        |v, max| (v - max).exp(),
        |s: &[f64]| s.iter().sum(),
        |p, sum| p / sum,
        |acc, p, v| acc + p * v,
    );
    assert_eq!(out, vec![2.0, 20.0, 2.0, 20.0]);
}

#[test]
fn delta_rule_corrects_the_state() {
    let dims = GdnDims {
        head_k_dim: 1,
        head_v_dim: 1,
        n_k_heads: 1,
        n_v_heads: 1,
        key_dim: 1,
        value_dim: 1,
        conv_dim: 3,
        d_conv: 2,
    };
    assert!(is_consistent(&dims));
    let mut state = vec![4.0f64];
    let mut out = vec![0.0f64];
    // q = 2, k = 1, v = 10, beta = 0.5, decay = 0.5: the prediction is 4, the
    // correction 3, and the new state 0.5 * 4 + 3.
    delta_step(
        &mut state,
        &[2.0, 1.0, 10.0],
        &[0.5],
        &[0.5],
        &mut out,
        &dims,
        0.0,
        |a: f64, s: f64, k: f64| a + s * k,
        |beta, v, predicted| beta * (v - predicted),
        |decay, s, k, delta| decay * s + k * delta,
        |a, s, q| a + s * q,
    );
    assert_eq!(state, vec![5.0]);
    assert_eq!(out, vec![10.0]);
}

// ── Reports ───────────────────────────────────────────────────────────────

#[test]
fn units() {
    let s = byte_scale(1536);
    assert_eq!((s.divisor, s.decimals, s.suffix), (1024, 1, " KB"));
    assert_eq!(byte_scale(1023).suffix, " B");
    assert_eq!(byte_scale(1 << 30).suffix, " GB");
    assert_eq!(byte_scale(1 << 20).suffix, " MB");
    assert_eq!(count_scale(999).suffix, "");
    assert_eq!(count_scale(1_000).suffix, "K");
    assert_eq!(count_scale(7_000_000_000).suffix, "B");
}

#[test]
fn long_texts_are_cut() {
    assert_eq!(truncate_name("short", 10).as_deref(), Some("short"));
    assert_eq!(truncate_name("0123456789abc", 10).as_deref(), Some("...6789abc"));
    assert_eq!(truncate_name("abc", 2), None);
    assert_eq!(truncate_value(&"x".repeat(120)).map(|s| s.len()), Some(120));
    assert_eq!(truncate_value(&"x".repeat(121)).map(|s| s.len()), Some(117));
    // A cut within a character.
    assert_eq!(truncate_value(&"\u{e9}".repeat(100)), None);
}

#[test]
fn distribution_and_parameters() {
    let (f, _) = dense().file();
    assert_eq!(quant_distribution(&f), vec![(GgmlType::F32, 11)]);
    assert_eq!(parameter_count(&f), Some(24 + 4 + 4 + 16 + 8 + 8 + 16 + 4 + 32 + 32 + 32));
}

#[test]
fn memory_budget() {
    let (f, _) = dense().file();
    let i = ModelInfo::from_gguf(&f).unwrap();
    assert!(budget_stated(&i));
    // 8 bytes for a token at half precision, 68 with scales; 16 tokens at most.
    let row = budget_row(&i, 1000, 900).unwrap();
    assert_eq!((row.half.tokens, row.half.capped), (12, false));
    assert_eq!((row.scaled.tokens, row.scaled.capped), (1, false));
    let row = budget_row(&i, 10_000, 900).unwrap();
    assert_eq!((row.half.tokens, row.half.capped), (16, true));
    assert_eq!(budget_row(&i, 900, 900).unwrap().half.tokens, 0);
}

#[test]
fn preferences_and_backends() {
    assert_eq!(create_backend(BackendPreference::Auto, true).name(), "cpu");
    assert_eq!(create_backend(BackendPreference::Cuda, true).name(), "cpu");
    assert_eq!(create_backend(BackendPreference::Metal, true), AnyBackend::Wgpu(WgpuDevice::Metal));
    assert_eq!(create_backend(BackendPreference::Wgpu, true).name(), "wgpu");
    // Without a usable device every preference leads to the CPU.
    assert_eq!(create_backend(BackendPreference::Wgpu, false), AnyBackend::Cpu);
    assert_eq!(create_backend(BackendPreference::Metal, false).name(), "cpu");
}

#[test]
fn tiers_of_memory() {
    let gb = 1u64 << 30;
    let base = vec![8, 16, 32, 64, 96, 128, 192, 256];
    assert_eq!(ram_tiers(0), base);
    // Close to 32 GB.
    assert_eq!(ram_tiers(31 * gb), base);
    assert!(is_current_tier(32, 31 * gb) && !is_current_tier(32, 30 * gb));
    assert_eq!(ram_tiers(48 * gb), vec![8, 16, 32, 48, 64, 96, 128, 192, 256]);
    assert_eq!(ram_tiers(512 * gb), vec![8, 16, 32, 64, 96, 128, 192, 256, 512]);
    assert_eq!(ram_tiers(gb / 4), vec![0, 8, 16, 32, 64, 96, 128, 192, 256]);
}

#[test]
fn products_with_one_vector_go_together() {
    let (f, data) = dense().file();
    let m = try_create_model(&f, &data, Some(AnyBackend::Wgpu(WgpuDevice::Default)))
        .unwrap()
        .unwrap();
    let steps = forward_steps(&m.layers);
    let q = steps.iter().position(|s| matches!(s, Op::MatMul(..))).unwrap();
    let mut r = Residency::new();
    // Without a kernel for the type, and nothing on the GPU, the CPU multiplies.
    assert!(matches!(m.products_route(&r, &steps[q..]), Ok(Products::Cpu)));
    r.add_tensor("blk.0.attn_q.weight".to_string(), 4);
    match m.products_route(&r, &steps[q..]).unwrap() {
        Products::Resident(handles) => assert_eq!(handles, vec![4]),
        other => panic!("{other:?}"),
    }
    r.add_tensor("blk.0.attn_k.weight".to_string(), 5);
    r.add_tensor("blk.0.attn_v.weight".to_string(), 6);
    match m.products_route(&r, &steps[q..]).unwrap() {
        Products::Resident(handles) => assert_eq!(handles, vec![4, 5, 6]),
        other => panic!("{other:?}"),
    }
    // What comes first is no product.
    assert!(matches!(m.products_route(&r, &steps[..q]), Ok(Products::Cpu)));
}

#[test]
fn phases_of_operations() {
    let kind = MixerKind::ShortConv;
    assert_eq!(phase_of(Op::Embed, kind), Some(Phase::Embed));
    assert_eq!(phase_of(Op::AddResidual, kind), None);
    assert_eq!(phase_of(Op::SiluMul(0), kind), Some(Phase::Ffn));
    assert_eq!(phase_of(Op::ShortConv(0), kind), Some(Phase::ShortConv));
    let up = Op::MatMul(Matrix::Layer(0, Role::FfnUp), Buffer::Xn, Buffer::Up);
    assert_eq!(phase_of(up, kind), Some(Phase::Ffn));
    let head = Op::MatMul(Matrix::LmHead, Buffer::Xn, Buffer::Logits);
    assert_eq!(phase_of(head, kind), Some(Phase::LmHead));
}
