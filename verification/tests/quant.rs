use gguf_rs::calc::Calc;
use gguf_rs::error::GgufError;
use gguf_rs::model::weights::WeightMap;
use gguf_rs::ops::cpu_backend::matmul_dequant;
use gguf_rs::quant::block::{Element, Weight};
use gguf_rs::quant::q2_k;
use gguf_rs::quant::q4_k::{self, get_scale_min_k4};
use gguf_rs::quant::q5_0;
use gguf_rs::quant::q5_k::{self, BlockDot};
use gguf_rs::quant::q6_k;
use gguf_rs::quant::q8_0;
use gguf_rs::quant::q8_k::{quantize_row_q8_k, Q8KRow};
use gguf_rs::quant::{
    dequant_bf16, dequant_f16, dequant_f32, dequant_row, dot_row, row_computable, Row,
};
use gguf_rs::types::{GgmlType, GgufFile, Metadata, TensorInfo};

// ── Floating-point arithmetic on decoded values ───────────────────────────

fn half(bits: u16) -> f32 {
    half::f16::from_bits(bits).to_f32()
}

fn value(w: &Weight) -> f32 {
    (half(w.d) * w.scale as f32) * w.quant as f32 - half(w.dmin) * w.min as f32
}

fn values(ws: &[Weight]) -> Vec<f32> {
    ws.iter().map(value).collect()
}

fn element(e: Element) -> f32 {
    match e {
        Element::Single(bits) => f32::from_bits(bits),
        Element::Half(bits) => half(bits),
        Element::Quantized(w) => value(&w),
    }
}

fn within(acc: f32, q: i32, x: f32) -> f32 {
    acc + q as f32 * x
}

fn scaled(acc: f32, d: u16, block: f32) -> f32 {
    acc + half(d) * block
}

fn take_in(acc: f32, e: Element, x: f32) -> f32 {
    acc + element(e) * x
}

fn plus(a: f32, b: f32) -> f32 {
    a + b
}

fn quantize(x: &[f32]) -> Q8KRow {
    let bits: Vec<u32> = x.iter().map(|v| v.to_bits()).collect();
    quantize_row_q8_k(
        &bits,
        |m| (-127.0f32 / f32::from_bits(m)).to_bits(),
        |s, v| (f32::from_bits(s) * f32::from_bits(v)).round() as i32,
        |s| (1.0f32 / f32::from_bits(s)).to_bits(),
    )
}

fn sum_of(dots: &[BlockDot], q8k: &Q8KRow) -> f32 {
    let mut sum = 0.0f32;
    for (b, dot) in dots.iter().enumerate() {
        let dx = f32::from_bits(q8k.d[b]);
        sum += dx * (half(dot.d) * dot.pos as f32 - half(dot.dmin) * dot.min as f32);
    }
    sum
}

fn message(e: GgufError) -> String {
    e.message()
}

// ── F32, F16, BF16 ────────────────────────────────────────────────────────

#[test]
fn test_dequant_f32() {
    let data: Vec<u8> = [1.0f32, 2.0, -3.5]
        .iter()
        .flat_map(|v| v.to_le_bytes())
        .collect();
    let result: Vec<f32> = dequant_f32(&data, 3)
        .into_iter()
        .map(f32::from_bits)
        .collect();
    assert_eq!(result, vec![1.0, 2.0, -3.5]);
}

#[test]
fn test_dequant_f16() {
    let data: Vec<u8> = [half::f16::from_f32(1.5), half::f16::from_f32(-2.25)]
        .iter()
        .flat_map(|v| v.to_le_bytes())
        .collect();
    let result: Vec<f32> = dequant_f16(&data, 2).into_iter().map(half).collect();
    assert!((result[0] - 1.5).abs() < 1e-3);
    assert!((result[1] - (-2.25)).abs() < 1e-3);
}

#[test]
fn test_dequant_bf16() {
    // BF16: 1.0 = 0x3F80
    let data: Vec<u8> = [0x80u8, 0x3F, 0x00, 0xC0] // 1.0 and -2.0
        .to_vec();
    let result: Vec<f32> = dequant_bf16(&data, 2)
        .into_iter()
        .map(f32::from_bits)
        .collect();
    assert!((result[0] - 1.0).abs() < 1e-3);
    assert!((result[1] - (-2.0)).abs() < 1e-2);
}

// ── Q2_K ──────────────────────────────────────────────────────────────────

#[test]
fn test_q2_k_block_size() {
    assert_eq!(q2_k::BLOCK_BYTES, 84);
}

#[test]
fn test_q2_k_zero_block() {
    // Create a zero block: all scales=0, qs=0, d=0, dmin=0
    let mut block = vec![0u8; q2_k::BLOCK_BYTES];
    // Set d = f16(1.0) so we get non-trivial scaling
    let d_bits = half::f16::from_f32(1.0).to_bits();
    block[80] = (d_bits & 0xFF) as u8;
    block[81] = (d_bits >> 8) as u8;

    let result = values(&q2_k::dequant_q2_k(&block, q2_k::QK_K).unwrap());
    assert_eq!(result.len(), q2_k::QK_K);
    // With all qs=0 and scales=0, all values should be 0
    for &v in &result {
        assert_eq!(v, 0.0);
    }
}

#[test]
fn test_q2_k_basic_pattern() {
    // Create a block with known values:
    // Set scale[0] = 0x21 (lo=1, hi=2) so dl = d*1, ml = dmin*2
    // Set first 32 qs bytes to alternating values
    let mut block = vec![0u8; q2_k::BLOCK_BYTES];

    // d = 2.0
    let d_bits = half::f16::from_f32(2.0).to_bits();
    block[80] = (d_bits & 0xFF) as u8;
    block[81] = (d_bits >> 8) as u8;

    // dmin = 0.5
    let dmin_bits = half::f16::from_f32(0.5).to_bits();
    block[82] = (dmin_bits & 0xFF) as u8;
    block[83] = (dmin_bits >> 8) as u8;

    // scales[0] = 0x21: lo nibble = 1, hi nibble = 2
    block[0] = 0x21;
    // scales[1] = 0x43: lo nibble = 3, hi nibble = 4
    block[1] = 0x43;

    // qs[0] = 0xFF (all 2-bit values = 3 for shift=0)
    for i in 16..48 {
        block[i] = 0xFF;
    }

    let result = values(&q2_k::dequant_q2_k(&block, q2_k::QK_K).unwrap());
    assert_eq!(result.len(), q2_k::QK_K);

    // First 16 values: dl = 2.0 * 1 = 2.0, ml = 0.5 * 2 = 1.0
    // quant = 3, so value = 2.0 * 3 - 1.0 = 5.0
    for i in 0..16 {
        assert!(
            (result[i] - 5.0).abs() < 1e-5,
            "result[{i}] = {}",
            result[i]
        );
    }

    // Next 16 values: dl = 2.0 * 3 = 6.0, ml = 0.5 * 4 = 2.0
    // quant = 3, so value = 6.0 * 3 - 2.0 = 16.0
    for i in 16..32 {
        assert!(
            (result[i] - 16.0).abs() < 1e-5,
            "result[{i}] = {}",
            result[i]
        );
    }
}

// ── Q4_K ──────────────────────────────────────────────────────────────────

/// Build one synthetic 144-byte Q4_K super-block with the given raw fields.
fn build_q4_k(d: f32, dmin: f32, scales: [u8; 12], quants: [u8; 128]) -> Vec<u8> {
    let mut b = Vec::with_capacity(q4_k::BLOCK_BYTES);
    b.extend_from_slice(&half::f16::from_f32(d).to_bits().to_le_bytes());
    b.extend_from_slice(&half::f16::from_f32(dmin).to_bits().to_le_bytes());
    b.extend_from_slice(&scales);
    b.extend_from_slice(&quants);
    b
}

#[test]
fn test_get_scale_min_k4() {
    let scales: [u8; 12] = [10, 20, 30, 40, 50, 60, 70, 80, 0, 0, 0, 0];
    assert_eq!(get_scale_min_k4(0, &scales), (10, 50));
    assert_eq!(get_scale_min_k4(1, &scales), (20, 60));
    assert_eq!(get_scale_min_k4(2, &scales), (30, 6));
    assert_eq!(get_scale_min_k4(3, &scales), (40, 16));

    let scales: [u8; 12] = [
        0xC0, 0x80, 0x40, 0x00, 0x00, 0x00, 0x00, 0x00, 0x3F, 0x2F, 0x1F, 0x0F,
    ];
    assert_eq!(get_scale_min_k4(4, &scales), (0x3F, 3));
    assert_eq!(get_scale_min_k4(5, &scales), (0x2F, 2));
}

#[test]
fn test_dot_q4_k_matches_dequant() {
    let scales: [u8; 12] = [10, 20, 30, 40, 50, 60, 70, 80, 0x3F, 0x2F, 0x1F, 0x0F];
    let quants: [u8; 128] = core::array::from_fn(|i| (i as u8).wrapping_mul(13));
    let data = build_q4_k(0.05, -0.01, scales, quants);
    let n = q4_k::BLOCK_SIZE;

    let x: Vec<f32> = (0..n).map(|i| (i as f32 * 0.01 - 1.0)).collect();
    let row = values(&q4_k::dequant_q4_k(&data, n).unwrap());
    let expected: f32 = row.iter().zip(&x).map(|(w, xi)| w * xi).sum();

    let got = q4_k::dot_q4_k(&data, &x, 0.0f32, &take_in, &plus).unwrap();
    assert!(
        (got - expected).abs() < 1e-3,
        "fused dot {got} != reference {expected}"
    );
}

// ── Q5_0 ──────────────────────────────────────────────────────────────────

const HALF: usize = 16;

/// Reference packer: given 32 signed values in [-16, 15] and a scale,
/// build a Q5_0 block, so we can check the unpacker inverts it.
fn build_q5_0_block(scale: f32, values: &[i32; 32]) -> Vec<u8> {
    let mut block = Vec::with_capacity(q5_0::BLOCK_BYTES);
    block.extend_from_slice(&half::f16::from_f32(scale).to_bits().to_le_bytes());

    let mut qh: u32 = 0;
    let mut qs = [0u8; HALF];
    for j in 0..HALF {
        let v0 = (values[j] + 16) as u32; // 0..31
        let v1 = (values[j + HALF] + 16) as u32;
        if (v0 >> 4) & 1 == 1 {
            qh |= 1 << j;
        }
        if (v1 >> 4) & 1 == 1 {
            qh |= 1 << (j + HALF);
        }
        qs[j] = ((v0 & 0x0F) | ((v1 & 0x0F) << 4)) as u8;
    }
    block.extend_from_slice(&qh.to_le_bytes());
    block.extend_from_slice(&qs);
    block
}

#[test]
fn roundtrip_single_block() {
    let scale = 0.5f32;
    let mut vs = [0i32; 32];
    for (i, v) in vs.iter_mut().enumerate() {
        *v = (i as i32 % 32) - 16; // spans -16..15
    }
    let data = build_q5_0_block(scale, &vs);
    let out = values(&q5_0::dequant_q5_0(&data, 32).unwrap());
    assert_eq!(out.len(), 32);
    for i in 0..32 {
        let expected = vs[i] as f32 * scale;
        assert!(
            (out[i] - expected).abs() < 1e-4,
            "idx {i}: got {}, want {expected}",
            out[i]
        );
    }
}

#[test]
fn high_bit_extremes() {
    // Value 15 needs the 5th bit set; -16 needs all-zero code.
    let scale = 1.0f32;
    let mut vs = [0i32; 32];
    vs[0] = 15; // code 31 → high bit set
    vs[HALF] = -16; // code 0
    vs[1] = -1; // code 15 → high bit clear, low nibble 1111
    let data = build_q5_0_block(scale, &vs);
    let out = values(&q5_0::dequant_q5_0(&data, 32).unwrap());
    assert_eq!(out[0], 15.0);
    assert_eq!(out[HALF], -16.0);
    assert_eq!(out[1], -1.0);
}

// ── Q5_K ──────────────────────────────────────────────────────────────────

fn build_q5_k(d: f32, dmin: f32, scales: [u8; 12], qh: [u8; 32], qs: [u8; 128]) -> Vec<u8> {
    let mut b = Vec::with_capacity(q5_k::BLOCK_BYTES);
    b.extend_from_slice(&half::f16::from_f32(d).to_bits().to_le_bytes());
    b.extend_from_slice(&half::f16::from_f32(dmin).to_bits().to_le_bytes());
    b.extend_from_slice(&scales);
    b.extend_from_slice(&qh);
    b.extend_from_slice(&qs);
    b
}

#[test]
fn test_dequant_q5_k_range() {
    // All quants max (0xFF qs -> nibble 15, qh all bits set -> +16 => 31).
    // Scale packing: sub-blocks 0..3 read `scales[0..4]` directly (low 6
    // bits = 63 needs 0xFF, since 0xFF & 0x3F == 63); sub-blocks 4..7 read
    // `scales[8..12] & 0xF` combined with `scales[0..4] >> 6 << 4` — 0xFF's
    // top 2 bits are `11`, so `3 << 4 == 48`, plus `0x0F & 0xF == 15` gives
    // `48 | 15 == 63` too. dmin=0 makes the min-packing irrelevant.
    let scales: [u8; 12] = [0xFF, 0xFF, 0xFF, 0xFF, 0, 0, 0, 0, 0x0F, 0x0F, 0x0F, 0x0F];
    let qh = [0xFFu8; 32];
    let qs = [0xFFu8; 128];
    let data = build_q5_k(1.0, 0.0, scales, qh, qs);
    let row = values(&q5_k::dequant_q5_k(&data, q5_k::BLOCK_SIZE).unwrap());
    for v in row {
        assert!((v - (63.0 * 31.0)).abs() < 1.0);
    }
}

#[test]
fn test_dequant_q5_k_zero_scale() {
    let scales: [u8; 12] = [0; 12];
    let qh = [0u8; 32];
    let qs = [0u8; 128];
    let data = build_q5_k(1.0, 0.0, scales, qh, qs);
    let row = values(&q5_k::dequant_q5_k(&data, q5_k::BLOCK_SIZE).unwrap());
    assert!(row.iter().all(|&v| v == 0.0));
}

#[test]
fn test_dot_q5_k_matches_dequant() {
    let scales: [u8; 12] = [10, 20, 30, 40, 50, 60, 70, 80, 0x3F, 0x2F, 0x1F, 0x0F];
    let qh: [u8; 32] = core::array::from_fn(|i| (i as u8).wrapping_mul(29).wrapping_add(3));
    let qs: [u8; 128] = core::array::from_fn(|i| (i as u8).wrapping_mul(13));
    let data = build_q5_k(0.05, -0.01, scales, qh, qs);
    let n = q5_k::BLOCK_SIZE;

    let x: Vec<f32> = (0..n).map(|i| (i as f32 * 0.01 - 1.0)).collect();
    let row = values(&q5_k::dequant_q5_k(&data, n).unwrap());
    let expected: f32 = row.iter().zip(&x).map(|(w, xi)| w * xi).sum();

    let got = q5_k::dot_q5_k(&data, &x, 0.0f32, &take_in, &plus).unwrap();
    assert!(
        (got - expected).abs() < 1e-3,
        "fused dot {got} != reference {expected}"
    );
}

#[test]
fn test_dot_q5_k_q8k_matches_f32_dot() {
    let scales: [u8; 12] = [10, 20, 30, 40, 50, 60, 70, 80, 0x3F, 0x2F, 0x1F, 0x0F];
    let qh: [u8; 32] = core::array::from_fn(|i| (i as u8).wrapping_mul(29).wrapping_add(3));
    let qs: [u8; 128] = core::array::from_fn(|i| (i as u8).wrapping_mul(13));
    let data = build_q5_k(0.05, -0.01, scales, qh, qs);
    let n = q5_k::BLOCK_SIZE;

    // Realistic-ish activations (RMSNorm output magnitude).
    let x: Vec<f32> = (0..n)
        .map(|i| ((i as f32 * 0.037).sin()) * 1.3)
        .collect();

    let expected = q5_k::dot_q5_k(&data, &x, 0.0f32, &take_in, &plus).unwrap();

    let q8k = quantize(&x);
    let got = sum_of(&q5_k::dot_q5_k_q8k(&data, &q8k).unwrap(), &q8k);

    // int8 activation quantization is lossy (~1/127 relative error per
    // element), so this is a much looser tolerance than the f32-exact
    // fused-vs-dequant tests above — it's checking the int8 pipeline is
    // *correct*, not bit-exact with the f32 path.
    let rel_err = (got - expected).abs() / expected.abs().max(1.0);
    assert!(
        rel_err < 0.05,
        "q8k dot {got} too far from f32 dot {expected} (rel err {rel_err})"
    );
}

// ── Q6_K ──────────────────────────────────────────────────────────────────

/// Build one synthetic 210-byte Q6_K super-block.
fn build_q6_k(ql: [u8; 128], qh: [u8; 64], scales: [i8; 16], d: f32) -> Vec<u8> {
    let mut b = Vec::with_capacity(q6_k::BLOCK_BYTES);
    b.extend_from_slice(&ql);
    b.extend_from_slice(&qh);
    b.extend_from_slice(&scales.map(|s| s as u8));
    b.extend_from_slice(&half::f16::from_f32(d).to_bits().to_le_bytes());
    b
}

#[test]
fn test_dot_q6_k_matches_dequant() {
    let ql: [u8; 128] = core::array::from_fn(|i| (i as u8).wrapping_mul(37));
    let qh: [u8; 64] = core::array::from_fn(|i| (i as u8).wrapping_mul(53).wrapping_add(1));
    let scales: [i8; 16] = core::array::from_fn(|i| (i as i8) - 6);
    let data = build_q6_k(ql, qh, scales, 0.02);
    let n = q6_k::BLOCK_SIZE;

    let x: Vec<f32> = (0..n).map(|i| (i as f32 * 0.005 - 0.6)).collect();
    let row = values(&q6_k::dequant_q6_k(&data, n).unwrap());
    let expected: f32 = row.iter().zip(&x).map(|(w, xi)| w * xi).sum();

    let got = q6_k::dot_q6_k(&data, &x, 0.0f32, &take_in).unwrap();
    assert!(
        (got - expected).abs() < 1e-2,
        "fused dot {got} != reference {expected}"
    );
}

// ── Q8_0 ──────────────────────────────────────────────────────────────────

fn build_q8_0_block(scale_f16: u16, values: &[i8]) -> Vec<u8> {
    let mut block = Vec::with_capacity(q8_0::BLOCK_BYTES);
    block.extend_from_slice(&scale_f16.to_le_bytes());
    for &v in values {
        block.push(v as u8);
    }
    // Pad to 34 bytes
    while block.len() < q8_0::BLOCK_BYTES {
        block.push(0);
    }
    block
}

#[test]
fn test_dequant_q8_0_single_block() {
    // Scale = 2.0 in f16 = 0x4000
    let scale_bits = half::f16::from_f32(2.0).to_bits();
    let vs: Vec<i8> = (0..32).map(|i| (i % 5 - 2) as i8).collect();
    let data = build_q8_0_block(scale_bits, &vs);

    let result = values(&q8_0::dequant_q8_0(&data, 32).unwrap());
    assert_eq!(result.len(), 32);
    for i in 0..32 {
        assert!(
            (result[i] - 2.0 * vs[i] as f32).abs() < 1e-6,
            "mismatch at index {i}: got {}, expected {}",
            result[i],
            2.0 * vs[i] as f32
        );
    }
}

#[test]
fn test_dequant_q8_0_partial_block() {
    // 33 elements → 2 blocks, second block has only 1 element
    let scale_bits = half::f16::from_f32(1.0).to_bits();
    let mut data = Vec::new();

    // Block 0: full
    let vals0: Vec<i8> = (0..32).map(|i| (i as i8)).collect();
    data.extend(build_q8_0_block(scale_bits, &vals0));

    // Block 1: partial (1 value = 42)
    let vals1 = [
        42i8, 0, 0, 0, 0, 0, 0, 0, 0, 0, 0, 0, 0, 0, 0, 0, 0, 0, 0, 0, 0, 0, 0, 0, 0, 0, 0, 0,
        0, 0, 0, 0,
    ];
    data.extend(build_q8_0_block(scale_bits, &vals1));

    let result = values(&q8_0::dequant_q8_0(&data, 33).unwrap());
    assert_eq!(result.len(), 33);
    assert_eq!(result[32], 42.0);
}

#[test]
fn test_dot_q8_0_matches_dequant() {
    // Two blocks + a partial third; fused dot must equal dequant-then-dot.
    let scale_bits = half::f16::from_f32(0.75).to_bits();
    let mut data = Vec::new();
    for b in 0..3 {
        let vals: Vec<i8> = (0..32).map(|i| ((i + b) % 7 - 3) as i8).collect();
        data.extend(build_q8_0_block(scale_bits, &vals));
    }
    let n = 70; // spans 3 blocks, last is partial (70 - 64 = 6 elements)

    let x: Vec<f32> = (0..n).map(|i| (i as f32 * 0.1 - 3.0)).collect();
    let row = values(&q8_0::dequant_q8_0(&data, n).unwrap());
    let expected: f32 = row.iter().zip(&x).map(|(w, xi)| w * xi).sum();

    let got = q8_0::dot_q8_0(&data, &x, 0.0f32, &within, &scaled).unwrap();
    assert!(
        (got - expected).abs() < 1e-3,
        "fused dot {got} != reference {expected}"
    );
}

// ── Q8_K ──────────────────────────────────────────────────────────────────

#[test]
fn test_quantize_row_q8_k_roundtrip_error() {
    let x: Vec<f32> = (0..256).map(|i| (i as f32 - 128.0) * 0.1).collect();
    let q = quantize(&x);
    assert_eq!(q.n_blocks(), 1);
    assert_eq!(q.d.len(), 1);
    // Dequantized values should be close to the originals (K-quant-grade
    // 8-bit precision, not exact).
    for (i, &xi) in x.iter().enumerate() {
        let dq = f32::from_bits(q.d[0]) * q.qs[i] as f32;
        assert!((dq - xi).abs() < 0.15, "index {i}: {dq} vs {xi}");
    }
}

#[test]
fn test_quantize_row_q8_k_bsums() {
    let x: Vec<f32> = (0..256).map(|i| ((i % 7) as f32 - 3.0) * 0.3).collect();
    let q = quantize(&x);
    for g in 0..16 {
        let expected: i16 = q.qs[g * 16..g * 16 + 16].iter().map(|&v| v as i16).sum();
        assert_eq!(q.bsums[g], expected);
    }
}

#[test]
fn test_quantize_row_q8_k_all_zero() {
    let x = vec![0.0f32; 256];
    let q = quantize(&x);
    assert_eq!(f32::from_bits(q.d[0]), 0.0);
    assert!(q.qs.iter().all(|&v| v == 0));
}

#[test]
fn test_quantize_row_q8_k_partial_block() {
    // Non-multiple-of-256 length: padded block should still be safe to read.
    let x: Vec<f32> = (0..100).map(|i| i as f32 * 0.01).collect();
    let q = quantize(&x);
    assert_eq!(q.n, 100);
    assert_eq!(q.n_blocks(), 1);
    assert_eq!(q.qs.len(), 256);
    assert_eq!(q.bsums.len(), 16);
}

#[test]
fn quantized_peak_takes_the_whole_range() {
    // The element of the largest magnitude becomes -127, whatever its sign.
    let mut x = vec![0.5f32; 256];
    x[7] = 2.0;
    let q = quantize(&x);
    assert_eq!(q.qs[7], -127);
    assert_eq!(f32::from_bits(q.d[0]), 1.0f32 / (-127.0f32 / 2.0f32));
    // A not-a-number never is the peak.
    x[9] = f32::NAN;
    assert_eq!(quantize(&x).qs[7], -127);
}

// ── Rows of tensors ───────────────────────────────────────────────────────

fn tensor(name: &str, dims: &[u64], ggml_type: GgmlType, byte_offset: u64) -> TensorInfo {
    TensorInfo {
        name: name.to_string(),
        n_dims: dims.len() as u32,
        dims: dims.to_vec(),
        ggml_type,
        byte_offset,
    }
}

fn q8_0_rows(rows: usize) -> Vec<u8> {
    let mut data = Vec::new();
    for r in 0..rows {
        let vals: Vec<i8> = (0..32).map(|i| (i as i8) - (r as i8)).collect();
        data.extend(build_q8_0_block(half::f16::from_f32(0.5).to_bits(), &vals));
    }
    data
}

#[test]
fn rows_follow_one_another() {
    let t = tensor("w", &[32, 3], GgmlType::Q8_0, 0);
    let data = q8_0_rows(3);
    for r in 0..3usize {
        match dequant_row(&t, &data, r).unwrap() {
            Row::Quantized(ws) => assert_eq!(value(&ws[5]), 0.5 * (5.0 - r as f32)),
            _ => panic!("quantized rows expected"),
        }
    }
}

#[test]
fn rows_that_are_not_there() {
    let data = q8_0_rows(3);
    let t = tensor("w", &[32, 3], GgmlType::Q8_0, 0);
    assert_eq!(
        message(dequant_row(&t, &data, 3).unwrap_err()),
        "backend error: row index 3 out of range (tensor has 3 rows)"
    );
    let t = tensor("w", &[32, 4], GgmlType::Q8_0, 0);
    assert_eq!(
        message(dequant_row(&t, &data, 3).unwrap_err()),
        "backend error: tensor row 3 extends beyond data section \
         (offset 102, need 34 bytes, have 0)"
    );
    let t = tensor("w", &[], GgmlType::Q8_0, 0);
    assert_eq!(
        message(dequant_row(&t, &data, 0).unwrap_err()),
        "backend error: tensor has 0 dimensions"
    );
    let t = tensor("w", &[32], GgmlType::IQ4_XS, 0);
    assert!(row_computable(&t, 0));
    assert_eq!(
        message(dequant_row(&t, &[0u8; 4096], 0).unwrap_err()),
        "backend error: dequantization not yet implemented for IQ4_XS"
    );
    let t = tensor("w", &[100], GgmlType::Q2_K, 0);
    assert_eq!(
        message(dequant_row(&t, &[0u8; 4096], 0).unwrap_err()),
        "backend error: Q2_K row length 100 is not a multiple of 256"
    );
    let t = tensor("w", &[u64::MAX, 2], GgmlType::F32, 0);
    assert!(!row_computable(&t, 0));
}

#[test]
fn too_short_rows_are_named() {
    assert_eq!(
        message(q8_0::dequant_q8_0(&[0u8; 33], 32).unwrap_err()),
        "backend error: Q8_0 dequant: need 34 bytes, have 33"
    );
    assert_eq!(
        message(q4_k::dot_q4_k(&[0u8; 10], &[1.0f32], 0.0, &take_in, &plus).unwrap_err()),
        "backend error: Q4_K dot: need 144 bytes, have 10"
    );
}

#[test]
fn dot_of_every_type_agrees_with_its_row() {
    let x32: Vec<f32> = (0..32).map(|i| i as f32 * 0.25 - 2.0).collect();
    let mut f32_data = Vec::new();
    let mut f16_data = Vec::new();
    for i in 0..32 {
        let v = i as f32 * 0.5 - 3.0;
        f32_data.extend_from_slice(&v.to_le_bytes());
        f16_data.extend_from_slice(&half::f16::from_f32(v).to_bits().to_le_bytes());
    }
    let cases = vec![
        (GgmlType::F32, f32_data),
        (GgmlType::F16, f16_data),
        (GgmlType::Q8_0, q8_0_rows(1)),
        (GgmlType::Q5_0, build_q5_0_block(0.5, &core::array::from_fn(|i| i as i32 - 16))),
    ];
    for (ty, data) in cases {
        let t = tensor("w", &[32], ty, 0);
        let row = dequant_row(&t, &data, 0).unwrap();
        let expected: f32 = (0..row.len()).map(|i| element(row.element(i)) * x32[i]).sum();
        let got = dot_row(&t, &data, 0, &x32, 0.0, &within, &scaled, &take_in, &plus).unwrap();
        assert!((got - expected).abs() < 1e-3, "{}: {got} != {expected}", ty.name());
    }
}

// ── Matrices ──────────────────────────────────────────────────────────────

fn file_of(tensors: Vec<TensorInfo>) -> GgufFile {
    GgufFile {
        version: 3,
        tensor_count: tensors.len() as u64,
        metadata: Metadata::new(),
        tensors,
        data_offset: 0,
    }
}

fn bits(x: &[f32]) -> Vec<u32> {
    x.iter().map(|v| v.to_bits()).collect()
}

fn calc(c: Calc) -> u32 {
    let f = f32::from_bits;
    let r: f32 = match c {
        Calc::Add(a, b) => f(a) + f(b),
        Calc::Sub(a, b) => f(a) - f(b),
        Calc::Mul(a, b) => f(a) * f(b),
        Calc::Div(a, b) => f(a) / f(b),
        Calc::OfInt(n) => n as f32,
        Calc::OfHalf(h) => half(h),
        Calc::Round(a) => return f(a).round() as i32 as u32,
        other => panic!("{other:?} has no place in a product"),
    };
    r.to_bits()
}

fn multiply(map: &WeightMap, name: &str, x: &[f32], out: &mut Vec<u32>) -> Result<(), GgufError> {
    map.matmul_into(name, &bits(x), out, &calc)
}

#[test]
fn matrix_vector_product() {
    let gguf = file_of(vec![tensor("w", &[32, 3], GgmlType::Q8_0, 0)]);
    let data = q8_0_rows(3);
    let map = WeightMap::from_gguf(&gguf, &data);
    let x: Vec<f32> = (0..32).map(|i| (i % 3) as f32).collect();
    let mut out = vec![7u32; 4];
    multiply(&map, "w", &x, &mut out).unwrap();
    for r in 0..3 {
        let expected: f32 = (0..32).map(|i| 0.5 * (i as f32 - r as f32) * x[i as usize]).sum();
        assert!((f32::from_bits(out[r]) - expected).abs() < 1e-3);
    }
    assert_eq!(out[3], 7);
    assert_eq!(
        message(multiply(&map, "v", &x, &mut out).unwrap_err()),
        "missing required metadata key: tensor v"
    );
}

#[test]
fn matrix_of_small_integers() {
    let scales: [u8; 12] = [10, 20, 30, 40, 50, 60, 70, 80, 0x3F, 0x2F, 0x1F, 0x0F];
    let qh: [u8; 32] = core::array::from_fn(|i| (i as u8).wrapping_mul(29).wrapping_add(3));
    let qs: [u8; 128] = core::array::from_fn(|i| (i as u8).wrapping_mul(13));
    let data = build_q5_k(0.05, -0.01, scales, qh, qs);
    let gguf = file_of(vec![tensor("w", &[256, 1], GgmlType::Q5_K, 0)]);
    let map = WeightMap::from_gguf(&gguf, &data);
    let x: Vec<f32> = (0..256).map(|i| (i as f32 * 0.037).sin()).collect();
    let mut out = vec![0u32; 1];
    multiply(&map, "w", &x, &mut out).unwrap();
    let q8k = quantize(&x);
    let expected = sum_of(&q5_k::dot_q5_k_q8k(&data, &q8k).unwrap(), &q8k);
    assert_eq!(f32::from_bits(out[0]), expected);
}

#[test]
fn batched_product_is_the_product_of_each_token() {
    let gguf = file_of(vec![tensor("w", &[32, 3], GgmlType::Q8_0, 0)]);
    let data = q8_0_rows(3);
    let map = WeightMap::from_gguf(&gguf, &data);
    let x: Vec<f32> = (0..64).map(|i| (i % 5) as f32 - 2.0).collect();
    let mut out = vec![0u32; 6];
    map.matmul_batch_into("w", &bits(&x), &mut out, 2, &calc).unwrap();
    for t in 0..2 {
        let mut single = vec![0u32; 3];
        multiply(&map, "w", &x[32 * t..32 * t + 32], &mut single).unwrap();
        for r in 0..3 {
            assert!((f32::from_bits(out[t * 3 + r]) - f32::from_bits(single[r])).abs() < 1e-3);
        }
    }
}

#[test]
fn backend_product_stops_at_a_short_row() {
    let data = q8_0_rows(2);
    let x = vec![1.0f32; 32];
    let mut out = vec![-1.0f32; 2];
    matmul_dequant(GgmlType::Q8_0, &data, &x, &mut out, 0.0, &within, &scaled, &take_in, &plus).unwrap();
    let all: f32 = (0..32).map(|i| 0.5 * i as f32).sum();
    assert_eq!(out, vec![all, all - 16.0]);
    let mut out = vec![-1.0f32; 2];
    let e = matmul_dequant(
        GgmlType::Q8_0,
        &data[..60],
        &x,
        &mut out,
        0.0,
        &within,
        &scaled,
        &take_in,
        &plus,
    )
    .unwrap_err();
    assert_eq!(message(e), "backend error: Q8_0 dot: need 34 bytes, have 26");
    assert_eq!(out, vec![all, -1.0]);
    let e = matmul_dequant(
        GgmlType::F16,
        &data,
        &x,
        &mut out,
        0.0,
        &within,
        &scaled,
        &take_in,
        &plus,
    )
    .unwrap_err();
    assert_eq!(
        message(e),
        "backend error: matmul_dequant: unsupported dtype F16"
    );
}

#[test]
fn tensor_is_its_rows() {
    for (ty, dims) in [
        (GgmlType::F32, vec![3u64, 2, 2]),
        (GgmlType::F16, vec![5, 3]),
        (GgmlType::Q8_0, vec![64, 3]),
        (GgmlType::Q5_0, vec![32, 2]),
        (GgmlType::Q4_K, vec![256, 2]),
        (GgmlType::Q5_K, vec![512, 2]),
        (GgmlType::Q6_K, vec![256, 3]),
        (GgmlType::Q2_K, vec![256, 2]),
    ] {
        let row_bytes = ty.type_size(dims[0] as usize);
        let rows = dims[1..].iter().product::<u64>() as usize;
        let data: Vec<u8> = (0..row_bytes * rows).map(|i| (i * 31 % 251) as u8).collect();
        let f = GgufFile {
            version: 3,
            tensor_count: 1,
            metadata: Metadata::new(),
            tensors: vec![TensorInfo {
                name: "w".to_string(),
                n_dims: dims.len() as u32,
                dims,
                ggml_type: ty,
                byte_offset: 0,
            }],
            data_offset: 0,
        };
        let w = WeightMap::from_gguf(&f, &data);
        let whole = w.dequant_tensor("w").unwrap();
        let mut at = 0;
        for r in 0..rows {
            let row = w.dequant_row("w", r).unwrap();
            for i in 0..row.len() {
                assert_eq!(whole.element(at), row.element(i));
                at += 1;
            }
        }
        assert_eq!(at, whole.len());
    }
}

/// Weights of a row with scales that are neither huge nor not-a-number.
fn tame_row(ty: GgmlType, n: usize) -> Vec<u8> {
    let mut data: Vec<u8> = (0..ty.type_size(n)).map(|i| (i * 37 % 251) as u8).collect();
    let one = half::f16::from_f32(0.013).to_bits().to_le_bytes();
    let block = ty.block_bytes();
    for b in 0..data.len() / block {
        let at = if ty == GgmlType::Q6_K { b * block + 208 } else { b * block };
        data[at..at + 2].copy_from_slice(&one);
        if ty != GgmlType::Q6_K {
            data[at + 2..at + 4].copy_from_slice(&one);
        }
    }
    data
}

#[test]
fn lanes_are_summed_first() {
    let n = 512;
    let x: Vec<f32> = (0..n).map(|i| ((i * 29 % 97) as f32 - 48.0) * 0.0173).collect();
    for ty in [GgmlType::Q4_K, GgmlType::Q5_K] {
        let data = tame_row(ty, n);
        let row = if ty == GgmlType::Q4_K {
            values(&q4_k::dequant_q4_k(&data, n).unwrap())
        } else {
            values(&q5_k::dequant_q5_k(&data, n).unwrap())
        };
        let mut expected = 0.0f32;
        for group in (0..n).step_by(64) {
            let mut lanes = [0.0f32; 8];
            for base in (0..32).step_by(8) {
                for (l, lane) in lanes.iter_mut().enumerate() {
                    *lane += row[group + base + l] * x[group + base + l];
                }
                for (l, lane) in lanes.iter_mut().enumerate() {
                    *lane += row[group + 32 + base + l] * x[group + 32 + base + l];
                }
            }
            expected += lanes.iter().sum::<f32>();
        }
        let got = if ty == GgmlType::Q4_K {
            q4_k::dot_q4_k(&data, &x, 0.0, &take_in, &plus).unwrap()
        } else {
            q5_k::dot_q5_k(&data, &x, 0.0, &take_in, &plus).unwrap()
        };
        assert_eq!(got, expected);
    }
}

#[test]
fn quarters_take_turns() {
    // The last block is not full.
    let n = 700;
    let x: Vec<f32> = (0..n).map(|i| ((i * 29 % 97) as f32 - 48.0) * 0.0173).collect();
    let data = tame_row(GgmlType::Q6_K, n);
    let row = values(&q6_k::dequant_q6_k(&data, n).unwrap());
    let mut expected = 0.0f32;
    for half_block in (0..n).step_by(128) {
        for l in 0..32 {
            for quarter in 0..4 {
                let i = half_block + 32 * quarter + l;
                if i < n {
                    expected += row[i] * x[i];
                }
            }
        }
    }
    assert_eq!(q6_k::dot_q6_k(&data, &x, 0.0, &take_in).unwrap(), expected);
}
