//! What the threads of kernels compute, in an order of no particular kind.

use gguf_rs::calc::Calc;
use gguf_rs::model::llama::types::GdnDims;
use gguf_rs::ops::kernels::attention::{attention_output, attention_scores, attention_softmax};
use gguf_rs::ops::kernels::conv::{causal_conv1d_silu, short_conv};
use gguf_rs::ops::kernels::delta::gdn_recurrence;
use gguf_rs::ops::kernels::elementwise::{
    gdn_gate_decay, kv_cache_write, residual_add, sigmoid_mul, silu_mul, split_qg,
};
use gguf_rs::ops::kernels::half::f16_to_f32;
use gguf_rs::ops::kernels::norm::{
    add_residual_rms_norm, gdn_gated_rms_norm, l2_norm_heads, qk_norm_rope, rms_norm, rope,
};

fn calc(c: Calc) -> u32 {
    let f = f32::from_bits;
    let r: f32 = match c {
        Calc::Add(a, b) => f(a) + f(b),
        Calc::Sub(a, b) => f(a) - f(b),
        Calc::Mul(a, b) => f(a) * f(b),
        Calc::Div(a, b) => f(a) / f(b),
        Calc::Max(a, b) => f(a).max(f(b)),
        Calc::Pow(a, b) => f(a).powf(f(b)),
        Calc::Neg(a) => -f(a),
        Calc::Sqrt(a) => f(a).sqrt(),
        Calc::Exp(a) => f(a).exp(),
        Calc::Ln(a) => f(a).ln(),
        Calc::Sin(a) => f(a).sin(),
        Calc::Cos(a) => f(a).cos(),
        Calc::OfCount(n) => n as f32,
        _ => panic!("a calculation that kernels do not need"),
    };
    r.to_bits()
}

fn bits(x: &[f32]) -> Vec<u32> {
    x.iter().map(|v| v.to_bits()).collect()
}

fn numbers(x: &[u32]) -> Vec<f32> {
    x.iter().map(|&b| f32::from_bits(b)).collect()
}

/// Some numbers, different ones for every seed.
fn some(n: usize, seed: u32) -> Vec<f32> {
    let mut s = seed;
    (0..n)
        .map(|_| {
            s = s.wrapping_mul(1664525).wrapping_add(1013904223);
            (s >> 16) as f32 / 65536.0 - 0.5
        })
        .collect()
}

/// All of `n` threads and two more, the last ones first.
fn threads(n: usize) -> Vec<usize> {
    (0..n + 2).rev().collect()
}

fn close(a: &[u32], b: &[f32]) {
    let a = numbers(a);
    assert_eq!(a.len(), b.len());
    for (x, y) in a.iter().zip(b) {
        assert!((x - y).abs() < 1e-4, "{a:?} != {b:?}");
    }
}

fn silu(x: f32) -> f32 {
    x / (1.0 + (-x).exp())
}

fn sigmoid(x: f32) -> f32 {
    1.0 / (1.0 + (-x).exp())
}

fn rms(x: &[f32], eps: f32) -> f32 {
    (x.iter().map(|v| v * v).sum::<f32>() / x.len() as f32 + eps).sqrt()
}

const EPS: f32 = 1e-5;

#[test]
fn elementwise_threads() {
    let (a, b) = (some(5, 1), some(5, 2));
    let (x, y) = (bits(&a), bits(&b));
    let (mut s, mut g, mut r) = (vec![0; 5], vec![0; 5], vec![0; 5]);
    for t in threads(5) {
        silu_mul(t, &x, &y, &mut s, &calc);
        sigmoid_mul(t, &x, &y, &mut g, &calc);
        residual_add(t, &x, &y, &mut r, &calc);
    }
    close(&s, &(0..5).map(|i| silu(a[i]) * b[i]).collect::<Vec<_>>());
    close(&g, &(0..5).map(|i| a[i] * sigmoid(b[i])).collect::<Vec<_>>());
    close(&r, &(0..5).map(|i| a[i] + b[i]).collect::<Vec<_>>());
}

#[test]
fn one_thread_writes_one_element() {
    let mut out = vec![7; 3];
    silu_mul(1, &bits(&[1.0; 3]), &bits(&[1.0; 3]), &mut out, &calc);
    assert_eq!((out[0], out[2]), (7, 7));
    assert_ne!(out[1], 7);
    silu_mul(3, &bits(&[1.0; 3]), &bits(&[1.0; 3]), &mut out, &calc);
    assert_eq!((out[0], out[2]), (7, 7));
}

#[test]
fn split_threads() {
    // Two heads of three elements, each with its gate.
    let raw: Vec<u32> = (0..12).collect();
    let (mut q, mut gate) = (vec![99; 6], vec![99; 6]);
    for t in threads(6) {
        split_qg(t, &raw, &mut q, &mut gate, 3);
    }
    assert_eq!(q, vec![0, 1, 2, 6, 7, 8]);
    assert_eq!(gate, vec![3, 4, 5, 9, 10, 11]);
}

#[test]
fn norm_threads() {
    let (x, d, w) = (some(6, 1), some(6, 2), some(6, 3));
    let mut out = vec![0; 6];
    let (mut sum, mut normed) = (vec![0; 6], vec![0; 6]);
    for t in threads(1) {
        rms_norm(t, &bits(&x), &bits(&w), &mut out, EPS.to_bits(), &calc);
        let (a, b, c) = (bits(&x), bits(&d), bits(&w));
        add_residual_rms_norm(t, &a, &b, &c, &mut sum, &mut normed, EPS.to_bits(), &calc);
    }
    close(&out, &(0..6).map(|i| x[i] / rms(&x, EPS) * w[i]).collect::<Vec<_>>());
    let y: Vec<f32> = (0..6).map(|i| x[i] + d[i]).collect();
    close(&sum, &y);
    close(&normed, &(0..6).map(|i| y[i] / rms(&y, EPS) * w[i]).collect::<Vec<_>>());
}

fn rotated(x: &[f32], len: usize, n_rot: usize, pos: usize) -> Vec<f32> {
    let mut y = x.to_vec();
    let half = n_rot / 2;
    for h in 0..x.len() / len {
        for d in 0..half {
            let by = pos as f32 / 10000f32.powf(2.0 * d as f32 / n_rot as f32);
            let (i, j) = (h * len + d, h * len + d + half);
            y[i] = x[i] * by.cos() - x[j] * by.sin();
            y[j] = x[i] * by.sin() + x[j] * by.cos();
        }
    }
    y
}

#[test]
fn rotation_threads() {
    let x = some(12, 1);
    for n_rot in [6, 4, 0] {
        let mut y = bits(&x);
        for t in threads(2 * (n_rot / 2)) {
            rope(t, &mut y, 2, 6, n_rot, 3, 10000f32.to_bits(), &calc);
        }
        close(&y, &rotated(&x, 6, n_rot, 3));
    }
}

#[test]
fn head_threads() {
    let (x, w, z) = (some(12, 1), some(6, 2), some(12, 3));
    let (mut y, mut g) = (bits(&x), bits(&x));
    for t in threads(2) {
        let theta = 10000f32.to_bits();
        qk_norm_rope(t, &mut y, &bits(&w), 2, 6, EPS.to_bits(), 4, 3, theta, &calc);
        gdn_gated_rms_norm(t, &mut g, &bits(&w), &bits(&z), 2, 6, EPS.to_bits(), &calc);
    }
    let normed: Vec<f32> = (0..12)
        .map(|i| w[i % 6] * x[i] / rms(&x[i / 6 * 6..i / 6 * 6 + 6], EPS))
        .collect();
    close(&y, &rotated(&normed, 6, 4, 3));
    close(&g, &(0..12).map(|i| normed[i] * silu(z[i])).collect::<Vec<_>>());
}

#[test]
fn key_norm_threads() {
    // Two heads of queries, two of keys, and three values.
    let x = some(2 * 6 + 3, 1);
    let mut y = bits(&x);
    for t in threads(4) {
        l2_norm_heads(t, &mut y, 0, 6, 2, 3, EPS.to_bits(), &calc);
    }
    let expected: Vec<f32> = (0..15)
        .map(|i| {
            if i < 12 {
                let head = &x[i / 3 * 3..i / 3 * 3 + 3];
                x[i] / (head.iter().map(|v| v * v).sum::<f32>() + EPS).sqrt()
            } else {
                x[i]
            }
        })
        .collect();
    close(&y, &expected);
}

#[test]
fn gate_and_decay_threads() {
    let (b, a, rate) = (some(3, 1), vec![0.5f32, 30.0, -1.0], some(3, 4));
    let bias = some(3, 5);
    let (mut beta, mut alpha) = (bits(&b), bits(&a));
    for t in threads(3) {
        gdn_gate_decay(t, &mut beta, &mut alpha, &bits(&rate), &bits(&bias), &calc);
    }
    close(&beta, &(0..3).map(|i| sigmoid(b[i])).collect::<Vec<_>>());
    let softplus = |v: f32| if v > 20.0 { v } else { (1.0 + v.exp()).ln() };
    let expected: Vec<f32> =
        (0..3).map(|i| (rate[i] * softplus(a[i] + bias[i])).exp()).collect();
    close(&alpha, &expected);
}

#[test]
fn convolution_threads() {
    let (d, l) = (3, 3);
    let (bcx, w, past) = (some(9, 1), some(9, 2), some(6, 3));
    let (mut history, mut out) = (bits(&past), vec![0; 3]);
    for t in threads(3) {
        short_conv(t, &bits(&bcx), &bits(&w), &mut history, &mut out, l, &calc);
    }
    let input: Vec<f32> = (0..d).map(|c| bcx[c] * bcx[2 * d + c]).collect();
    let sum = |c: usize, input: &[f32]| {
        w[c * l] * past[c] + w[c * l + 1] * past[d + c] + w[c * l + 2] * input[c]
    };
    close(&out, &(0..d).map(|c| bcx[d + c] * sum(c, &input)).collect::<Vec<_>>());
    close(&history, &[&past[3..], &input[..]].concat());

    let dims = GdnDims { conv_dim: 3, d_conv: 3, ..small_dims() };
    let x = some(3, 9);
    let (mut history, mut out) = (bits(&past), vec![0; 3]);
    for t in threads(3) {
        causal_conv1d_silu(t, &bits(&x), &bits(&w), &mut history, &mut out, &dims, &calc);
    }
    close(&out, &(0..d).map(|c| silu(sum(c, &x))).collect::<Vec<_>>());
    close(&history, &[&past[3..], &x[..]].concat());
}

#[test]
fn convolution_without_a_history() {
    let (mut history, mut out) = (vec![], vec![0; 2]);
    for t in threads(2) {
        let bcx = bits(&[2.0, 3.0, 1.0, 1.0, 5.0, 7.0]);
        short_conv(t, &bcx, &bits(&[1.0, 10.0]), &mut history, &mut out, 1, &calc);
    }
    close(&out, &[10.0, 210.0]);
}

/// One key head for two value heads.
fn small_dims() -> GdnDims {
    GdnDims {
        conv_dim: 2 * 2 + 6,
        key_dim: 2,
        value_dim: 6,
        n_k_heads: 1,
        n_v_heads: 2,
        head_k_dim: 2,
        head_v_dim: 3,
        d_conv: 2,
    }
}

#[test]
fn recurrence_threads() {
    let dims = small_dims();
    let (s, qkv) = (some(12, 1), some(10, 2));
    let (beta, decay) = (some(2, 3), some(2, 4));
    let scale = 0.5f32;
    let (mut state, mut out) = (bits(&s), vec![0; 6]);
    for h in [1, 0] {
        for b in threads(3) {
            let (x, y, z) = (bits(&qkv), bits(&beta), bits(&decay));
            gdn_recurrence(
                h,
                b,
                &mut state,
                &x,
                &y,
                &z,
                &mut out,
                &dims,
                scale.to_bits(),
                &calc,
            );
        }
    }
    let (q, k, v) = (&qkv[..2], &qkv[2..4], &qkv[4..]);
    let mut new = s.clone();
    let mut expected = vec![0.0; 6];
    for h in 0..2 {
        for b in 0..3 {
            let at = |a: usize| (h * 2 + a) * 3 + b;
            let pred: f32 = (0..2).map(|a| s[at(a)] * k[a]).sum();
            let delta = beta[h] * (v[h * 3 + b] - pred);
            for a in 0..2 {
                new[at(a)] = decay[h] * s[at(a)] + k[a] * delta;
            }
            expected[h * 3 + b] = (0..2).map(|a| scale * q[a] * new[at(a)]).sum();
        }
    }
    close(&state, &new);
    close(&out, &expected);
}

#[test]
fn cache_write_threads() {
    let (mut k, mut v) = (vec![0; 6], vec![0; 6]);
    for t in threads(2) {
        kv_cache_write(t, &mut k, &mut v, &[1, 2], &[3, 4], 1);
    }
    assert_eq!(k, vec![0, 0, 1, 2, 0, 0]);
    assert_eq!(v, vec![0, 0, 3, 4, 0, 0]);
}

#[test]
fn attention_threads() {
    // Four query heads on two K/V heads of three elements, at the third position.
    let (heads, kv_heads, len, pos, slots) = (4, 2, 3, 2, 5);
    let q = some(heads * len, 1);
    let (k, v) = (some(slots * kv_heads * len, 2), some(slots * kv_heads * len, 3));
    let mut scores = vec![0; heads * slots];
    let (mut weights, mut sums) = (vec![0; heads * slots], vec![0; heads]);
    let mut out = vec![0; heads * len];
    for t in threads(heads * (pos + 1)) {
        let (q, k) = (bits(&q), bits(&k));
        attention_scores(t, &q, &k, &mut scores, pos, len, heads, kv_heads, slots, &calc);
    }
    for t in threads(heads) {
        attention_softmax(t, &scores, &mut weights, &mut sums, pos, heads, slots, &calc);
    }
    for t in threads(heads * len) {
        let v = bits(&v);
        attention_output(
            t, &v, &weights, &sums, &mut out, pos, len, heads, kv_heads, slots, &calc,
        );
    }
    let mut expected = vec![];
    for h in 0..heads {
        let kv = |t: usize| t * kv_heads * len + h / 2 * len;
        let scores: Vec<f32> = (0..=pos)
            .map(|t| {
                let dot: f32 = (0..len).map(|d| q[h * len + d] * k[kv(t) + d]).sum();
                (dot / (len as f32).sqrt()).exp()
            })
            .collect();
        let total: f32 = scores.iter().sum();
        for d in 0..len {
            expected.push((0..=pos).map(|t| scores[t] / total * v[kv(t) + d]).sum());
        }
    }
    close(&out, &expected);
}

#[test]
fn half_precision_numbers() {
    for v in [0.0f32, 1.0, -2.5, 0.333251953125, 65504.0, 6.1035156e-5, 5.9604645e-8, -3.0e-6] {
        let h = half::f16::from_f32(v);
        let [lo, hi] = h.to_bits().to_le_bytes();
        assert_eq!(f32::from_bits(f16_to_f32(lo, hi, &calc)), h.to_f32());
    }
}
