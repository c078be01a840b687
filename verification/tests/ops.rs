use gguf_rs::calc::Calc;
use gguf_rs::ops::backend_select::{has_gpu_kernel, named_backend};
use gguf_rs::ops::cpu_backend::matmul_dequant;
use gguf_rs::ops::kernels_u8;
use gguf_rs::ops::lanes::{matmul_dequant_wgpu, read_byte};
use gguf_rs::ops::launch::{matmul_grid, pack_bytes_to_u32, workgroups};
use gguf_rs::ops::trace::{total_traced_bytes, Timer, TraceFormat};
use gguf_rs::ops::{
    act_decode, act_encode, warmup_shapes, AnyBackend, BackendPreference, WgpuDevice, ACT_SIZE,
};
use gguf_rs::quant::block::Element;
use gguf_rs::types::GgmlType;

#[test]
fn one_kernel_for_each_dtype() {
    let uploaded = [
        (GgmlType::Q8_0, 64),
        (GgmlType::Q4_K, 256),
        (GgmlType::Q8_0, 128),
    ];
    assert_eq!(
        warmup_shapes(AnyBackend::Wgpu(WgpuDevice::Default), &uploaded),
        vec![(GgmlType::Q8_0, 64), (GgmlType::Q4_K, 256)]
    );
    assert!(warmup_shapes(AnyBackend::Cpu, &uploaded).is_empty());
    assert!(has_gpu_kernel(GgmlType::Q6_K) && !has_gpu_kernel(GgmlType::F16));
}

#[test]
fn grids_cover_all_rows() {
    assert_eq!(matmul_grid(1), (1, 1));
    assert_eq!(matmul_grid(65535), (65535, 1));
    assert_eq!(matmul_grid(65536), (65535, 2));
    assert_eq!(matmul_grid(151936), (65535, 3));
    assert_eq!(workgroups(64), 1);
    assert_eq!(workgroups(65), 2);
    assert_eq!(workgroups(0), 0);
}

#[test]
fn rows_begin_with_a_word() {
    let w: Vec<u8> = (1..=10).collect();
    let packed = pack_bytes_to_u32(&w, 5, 2, 2);
    assert_eq!(packed, vec![0x04030201, 0x00000005, 0x09080706, 0x0000000A]);
    let packed = pack_bytes_to_u32(&w, 5, 2, 3);
    assert_eq!(packed, vec![0x04030201, 0x00000005, 0, 0x09080706, 0x0000000A, 0]);
    assert!(pack_bytes_to_u32(&w, 5, 0, 0).is_empty());
}

#[test]
fn names_of_backends() {
    assert_eq!(named_backend("metal"), Some(BackendPreference::Metal));
    assert_eq!(named_backend("wgpu"), Some(BackendPreference::Wgpu));
    assert_eq!(named_backend("cpu"), Some(BackendPreference::Cpu));
    assert_eq!(named_backend("tpu"), None);
}

#[test]
fn tracing_settings() {
    assert_eq!(gguf_rs::ops::trace::format(Some("json")), TraceFormat::Json);
    assert_eq!(gguf_rs::ops::trace::format(Some("1")), TraceFormat::Text);
    assert_eq!(gguf_rs::ops::trace::format(None), TraceFormat::Text);
    assert!(Timer::new(false, "k").is_silent());
    assert!(!Timer::new(true, "k").is_silent());
    assert_eq!(Timer::new_with_size(true, "k", 9).tensor_bytes, Some(9));
    assert_eq!(Timer::new_with_size(false, "k", 9).tensor_bytes, None);
    assert_eq!(total_traced_bytes(&[Some(3), None, Some(4)]), Some(7));
    assert_eq!(total_traced_bytes(&[Some(u64::MAX), Some(1)]), None);
}

fn half(bits: u16) -> f32 {
    half::f16::from_bits(bits).to_f32()
}

fn within(acc: f32, q: i32, x: f32) -> f32 {
    acc + q as f32 * x
}

fn scaled(acc: f32, d: u16, block: f32) -> f32 {
    acc + half(d) * block
}

fn take_in(acc: f32, e: Element, x: f32) -> f32 {
    match e {
        Element::Quantized(w) => {
            acc + ((half(w.d) * w.scale as f32) * w.quant as f32 - half(w.dmin) * w.min as f32) * x
        }
        _ => panic!("quantized weights expected"),
    }
}

#[test]
fn bytes_of_words() {
    let w = [0x04030201u32, 0x08070605];
    let bytes: Vec<u8> = (0..8).map(|o| read_byte(&w, o)).collect();
    assert_eq!(bytes, vec![1, 2, 3, 4, 5, 6, 7, 8]);
}

#[test]
fn workgroups_compute_what_the_cpu_computes() {
    // Three rows; the last block of a row is not full.
    for (dtype, n) in [
        (GgmlType::Q8_0, 2100usize),
        (GgmlType::Q4_K, 2500),
        (GgmlType::Q5_K, 700),
        (GgmlType::Q6_K, 300),
    ] {
        let row_bytes = dtype.type_size(n);
        let rows = 3;
        let block = dtype.block_bytes();
        let mut w: Vec<u8> = (0..rows * row_bytes).map(|i| (i * 37 % 251) as u8).collect();
        // Scales that are neither huge nor not-a-number.
        let one = half::f16::from_f32(0.01).to_bits().to_le_bytes();
        for b in 0..rows * row_bytes / block {
            let at = if dtype == GgmlType::Q6_K { b * block + 208 } else { b * block };
            w[at..at + 2].copy_from_slice(&one);
            if dtype == GgmlType::Q4_K || dtype == GgmlType::Q5_K {
                w[at + 2..at + 4].copy_from_slice(&one);
            }
        }
        let x: Vec<f32> = (0..n).map(|i| ((i % 13) as f32 - 6.0) * 0.1).collect();
        let mut expected = vec![0.0f32; rows];
        let plus = |a: f32, b: f32| a + b;
        matmul_dequant(dtype, &w, &x, &mut expected, 0.0, &within, &scaled, &take_in, &plus)
            .unwrap();
        let packed = pack_bytes_to_u32(&w, row_bytes, rows, row_bytes.div_ceil(4));
        let (grid_x, grid_y) = matmul_grid(rows as u32);
        let mut out = vec![f32::NAN; rows];
        for cube_y in 0..grid_y {
            for cube_x in 0..grid_x {
                matmul_dequant_wgpu(
                    &packed,
                    &x,
                    &mut out,
                    dtype.id(),
                    (row_bytes + 3) / 4,
                    grid_x,
                    cube_x,
                    cube_y,
                    0.0,
                    &within,
                    &scaled,
                    &take_in,
                    &|a: f32, b: f32| a + b,
                );
            }
        }
        for r in 0..rows {
            let scale = expected[r].abs().max(1.0);
            assert!(
                (out[r] - expected[r]).abs() / scale < 1e-3,
                "{} row {r}: {} != {}",
                dtype.name(),
                out[r],
                expected[r]
            );
        }
    }
}

#[test]
fn workgroup_past_the_last_row_does_nothing() {
    let mut out = vec![7.0f32; 1];
    matmul_dequant_wgpu(
        &[],
        &[1.0f32],
        &mut out,
        GgmlType::Q8_0.id(),
        9,
        1,
        0,
        1,
        0.0,
        &within,
        &scaled,
        &take_in,
        &|a: f32, b: f32| a + b,
    );
    assert_eq!(out, vec![7.0]);
}

#[test]
fn activations_read_back() {
    let calc = |c: Calc| match c {
        Calc::ToHalf(a) => half::f16::from_f32(f32::from_bits(a)).to_bits() as u32,
        Calc::OfHalf(h) => half::f16::from_bits(h).to_f32().to_bits(),
        _ => 0,
    };
    let x: Vec<u32> = [1.5f32, -2.0, 0.0].iter().map(|v| v.to_bits()).collect();
    let bytes = act_encode(&x, &calc);
    assert_eq!(bytes, vec![0x00, 0x3e, 0x00, 0xc0, 0x00, 0x00]);
    assert_eq!(bytes.len(), ACT_SIZE * x.len());
    assert_eq!(act_decode(&bytes, 3, &calc), x);
    assert_eq!(act_decode(&bytes, 2, &calc), &x[..2]);
    assert_eq!(act_decode(&bytes[..5], 9, &calc), &x[..2]);
    // A third is not a number of half precision.
    let third = [(1.0f32 / 3.0).to_bits()];
    let read = act_decode(&act_encode(&third, &calc), 1, &calc);
    assert_eq!(f32::from_bits(read[0]), 0.33325195);
}

#[test]
fn byte_kernels_compute_what_the_cpu_computes() {
    for (dtype, n) in [(GgmlType::Q8_0, 70usize), (GgmlType::Q4_K, 300), (GgmlType::Q6_K, 300)] {
        let row_bytes = dtype.type_size(n);
        let rows = 2;
        let w: Vec<u8> = (0..rows * row_bytes).map(|i| (i * 37 % 59) as u8).collect();
        let x: Vec<f32> = (0..n).map(|i| ((i % 13) as f32 - 6.0) * 0.1).collect();
        let mut expected = vec![0.0f32; rows];
        let plus = |a: f32, b: f32| a + b;
        matmul_dequant(dtype, &w, &x, &mut expected, 0.0, &within, &scaled, &take_in, &plus)
            .unwrap();
        let mut out = vec![7.0f32; rows];
        for row in 0..rows + 1 {
            kernels_u8::matmul_dequant(
                &w,
                &x,
                &mut out,
                dtype.id(),
                row_bytes,
                row,
                0.0,
                &within,
                &scaled,
                &take_in,
            );
        }
        // The sums of Q4_K are rounded in another order.
        for (o, e) in out.iter().zip(&expected) {
            let close = (o - e).abs() <= 1e-4 * e.abs().max(1.0);
            assert!(if dtype == GgmlType::Q4_K { close } else { o == e }, "{o} != {e}");
        }
        assert_ne!(out, vec![7.0; rows]);
    }
}

#[test]
fn byte_kernels_leave_other_formats_alone() {
    let mut out = vec![7.0f32; 1];
    let (dtype, x) = (GgmlType::Q5_K.id(), [1.0f32]);
    kernels_u8::matmul_dequant(&[], &x, &mut out, dtype, 0, 0, 0.0, &within, &scaled, &take_in);
    assert_eq!(out, vec![7.0]);
}
