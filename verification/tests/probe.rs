//! Which tensors are timed and checked.

use gguf_rs::probe::{checked_tensor, is_mentioned, largest_projection};
use gguf_rs::types::{GgmlType, TensorInfo};

fn tensor(name: &str, ggml_type: GgmlType, dims: &[u64]) -> TensorInfo {
    TensorInfo {
        name: name.to_string(),
        n_dims: dims.len() as u32,
        dims: dims.to_vec(),
        ggml_type,
        byte_offset: 0,
    }
}

fn some_tensors() -> Vec<TensorInfo> {
    vec![
        tensor("token_embd.weight", GgmlType::Q4_K, &[4096, 32000]),
        tensor("blk.0.attn_q.weight", GgmlType::Q8_0, &[4096, 64]),
        tensor("blk.0.ffn_down.weight", GgmlType::Q4_K, &[8192, 64]),
        tensor("blk.0.attn_v.weight", GgmlType::Q8_0, &[64, 4096]),
        tensor("blk.0.attn_norm.weight", GgmlType::Q8_0, &[4096]),
        tensor("blk.0.attn_output.weight", GgmlType::Q8_0, &[4096, 4096]),
    ]
}

#[test]
fn words_are_found_in_names() {
    assert!(is_mentioned("blk.0.attn_output.weight", "output"));
    assert!(is_mentioned("output", "output"));
    assert!(is_mentioned("anything", ""));
    assert!(!is_mentioned("blk.0.attn_q.weight", "output"));
    assert!(!is_mentioned("out", "output"));
}

#[test]
fn largest_projection_is_neither_embedding_nor_output() {
    let t = some_tensors();
    assert_eq!(largest_projection(&t, &[GgmlType::Q8_0, GgmlType::Q4_K], None), Some(2));
}

#[test]
fn of_equally_large_projections_the_last_is_taken() {
    let t = some_tensors();
    assert_eq!(largest_projection(&t, &[GgmlType::Q8_0], None), Some(3));
    assert_eq!(largest_projection(&t, &[GgmlType::Q8_0, GgmlType::Q4_K], Some(4096)), Some(3));
    assert_eq!(largest_projection(&t, &[GgmlType::Q8_0], Some(64)), Some(3));
    assert_eq!(largest_projection(&t, &[GgmlType::Q8_0], Some(63)), None);
}

#[test]
fn no_projection_in_a_missing_format() {
    assert_eq!(largest_projection(&some_tensors(), &[GgmlType::Q6_K], None), None);
    assert_eq!(largest_projection(&some_tensors(), &[], None), None);
    assert_eq!(largest_projection(&[], &[GgmlType::Q8_0], None), None);
}

#[test]
fn checked_tensor_is_named_or_the_first_in_q4_k() {
    let t = some_tensors();
    assert_eq!(checked_tensor(&t, None), Some(0));
    assert_eq!(checked_tensor(&t[1..], None), Some(1));
    assert_eq!(checked_tensor(&t[3..], None), None);
    assert_eq!(checked_tensor(&t, Some("blk.0.attn_v.weight")), Some(3));
    assert_eq!(checked_tensor(&t, Some("blk.0.attn_v")), None);
}
