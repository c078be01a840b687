use std::time::Duration;

use gguf_rs::runner::{chat_prompt, compare_runs, Drift, Generation};
use gguf_rs::tokenizer::{build_byte_maps, Tokenizer};
use gguf_rs::types::{GgufFile, Metadata, MetadataArrayType, MetadataValue};

fn strings(items: Vec<String>) -> MetadataValue {
    MetadataValue::Array(
        MetadataArrayType::String,
        items.into_iter().map(MetadataValue::String).collect(),
    )
}

/// One token for each byte.
fn bytes_only() -> Tokenizer {
    let (b2c, _) = build_byte_maps();
    let mut metadata = Metadata::new();
    metadata.insert(
        "tokenizer.ggml.model".to_string(),
        MetadataValue::String("gpt2".to_string()),
    );
    metadata.insert(
        "tokenizer.ggml.tokens".to_string(),
        strings(b2c.iter().map(|c| c.to_string()).collect()),
    );
    metadata.insert("tokenizer.ggml.merges".to_string(), strings(vec![]));
    let gguf = GgufFile { version: 3, tensor_count: 0, metadata, tensors: vec![], data_offset: 0 };
    Tokenizer::from_gguf(&gguf).unwrap()
}

#[test]
fn generation_runs_to_its_limit() {
    let t = bytes_only();
    let mut g = Generation::start(vec![1, 2, 3], 2, 100, None).unwrap();
    assert!(g.active());
    assert_eq!(g.accept(b'h' as u32, &t), Some(3));
    assert_eq!(g.accept(b'i' as u32, &t), Some(4));
    assert!(!g.active());
    let r = g.finish("cpu".to_string(), Duration::from_secs(1), Duration::from_secs(2));
    assert_eq!(r.prompt_ids, vec![1, 2, 3]);
    assert_eq!(r.token_ids, vec![b'h' as u32, b'i' as u32]);
    assert_eq!(r.text, "hi");
    assert_eq!(r.backend, "cpu");
    assert_eq!(r.prefill, Duration::from_secs(1));
    assert_eq!(r.decode, Duration::from_secs(2));
    assert!(!r.stopped_eos);
}

#[test]
fn generation_ends_with_the_context() {
    let t = bytes_only();
    let mut g = Generation::start(vec![1, 2, 3], 10, 4, None).unwrap();
    assert_eq!(g.accept(5, &t), Some(3));
    assert!(!g.active());
    assert!(!Generation::start(vec![1, 2, 3], 10, 3, None).unwrap().active());
}

#[test]
fn generation_stops_at_the_end_token() {
    let t = bytes_only();
    let mut g = Generation::start(vec![1], 10, 100, Some(7)).unwrap();
    let logits: Vec<u32> = (0..10)
        .map(|i| if i == 7 { 2.0f32 } else { 0.0f32 }.to_bits())
        .collect();
    assert_eq!(g.accept_greedy(&logits, &t), None);
    assert!(g.stopped_eos);
    assert!(!g.active());
    assert!(g.token_ids.is_empty());
}

#[test]
fn empty_prompt_is_refused() {
    let e = Generation::start(vec![], 10, 100, None).err().unwrap();
    assert_eq!(e.message(), "backend error: prompt encoded to zero tokens");
}

#[test]
fn broken_text_is_shown_with_replacement() {
    let t = bytes_only();
    let mut g = Generation::start(vec![1], 2, 100, None).unwrap();
    g.accept(0xC3, &t);
    let r = g.finish("cpu".to_string(), Duration::ZERO, Duration::ZERO);
    assert_eq!(r.text, "\u{fffd}");
}

#[test]
fn drift_of_two_runs() {
    assert_eq!(compare_runs(&[1, 2, 3], &[1, 2, 3]), Drift::Clean);
    assert_eq!(compare_runs(&[1, 2, 3], &[1, 9, 3]), Drift::Diverges(1));
    assert_eq!(compare_runs(&[1, 2], &[1, 2, 3]), Drift::LengthMismatch);
}

#[test]
fn prompt_of_a_chat() {
    let s = chat_prompt("hi");
    assert_eq!(s, "<|im_start|>user\nhi<|im_end|>\n<|im_start|>assistant\n");
}
