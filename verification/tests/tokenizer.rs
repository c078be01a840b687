use gguf_rs::tokenizer::{build_byte_maps, pretokenize};

#[test]
fn byte_maps_are_bijective() {
    let (b2c, c2b) = build_byte_maps();
    for b in 0..256usize {
        assert_eq!(c2b[&(b2c[b] as u32)], b as u8);
    }
    assert_eq!(c2b.len(), 256);
    // Known GPT-2 anchors.
    assert_eq!(b2c[b' ' as usize], '\u{0120}'); // 'Ġ'
    assert_eq!(b2c[b'\n' as usize], '\u{010A}'); // 'Ċ'
    assert_eq!(b2c[b'!' as usize], '!');
}

#[test]
fn pretokenize_basic() {
    assert_eq!(pretokenize("hello world"), vec!["hello", " world"]);
    assert_eq!(pretokenize("it's"), vec!["it", "'s"]);
    assert_eq!(pretokenize("a1"), vec!["a", "1"]);
}

#[test]
fn pretokenize_trailing_space_prefixes_next() {
    // Two spaces: first is a standalone ws run, second prefixes "b".
    assert_eq!(pretokenize("a  b"), vec!["a", " ", " b"]);
}

use gguf_rs::error::GgufError;
use gguf_rs::tokenizer::Tokenizer;
use gguf_rs::types::{GgufFile, Metadata, MetadataArrayType, MetadataValue};

fn strings(items: &[&str]) -> MetadataValue {
    MetadataValue::Array(
        MetadataArrayType::String,
        items.iter().map(|s| MetadataValue::String(s.to_string())).collect(),
    )
}

fn file(entries: Vec<(&str, MetadataValue)>) -> GgufFile {
    let mut metadata = Metadata::new();
    for (k, v) in entries {
        metadata.insert(k.to_string(), v);
    }
    GgufFile { version: 3, tensor_count: 0, metadata, tensors: vec![], data_offset: 0 }
}

/// All single bytes, two merges, and two special tokens.
fn small_vocabulary() -> GgufFile {
    let (b2c, _) = build_byte_maps();
    let mut tokens: Vec<String> = b2c.iter().map(|c| c.to_string()).collect();
    tokens.push("he".to_string()); // 256
    tokens.push("hel".to_string()); // 257
    tokens.push("<|end|>".to_string()); // 258
    tokens.push("<|end|>!".to_string()); // 259
    let token_refs: Vec<&str> = tokens.iter().map(|s| s.as_str()).collect();
    let types: Vec<MetadataValue> = (0..tokens.len())
        .map(|i| MetadataValue::I32(if i == 258 { 3 } else if i == 259 { 4 } else { 1 }))
        .collect();
    file(vec![
        ("tokenizer.ggml.model", MetadataValue::String("gpt2".to_string())),
        ("tokenizer.ggml.tokens", strings(&token_refs)),
        ("tokenizer.ggml.merges", strings(&["h e", "he l"])),
        ("tokenizer.ggml.token_type", MetadataValue::Array(MetadataArrayType::I32, types)),
        ("tokenizer.ggml.bos_token_id", MetadataValue::U32(258)),
        ("tokenizer.ggml.add_bos_token", MetadataValue::Bool(true)),
    ])
}

#[test]
fn merges_apply_by_rank() {
    let t = Tokenizer::from_gguf(&small_vocabulary()).unwrap();
    assert_eq!(t.vocab_size(), 260);
    assert_eq!(t.encode_ordinary("hello"), vec![257, b'l' as u32, b'o' as u32]);
    assert_eq!(t.encode_ordinary("ehe"), vec![b'e' as u32, 256]);
}

#[test]
fn special_tokens_stand_for_themselves() {
    let t = Tokenizer::from_gguf(&small_vocabulary()).unwrap();
    assert!(t.specials_nonempty());
    // The longer of two tokens at one place is taken; the beginning token comes first.
    assert_eq!(t.encode("he<|end|>!x"), vec![258, 256, 259, b'x' as u32]);
    assert_eq!(t.encode("<|end|>?"), vec![258, 258, b'?' as u32]);
    assert_eq!(t.encode(""), vec![258]);
}

#[test]
fn the_empty_special_token() {
    let (b2c, _) = build_byte_maps();
    let mut tokens: Vec<String> = b2c.iter().map(|c| c.to_string()).collect();
    tokens.push(String::new()); // 256
    tokens.push("<|end|>".to_string()); // 257
    let token_refs: Vec<&str> = tokens.iter().map(|s| s.as_str()).collect();
    let types: Vec<MetadataValue> =
        (0..tokens.len()).map(|i| MetadataValue::I32(if i >= 256 { 3 } else { 1 })).collect();
    let t = Tokenizer::from_gguf(&file(vec![
        ("tokenizer.ggml.model", MetadataValue::String("gpt2".to_string())),
        ("tokenizer.ggml.tokens", strings(&token_refs)),
        ("tokenizer.ggml.merges", strings(&[])),
        ("tokenizer.ggml.token_type", MetadataValue::Array(MetadataArrayType::I32, types)),
    ]))
    .unwrap();
    assert!(!t.specials_nonempty());
    // Where nothing or only longer tokens stand, the encoding comes to an end.
    assert!(t.can_encode(""));
    assert_eq!(t.encode_ordinary(""), Vec::<u32>::new());
    assert!(t.can_encode("<|end|><|end|>"));
    assert_eq!(t.encode("<|end|><|end|>"), vec![257, 257]);
    assert!(!t.can_encode("a"));
    assert!(!t.can_encode("<|end|>a<|end|>"));
    assert!(Tokenizer::from_gguf(&small_vocabulary()).unwrap().can_encode("a"));
}

#[test]
fn characters_that_are_white_space() {
    let mut white: Vec<u32> = vec![0x85, 0xA0, 0x1680, 0x2028, 0x2029, 0x202F, 0x205F, 0x3000];
    white.extend(0x9..=0xD);
    white.extend(0x2000..=0x200A);
    for code in white {
        let c = char::from_u32(code).unwrap();
        assert_eq!(pretokenize(&format!("{c}!")), vec![c.to_string(), "!".to_string()]);
    }
    assert_eq!(pretokenize(" !"), vec![" !"]);
    // Controls and marks next to them are not.
    for code in [0x8, 0xE, 0x1F, 0x84, 0x86, 0xA1, 0x180E, 0x200B, 0x2027, 0x202A, 0x2060, 0xFEFF]
    {
        let text = format!("{}!", char::from_u32(code).unwrap());
        assert_eq!(pretokenize(&text), vec![text.clone()]);
    }
}

#[test]
fn decoding_gives_the_text_back() {
    let t = Tokenizer::from_gguf(&small_vocabulary()).unwrap();
    for text in ["hello world", "na\u{ef}ve \u{4f60}\u{597d} \u{1f600}\n", "  two  spaces "] {
        assert_eq!(t.decode(&t.encode_ordinary(text)), text);
    }
    assert_eq!(t.id_to_piece(257), "hel");
    assert_eq!(t.token_bytes(9999), Vec::<u8>::new());
}

#[test]
fn incomplete_text_is_decoded_with_replacement() {
    let t = Tokenizer::from_gguf(&small_vocabulary()).unwrap();
    assert_eq!(t.decode(&[0xC3]), "\u{fffd}");
    assert_eq!(t.decode(&[0xC3, 0xA9]), "\u{e9}");
}

#[test]
fn words_of_other_scripts() {
    assert_eq!(
        pretokenize("caf\u{e9} \u{661}\u{662} \u{2014}x"),
        vec!["caf\u{e9}", " \u{661}\u{662}", " \u{2014}", "x"]
    );
    assert_eq!(pretokenize("a\u{3000}b"), vec!["a", "\u{3000}", "b"]);
}

#[test]
fn what_a_tokenizer_needs() {
    let missing = |e: GgufError| match e {
        GgufError::MissingMetadata(k) => k,
        _ => panic!("another error was expected"),
    };
    assert_eq!(
        missing(Tokenizer::from_gguf(&file(vec![])).err().unwrap()),
        "tokenizer.ggml.model"
    );
    let spm = file(vec![("tokenizer.ggml.model", MetadataValue::String("a\"b".to_string()))]);
    assert_eq!(
        Tokenizer::from_gguf(&spm).err().unwrap().message(),
        "backend error: unsupported tokenizer model \"a\\\"b\" (only gpt2 BPE is implemented)"
    );
    let gpt2 = || ("tokenizer.ggml.model", MetadataValue::String("gpt2".to_string()));
    assert_eq!(
        missing(Tokenizer::from_gguf(&file(vec![gpt2()])).err().unwrap()),
        "tokenizer.ggml.tokens"
    );
    let tokens = ("tokenizer.ggml.tokens", strings(&["a"]));
    assert_eq!(
        missing(Tokenizer::from_gguf(&file(vec![gpt2(), tokens])).err().unwrap()),
        "tokenizer.ggml.merges"
    );
}

#[test]
fn ids_are_appended() {
    let t = Tokenizer::from_gguf(&small_vocabulary()).unwrap();
    let mut out = vec![7u32];
    t.encode_into("", &mut out);
    assert_eq!(out, vec![7]);
    t.encode_into("he<|end|>", &mut out);
    assert_eq!(out, vec![7, 256, 258]);
    assert_eq!(&out[1..], t.encode_ordinary("he<|end|>").as_slice());
}

#[test]
fn ids_lie_below_the_size_of_the_vocabulary() {
    let t = Tokenizer::from_gguf(&small_vocabulary()).unwrap();
    let ids = t.encode_ordinary("hello \u{4f60}\u{1f600} <|end|>!<|end|>");
    assert!(ids.iter().all(|&id| (id as usize) < t.vocab_size()));
}

#[test]
fn fields_of_a_tokenizer() {
    let t = Tokenizer::from_gguf(&small_vocabulary()).unwrap();
    assert_eq!(t.bos_token_id, Some(258));
    assert_eq!(t.eos_token_id, None);
    assert!(t.add_bos);
    assert!(!t.add_eos);
}
