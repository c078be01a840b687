use gguf_rs::error::GgufError;
use gguf_rs::parser::{align_to, parse};
use gguf_rs::types::{FloatBits, GgmlType, MetadataArrayType, MetadataValue};

fn build_gguf_header(version: u32, tensor_count: u64, metadata_kv_count: u64) -> Vec<u8> {
    let mut buf = Vec::new();
    buf.extend_from_slice(b"GGUF");
    buf.extend_from_slice(&version.to_le_bytes());
    buf.extend_from_slice(&tensor_count.to_le_bytes());
    buf.extend_from_slice(&metadata_kv_count.to_le_bytes());
    buf
}

fn build_string(s: &str) -> Vec<u8> {
    let mut buf = Vec::new();
    let bytes = s.as_bytes();
    buf.extend_from_slice(&(bytes.len() as u64).to_le_bytes());
    buf.extend_from_slice(bytes);
    buf
}

#[test]
fn test_parse_minimal_v2() {
    let data = build_gguf_header(2, 0, 0);
    // No metadata, no tensors → data section starts at aligned position
    let parsed = parse(&data).unwrap();
    assert_eq!(parsed.version, 2);
    assert_eq!(parsed.tensor_count, 0);
    assert!(parsed.metadata.is_empty());
    assert!(parsed.tensors.is_empty());
    assert_eq!(parsed.data_offset, 32);
}

#[test]
fn test_parse_invalid_magic() {
    let data = [0u8; 24];
    let result = parse(&data);
    assert!(matches!(result, Err(GgufError::InvalidMagic)));
}

#[test]
fn test_parse_unsupported_version() {
    let data = build_gguf_header(1, 0, 0);
    // Overwrite version
    let result = parse(&data);
    assert!(matches!(result, Err(GgufError::UnsupportedVersion(1))));
}

#[test]
fn test_parse_v3_with_metadata() {
    let mut data = build_gguf_header(3, 0, 1);
    // One metadata entry: key="general.architecture", type=STRING(8), value="llama"
    data.extend(build_string("general.architecture"));
    data.extend_from_slice(&8u32.to_le_bytes()); // STRING type
    data.extend(build_string("llama"));

    let parsed = parse(&data).unwrap();
    assert_eq!(parsed.version, 3);
    assert_eq!(parsed.get_string("general.architecture"), Some("llama"));
}

#[test]
fn test_parse_metadata_u32() {
    let mut data = build_gguf_header(3, 0, 1);
    data.extend(build_string("test.value"));
    data.extend_from_slice(&4u32.to_le_bytes()); // U32 type
    data.extend_from_slice(&42u32.to_le_bytes());

    let parsed = parse(&data).unwrap();
    assert_eq!(parsed.get_u64("test.value"), Some(42));
}

#[test]
fn test_parse_with_tensor() {
    let mut data = build_gguf_header(3, 1, 0);
    // One tensor: name="output.weight", n_dims=2, dims=[4096,4096], type=Q8_0(8), offset=0
    data.extend(build_string("output.weight"));
    data.extend_from_slice(&2u32.to_le_bytes()); // n_dims
    data.extend_from_slice(&4096u64.to_le_bytes()); // dim 0
    data.extend_from_slice(&4096u64.to_le_bytes()); // dim 1
    data.extend_from_slice(&8u32.to_le_bytes()); // Q8_0 (ggml type id 8)
    data.extend_from_slice(&0u64.to_le_bytes()); // byte_offset

    let parsed = parse(&data).unwrap();
    assert_eq!(parsed.tensors.len(), 1);
    assert_eq!(parsed.tensors[0].name, "output.weight");
    assert_eq!(parsed.tensors[0].dims, vec![4096, 4096]);
    assert_eq!(parsed.tensors[0].ggml_type, GgmlType::Q8_0);
}

#[test]
fn test_parse_array_metadata() {
    let mut data = build_gguf_header(3, 0, 1);
    data.extend(build_string("tokenizer.ggml.bos_token_id"));
    // Array of U32 with 1 element
    data.extend_from_slice(&9u32.to_le_bytes()); // ARRAY type
    data.extend_from_slice(&4u32.to_le_bytes()); // elem type: U32
    data.extend_from_slice(&1u64.to_le_bytes()); // count
    data.extend_from_slice(&1u32.to_le_bytes()); // value

    let parsed = parse(&data).unwrap();
    let val = parsed.get("tokenizer.ggml.bos_token_id").unwrap();
    match val {
        MetadataValue::Array(MetadataArrayType::U32, items) => {
            assert_eq!(items.len(), 1);
        }
        _ => panic!("expected array"),
    }
}

#[test]
fn test_unexpected_eof() {
    // Header only, but metadata_kv_count = 1
    let data = build_gguf_header(3, 0, 1);
    // Don't add any metadata → should get UnexpectedEof
    let result = parse(&data);
    assert!(matches!(result, Err(GgufError::UnexpectedEof(_))));
}

fn one_entry(key: &str, type_id: u32, value: &[u8]) -> Vec<u8> {
    let mut data = build_gguf_header(3, 0, 1);
    data.extend(build_string(key));
    data.extend_from_slice(&type_id.to_le_bytes());
    data.extend_from_slice(value);
    data
}

#[test]
fn every_scalar_type_is_read() {
    let cases: Vec<(u32, Vec<u8>, u64)> = vec![
        (0, vec![200], 200),
        (2, 60_000u16.to_le_bytes().to_vec(), 60_000),
        (4, 4_000_000_000u32.to_le_bytes().to_vec(), 4_000_000_000),
        (10, u64::MAX.to_le_bytes().to_vec(), u64::MAX),
    ];
    for (id, bytes, expected) in cases {
        let parsed = parse(&one_entry("k", id, &bytes)).unwrap();
        assert_eq!(parsed.get_u64("k"), Some(expected));
        assert_eq!(parsed.get("k").unwrap().type_id(), id);
    }
    let signed: Vec<(u32, Vec<u8>, i64)> = vec![
        (1, vec![0xFF], -1),
        (3, (-300i16).to_le_bytes().to_vec(), -300),
        (5, (-70_000i32).to_le_bytes().to_vec(), -70_000),
        (11, i64::MIN.to_le_bytes().to_vec(), i64::MIN),
    ];
    for (id, bytes, expected) in signed {
        let parsed = parse(&one_entry("k", id, &bytes)).unwrap();
        assert_eq!(parsed.get("k").unwrap().as_i64(), Some(expected));
    }
    let parsed = parse(&one_entry("k", 6, &1.5f32.to_le_bytes())).unwrap();
    assert_eq!(parsed.get_f32("k"), Some(FloatBits::Single(1.5f32.to_bits())));
    let parsed = parse(&one_entry("k", 12, &2.25f64.to_le_bytes())).unwrap();
    assert_eq!(parsed.get_f32("k"), Some(FloatBits::Double(2.25f64.to_bits())));
    let parsed = parse(&one_entry("k", 7, &[1])).unwrap();
    assert_eq!(parsed.get_bool("k"), Some(true));
    let parsed = parse(&one_entry("k", 7, &[0])).unwrap();
    assert_eq!(parsed.get_bool("k"), Some(false));
}

#[test]
fn unknown_metadata_type_is_refused() {
    let result = parse(&one_entry("k", 13, &[0; 8]));
    assert!(matches!(result, Err(GgufError::UnknownMetadataType(13))));
}

#[test]
fn unknown_tensor_type_is_refused() {
    let mut data = build_gguf_header(3, 1, 0);
    data.extend(build_string("t"));
    data.extend_from_slice(&1u32.to_le_bytes());
    data.extend_from_slice(&32u64.to_le_bytes());
    data.extend_from_slice(&4u32.to_le_bytes());
    data.extend_from_slice(&0u64.to_le_bytes());
    match parse(&data) {
        Err(e) => assert!(e.message().contains('4')),
        Ok(_) => panic!("type 4 was removed from the format"),
    }
}

#[test]
fn invalid_string_is_refused() {
    let mut bytes = 2u64.to_le_bytes().to_vec();
    bytes.extend_from_slice(&[0xC3, 0x28]);
    let result = parse(&one_entry("k", 8, &bytes));
    assert!(matches!(result, Err(GgufError::InvalidString(_))));
}

#[test]
fn later_value_of_a_key_wins() {
    let mut data = build_gguf_header(3, 0, 2);
    for v in [1u32, 2] {
        data.extend(build_string("k"));
        data.extend_from_slice(&4u32.to_le_bytes());
        data.extend_from_slice(&v.to_le_bytes());
    }
    let parsed = parse(&data).unwrap();
    assert_eq!(parsed.get_u64("k"), Some(2));
    assert_eq!(parsed.metadata.len(), 1);
}

#[test]
fn nested_array_is_refused() {
    let mut bytes = 9u32.to_le_bytes().to_vec(); // elements are arrays
    bytes.extend_from_slice(&0u64.to_le_bytes());
    let result = parse(&one_entry("k", 9, &bytes));
    assert!(matches!(result, Err(GgufError::UnknownMetadataType(9))));
}

#[test]
fn data_begins_at_an_aligned_offset() {
    let data = one_entry("general.name", 8, &build_string("a name of some length"));
    let parsed = parse(&data).unwrap();
    assert_eq!(parsed.data_offset % 32, 0);
    assert!(parsed.data_offset as usize >= data.len());
    assert!((parsed.data_offset as usize) < data.len() + 32);
    assert_eq!(align_to(33, 32), 64);
    assert_eq!(align_to(64, 32), 64);
}

#[test]
fn arrays_of_text_and_integers() {
    let mut bytes = 8u32.to_le_bytes().to_vec();
    bytes.extend_from_slice(&2u64.to_le_bytes());
    bytes.extend(build_string("a"));
    bytes.extend(build_string("\u{e9}"));
    let parsed = parse(&one_entry("k", 9, &bytes)).unwrap();
    assert_eq!(parsed.get_str_array("k"), Some(vec!["a", "\u{e9}"]));
    assert_eq!(parsed.get_i64_array("k"), None);

    let mut bytes = 5u32.to_le_bytes().to_vec();
    bytes.extend_from_slice(&2u64.to_le_bytes());
    bytes.extend_from_slice(&(-4i32).to_le_bytes());
    bytes.extend_from_slice(&9i32.to_le_bytes());
    let parsed = parse(&one_entry("k", 9, &bytes)).unwrap();
    assert_eq!(parsed.get_i64_array("k"), Some(vec![-4, 9]));
    assert_eq!(parsed.get_str_array("k"), None);
}

/// A file with a text entry, an array and a tensor, and where its header ends.
fn varied_file() -> (Vec<u8>, usize) {
    let mut data = build_gguf_header(3, 1, 2);
    data.extend(build_string("name"));
    data.extend_from_slice(&8u32.to_le_bytes());
    data.extend(build_string("value"));
    data.extend(build_string("list"));
    data.extend_from_slice(&9u32.to_le_bytes());
    data.extend_from_slice(&2u32.to_le_bytes());
    data.extend_from_slice(&3u64.to_le_bytes());
    data.extend_from_slice(&[1, 0, 2, 0, 3, 0]);
    data.extend(build_string("w"));
    data.extend_from_slice(&2u32.to_le_bytes());
    data.extend_from_slice(&4u64.to_le_bytes());
    data.extend_from_slice(&2u64.to_le_bytes());
    data.extend_from_slice(&0u32.to_le_bytes());
    data.extend_from_slice(&0u64.to_le_bytes());
    let end = data.len();
    (data, end)
}

#[test]
fn cut_header_ends_early() {
    let (data, end) = varied_file();
    for k in 0..end {
        match parse(&data[..k]) {
            Err(GgufError::UnexpectedEof(p)) => assert!(p <= k),
            _ => panic!("an early end was expected after {k} bytes"),
        }
    }
}

#[test]
fn bytes_after_the_header_are_ignored() {
    let (mut data, end) = varied_file();
    let first = parse(&data).unwrap();
    data.extend_from_slice(&[0xFF; 100]);
    let second = parse(&data).unwrap();
    assert_eq!(first.data_offset, second.data_offset);
    assert_eq!(first.data_offset as usize, align_to(end, 32));
    assert_eq!(first.tensors[0].dims, second.tensors[0].dims);
    assert_eq!(second.get_string("name"), Some("value"));
    assert_eq!(second.get_i64_array("list"), Some(vec![1, 2, 3]));
}

#[test]
fn parsed_file_is_consistent() {
    let (data, _) = varied_file();
    let f = parse(&data).unwrap();
    assert_eq!(f.tensor_count as usize, f.tensors.len());
    assert_eq!(f.tensors[0].n_dims as usize, f.tensors[0].dims.len());
    assert_eq!(f.data_offset % 32, 0);
    assert!((f.data_offset as usize) < data.len() + 32);
}
