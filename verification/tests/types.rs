use gguf_rs::types::{
    FloatBits, GgmlType, GgufFile, Metadata, MetadataArrayType, MetadataValue, ShownValue,
    TensorInfo,
};

fn shown(v: MetadataValue) -> String {
    match v.display_value() {
        ShownValue::Text(s) => s,
        ShownValue::Float(FloatBits::Single(b)) => format!("{:.6}", f32::from_bits(b)),
        ShownValue::Float(FloatBits::Double(b)) => format!("{:.6}", f64::from_bits(b)),
    }
}

#[test]
fn type_ids_identify_types() {
    for id in 0..40u32 {
        match GgmlType::from_u32(id) {
            Ok(t) => assert_eq!(t.id(), id),
            Err(e) => assert_eq!(e.message(), format!("unknown tensor GGML type: {id}")),
        }
    }
    assert!(GgmlType::from_u32(33).is_ok());
    assert!(GgmlType::from_u32(34).is_err());
    for id in 0..14u32 {
        assert_eq!(MetadataArrayType::from_u32(id).is_ok(), id != 9 && id != 13);
    }
}

#[test]
fn sizes_of_blocks() {
    assert_eq!(GgmlType::F32.type_size(10), 40);
    assert_eq!(GgmlType::BF16.type_size(3), 6);
    assert_eq!(GgmlType::Q8_0.type_size(33), 68);
    assert_eq!(GgmlType::Q5_0.type_size(32), 22);
    assert_eq!(GgmlType::Q2_K.type_size(256), 84);
    assert_eq!(GgmlType::Q4_K.type_size(257), 288);
    assert_eq!(GgmlType::Q5_K.type_size(256), 176);
    assert_eq!(GgmlType::Q6_K.type_size(256), 210);
    assert_eq!(GgmlType::F64.checked_type_size(usize::MAX), None);
    assert_eq!(GgmlType::Q8_0.name(), "Q8_0");
}

#[test]
fn values_are_shown() {
    assert_eq!(shown(MetadataValue::U8(7)), "7");
    assert_eq!(shown(MetadataValue::I64(i64::MIN)), "-9223372036854775808");
    assert_eq!(shown(MetadataValue::Float32(0.5f32.to_bits())), "0.500000");
    assert_eq!(shown(MetadataValue::Float64(1.25f64.to_bits())), "1.250000");
    assert_eq!(shown(MetadataValue::Bool(true)), "true");
    assert_eq!(shown(MetadataValue::String("x".to_string())), "x");
    assert_eq!(
        shown(MetadataValue::Array(
            MetadataArrayType::U32,
            vec![MetadataValue::U32(1), MetadataValue::U32(2)]
        )),
        "Array(U32, 2 items)"
    );
}

#[test]
fn shapes_and_sizes_of_tensors() {
    let t = TensorInfo {
        name: "w".to_string(),
        n_dims: 2,
        dims: vec![4096, 12],
        ggml_type: GgmlType::Q8_0,
        byte_offset: 0,
    };
    assert_eq!(t.shape_str(), "[4096, 12]");
    assert_eq!(t.n_elements(), 49152);
    assert_eq!(t.byte_size(), 52224);
    let f = GgufFile {
        version: 3,
        tensor_count: 1,
        metadata: Metadata::new(),
        tensors: vec![t],
        data_offset: 0,
    };
    assert_eq!(f.total_tensor_bytes(), 52224);
    assert_eq!(f.checked_total_tensor_bytes(), Some(52224));
    assert_eq!(f.architecture(), None);
    let huge = TensorInfo {
        name: "h".to_string(),
        n_dims: 2,
        dims: vec![u64::MAX, 2],
        ggml_type: GgmlType::F32,
        byte_offset: 0,
    };
    assert_eq!(huge.checked_byte_size(), None);
    assert_eq!(
        TensorInfo { name: String::new(), n_dims: 0, dims: vec![], ggml_type: GgmlType::F32, byte_offset: 0 }
            .shape_str(),
        "[]"
    );
}

#[test]
fn unsigned_values_only_are_numbers() {
    assert_eq!(MetadataValue::U16(9).as_u64(), Some(9));
    assert_eq!(MetadataValue::I32(9).as_u64(), None);
    assert_eq!(MetadataValue::U64(u64::MAX).as_i64(), Some(-1));
    assert_eq!(MetadataValue::I8(-3).as_i64(), Some(-3));
    assert_eq!(MetadataValue::U8(1).as_bool(), None);
    assert_eq!(MetadataValue::Float64(3).as_f32(), Some(FloatBits::Double(3)));
    assert_eq!(MetadataValue::U8(1).as_str(), None);
}

#[test]
fn metadata_keeps_the_last_value() {
    let mut m = Metadata::new();
    assert!(m.is_empty());
    m.insert("a".to_string(), MetadataValue::U8(1));
    m.insert("b".to_string(), MetadataValue::U8(2));
    m.insert("a".to_string(), MetadataValue::U8(3));
    assert_eq!(m.len(), 2);
    assert_eq!(m.get("a").unwrap().as_u64(), Some(3));
    assert!(m.get("c").is_none());
}
