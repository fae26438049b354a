use protocol::bytes::ByteReader;
use protocol::codec::{CodecError, CodecRegistry};
use protocol::value::{TypeTag, Value};

fn primitive_registry() -> CodecRegistry {
    let mut reg = CodecRegistry::new();
    reg.register_primitives();
    reg
}

fn round_trip(reg: &CodecRegistry, tag: &TypeTag, value: &Value) -> Value {
    let mut encoded: Vec<u8> = Vec::new();
    reg.encode(&mut encoded, tag, value).unwrap();
    let mut reader = ByteReader::new(encoded);
    reg.decode(&mut reader, tag).unwrap()
}

fn assert_round_trip(reg: &CodecRegistry, tag: &TypeTag, value: Value) {
    let decoded = round_trip(reg, tag, &value);
    assert_eq!(decoded, value);
}

#[test]
fn byte_decode_eq_encode() {
    let reg = primitive_registry();
    for v in [0i8, i8::MIN, i8::MAX] {
        assert_round_trip(&reg, &TypeTag::Byte, Value::Byte(v));
    }
}

#[test]
fn ubyte_decode_eq_encode() {
    let reg = primitive_registry();
    for v in [0u8, u8::MIN, u8::MAX] {
        assert_round_trip(&reg, &TypeTag::UByte, Value::UByte(v));
    }
}

#[test]
fn short_decode_eq_encode() {
    let reg = primitive_registry();
    for v in [0i16, i16::MIN, i16::MAX] {
        assert_round_trip(&reg, &TypeTag::Short, Value::Short(v));
    }
}

#[test]
fn int_decode_eq_encode() {
    let reg = primitive_registry();
    for v in [0i32, i32::MIN, i32::MAX] {
        assert_round_trip(&reg, &TypeTag::Int, Value::Int(v));
    }
}

#[test]
fn long_decode_eq_encode() {
    let reg = primitive_registry();
    for v in [0i64, i64::MIN, i64::MAX] {
        assert_round_trip(&reg, &TypeTag::Long, Value::Long(v));
    }
}

#[test]
fn float_decode_eq_encode() {
    let reg = primitive_registry();
    for v in [0.0f32, f32::MIN, f32::MAX] {
        let decoded = round_trip(&reg, &TypeTag::Float, &Value::Float(v.to_bits()));
        assert_eq!(decoded, Value::Float(v.to_bits()));
        match decoded {
            Value::Float(bits) => assert_eq!(f32::from_bits(bits), v),
            _ => panic!("expected a float value"),
        }
    }
}

#[test]
fn double_decode_eq_encode() {
    let reg = primitive_registry();
    for v in [0.0f64, f64::MIN, f64::MAX] {
        let decoded = round_trip(&reg, &TypeTag::Double, &Value::Double(v.to_bits()));
        assert_eq!(decoded, Value::Double(v.to_bits()));
    }
}

#[test]
fn bool_decode_eq_encode() {
    let reg = primitive_registry();
    assert_round_trip(&reg, &TypeTag::Bool, Value::Bool(false));
    assert_round_trip(&reg, &TypeTag::Bool, Value::Bool(true));
}

#[test]
fn float_wire_bytes_are_big_endian() {
    let reg = primitive_registry();
    let mut encoded: Vec<u8> = Vec::new();
    reg.encode(&mut encoded, &TypeTag::Float, &Value::Float(1.5f32.to_bits()))
        .unwrap();
    assert_eq!(encoded, 1.5f32.to_be_bytes().to_vec());
}

#[test]
fn int_wire_bytes_are_big_endian() {
    let reg = primitive_registry();
    let mut encoded: Vec<u8> = Vec::new();
    reg.encode(&mut encoded, &TypeTag::Int, &Value::Int(0x0102_0304))
        .unwrap();
    assert_eq!(encoded, vec![1, 2, 3, 4]);
    let mut encoded2: Vec<u8> = Vec::new();
    reg.encode(&mut encoded2, &TypeTag::Int, &Value::Int(-2)).unwrap();
    assert_eq!(encoded2, vec![0xff, 0xff, 0xff, 0xfe]);
}

#[test]
fn bool_wire_bytes() {
    let reg = primitive_registry();
    let mut encoded: Vec<u8> = Vec::new();
    reg.encode(&mut encoded, &TypeTag::Bool, &Value::Bool(true)).unwrap();
    reg.encode(&mut encoded, &TypeTag::Bool, &Value::Bool(false)).unwrap();
    assert_eq!(encoded, vec![1, 0]);
}

#[test]
fn bool_decode_maps_exactly_one_to_true() {
    let reg = primitive_registry();
    for (byte, expected) in [(0u8, false), (1u8, true), (2u8, false), (255u8, false)] {
        let mut reader = ByteReader::new(vec![byte]);
        let decoded = reg.decode(&mut reader, &TypeTag::Bool).unwrap();
        assert_eq!(decoded, Value::Bool(expected));
    }
}

#[test]
fn empty_string_decode_eq_encode() {
    let reg = primitive_registry();
    let mut encoded: Vec<u8> = Vec::new();
    reg.encode(&mut encoded, &TypeTag::Str, &Value::Str(String::new()))
        .unwrap();
    assert_eq!(encoded, vec![1]);
    let mut reader = ByteReader::new(encoded);
    assert_eq!(
        reg.decode(&mut reader, &TypeTag::Str).unwrap(),
        Value::Str(String::new())
    );
}

#[test]
fn string_decode_eq_encode() {
    let reg = primitive_registry();
    for s in ["A", "hello world", "héllo wörld", "日本語のテキスト", "\u{1F600} emoji"] {
        assert_round_trip(&reg, &TypeTag::Str, Value::Str(s.to_string()));
    }
}

#[test]
fn string_wire_bytes() {
    let reg = primitive_registry();
    let mut encoded: Vec<u8> = Vec::new();
    reg.encode(&mut encoded, &TypeTag::Str, &Value::Str("A".to_string()))
        .unwrap();
    assert_eq!(encoded, vec![0, 0, 0, 0, 1, 65]);
}

#[test]
fn string_containing_length_like_bytes_round_trips() {
    // The character content deliberately looks like a 4-byte length prefix.
    let reg = primitive_registry();
    let tricky = "\u{0}\u{0}\u{0}\u{5}12345".to_string();
    assert_round_trip(&reg, &TypeTag::Str, Value::Str(tricky));
}

#[test]
fn string_invalid_utf8_is_a_decode_error() {
    let reg = primitive_registry();
    // flag 0, length 2, then an invalid UTF-8 byte pair.
    let bytes = vec![0, 0, 0, 0, 2, 0xc3, 0x28];
    let mut reader = ByteReader::new(bytes);
    assert_eq!(
        reg.decode(&mut reader, &TypeTag::Str),
        Err(CodecError::DecodeError)
    );
}

#[test]
fn truncated_input_is_an_io_error() {
    let reg = primitive_registry();
    let mut reader = ByteReader::new(vec![1, 2]);
    assert_eq!(reg.decode(&mut reader, &TypeTag::Int), Err(CodecError::IoError));
    let mut reader2 = ByteReader::new(vec![0, 0, 0, 0, 9, 65]);
    assert_eq!(reg.decode(&mut reader2, &TypeTag::Str), Err(CodecError::IoError));
}

#[test]
fn sequence_decode_eq_encode() {
    let reg = primitive_registry();
    let empty = Value::Sequence(Vec::new());
    assert_round_trip(&reg, &TypeTag::Sequence(Box::new(TypeTag::Int)), empty);
    let values = Value::Sequence(vec![Value::Int(3), Value::Int(1), Value::Int(2)]);
    let decoded = round_trip(&reg, &TypeTag::Sequence(Box::new(TypeTag::Int)), &values);
    // Element order and count are preserved exactly.
    assert_eq!(
        decoded,
        Value::Sequence(vec![Value::Int(3), Value::Int(1), Value::Int(2)])
    );
}

#[test]
fn sequence_wire_bytes() {
    let reg = primitive_registry();
    let mut encoded: Vec<u8> = Vec::new();
    reg.encode(
        &mut encoded,
        &TypeTag::Sequence(Box::new(TypeTag::Int)),
        &Value::Sequence(vec![Value::Int(1), Value::Int(2)]),
    )
    .unwrap();
    assert_eq!(encoded, vec![0, 0, 0, 2, 0, 0, 0, 1, 0, 0, 0, 2]);
}

#[test]
fn sequence_of_records_decode_eq_encode() {
    let mut reg = primitive_registry();
    reg.register_record_codec(100, vec![TypeTag::Int, TypeTag::Str]).unwrap();
    reg.register_codec(TypeTag::Sequence(Box::new(TypeTag::Record(100))))
        .unwrap();
    let list = Value::Sequence(vec![
        Value::Record(100, vec![Value::Int(1), Value::Str("one".to_string())]),
        Value::Record(100, vec![Value::Int(2), Value::Str("two".to_string())]),
    ]);
    let tag = TypeTag::Sequence(Box::new(TypeTag::Record(100)));
    let decoded = round_trip(&reg, &tag, &list);
    assert_eq!(decoded, list);
}

#[test]
fn optional_decode_eq_encode() {
    let mut reg = primitive_registry();
    reg.register_codec(TypeTag::Optional(Box::new(TypeTag::Str))).unwrap();
    let tag = TypeTag::Optional(Box::new(TypeTag::Str));
    assert_round_trip(&reg, &tag, Value::Optional(None));
    assert_round_trip(
        &reg,
        &tag,
        Value::Optional(Some(Box::new(Value::Str("present".to_string())))),
    );
}

#[test]
fn optional_wire_bytes() {
    let mut reg = primitive_registry();
    reg.register_codec(TypeTag::Optional(Box::new(TypeTag::Int))).unwrap();
    let tag = TypeTag::Optional(Box::new(TypeTag::Int));
    let mut encoded: Vec<u8> = Vec::new();
    reg.encode(&mut encoded, &tag, &Value::Optional(None)).unwrap();
    assert_eq!(encoded, vec![1]);
    let mut encoded2: Vec<u8> = Vec::new();
    reg.encode(&mut encoded2, &tag, &Value::Optional(Some(Box::new(Value::Int(5)))))
        .unwrap();
    assert_eq!(encoded2, vec![0, 0, 0, 0, 5]);
}

#[test]
fn unregistered_type_is_no_codec() {
    let reg = CodecRegistry::new();
    let mut encoded: Vec<u8> = Vec::new();
    assert_eq!(
        reg.encode(&mut encoded, &TypeTag::Int, &Value::Int(1)),
        Err(CodecError::NoCodec)
    );
    assert!(encoded.is_empty());
    let mut reader = ByteReader::new(vec![0, 0, 0, 1]);
    assert_eq!(reg.decode(&mut reader, &TypeTag::Int), Err(CodecError::NoCodec));
}

#[test]
fn nested_unregistered_type_is_no_codec() {
    let mut reg = CodecRegistry::new();
    reg.register_codec(TypeTag::Sequence(Box::new(TypeTag::Int))).unwrap();
    let mut encoded: Vec<u8> = Vec::new();
    assert_eq!(
        reg.encode(
            &mut encoded,
            &TypeTag::Sequence(Box::new(TypeTag::Int)),
            &Value::Sequence(vec![Value::Int(1)]),
        ),
        Err(CodecError::NoCodec)
    );
    assert!(encoded.is_empty());
}

#[test]
fn shape_mismatch_is_invalid_argument() {
    let reg = primitive_registry();
    let mut encoded: Vec<u8> = Vec::new();
    assert_eq!(
        reg.encode(&mut encoded, &TypeTag::Int, &Value::Bool(true)),
        Err(CodecError::InvalidArgument)
    );
    assert!(encoded.is_empty());
}

#[test]
fn duplicate_codec_registration_is_rejected() {
    let mut reg = CodecRegistry::new();
    reg.register_codec(TypeTag::Int).unwrap();
    assert_eq!(reg.register_codec(TypeTag::Int), Err(CodecError::InvalidArgument));
    reg.register_record_codec(7, vec![TypeTag::Int]).unwrap();
    assert_eq!(
        reg.register_record_codec(7, vec![TypeTag::Int]),
        Err(CodecError::InvalidArgument)
    );
}

#[test]
fn get_codec_reports_registration() {
    let mut reg = CodecRegistry::new();
    assert!(reg.get_codec(&TypeTag::Int).is_none());
    assert_eq!(reg.try_get_codec(&TypeTag::Int), Err(CodecError::NoCodec));
    reg.register_codec(TypeTag::Int).unwrap();
    assert!(reg.get_codec(&TypeTag::Int).is_some());
    assert!(reg.try_get_codec(&TypeTag::Int).is_ok());
    assert!(reg.get_codec(&TypeTag::Long).is_none());
}

#[test]
fn record_decode_eq_encode() {
    let mut reg = primitive_registry();
    reg.register_codec(TypeTag::Optional(Box::new(TypeTag::Str))).unwrap();
    reg.register_record_codec(
        42,
        vec![
            TypeTag::Int,
            TypeTag::Optional(Box::new(TypeTag::Str)),
            TypeTag::Sequence(Box::new(TypeTag::Byte)),
        ],
    )
    .unwrap();
    let record = Value::Record(
        42,
        vec![
            Value::Int(-7),
            Value::Optional(Some(Box::new(Value::Str("name".to_string())))),
            Value::Sequence(vec![Value::Byte(1), Value::Byte(-1)]),
        ],
    );
    let decoded = round_trip(&reg, &TypeTag::Record(42), &record);
    assert_eq!(decoded, record);
}

#[test]
fn register_primitives_covers_scalars_and_vectors_only() {
    let reg = primitive_registry();
    assert!(reg.get_codec(&TypeTag::Int).is_some());
    assert!(reg.get_codec(&TypeTag::Str).is_some());
    assert!(reg.get_codec(&TypeTag::Sequence(Box::new(TypeTag::Int))).is_some());
    assert!(reg.get_codec(&TypeTag::Sequence(Box::new(TypeTag::Str))).is_some());
    // Optional codecs and records are registered by whoever needs them.
    assert!(reg.get_codec(&TypeTag::Optional(Box::new(TypeTag::Int))).is_none());
    assert!(reg.get_codec(&TypeTag::Record(1)).is_none());
    assert!(reg
        .get_codec(&TypeTag::Sequence(Box::new(TypeTag::Sequence(Box::new(TypeTag::Int)))))
        .is_none());
}

#[test]
fn nesting_beyond_the_depth_budget_is_an_encode_error() {
    let mut reg = primitive_registry();
    let mut tag = TypeTag::Int;
    let mut value = Value::Int(1);
    for _ in 0..70 {
        tag = TypeTag::Optional(Box::new(tag));
        reg.register_codec(tag.duplicate()).unwrap();
        value = Value::Optional(Some(Box::new(value)));
    }
    let mut encoded: Vec<u8> = Vec::new();
    assert_eq!(reg.encode(&mut encoded, &tag, &value), Err(CodecError::EncodeError));
    assert!(encoded.is_empty());
}
