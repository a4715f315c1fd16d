use bencode::{DictEncoder, Error, ErrorCode, Serializer, State, Value};

fn output(s: Serializer) -> String {
    String::from_utf8(s.into_inner()).unwrap()
}

#[test]
fn test_serialize_bool() {
    let mut s = Serializer::new(Vec::new());
    assert!(match s.serialize_bool(true) {
        Err(_) => true,
        _ => false,
    });
}

#[test]
fn test_serialize_bool_false() {
    let mut s = Serializer::new(Vec::new());
    assert_eq!(
        s.serialize_bool(false),
        Err(Error::Ser(ErrorCode::UnsupportedType))
    );
    assert_eq!(output(s), "");
}

#[test]
fn test_serialize_isize() {
    let mut s = Serializer::new(Vec::new());
    let x: isize = 10;
    s.serialize_isize(x).unwrap();
    assert_eq!(output(s), "i10e");
    let mut s = Serializer::new(Vec::new());
    let x: isize = -10;
    s.serialize_isize(x).unwrap();
    assert_eq!(output(s), "i-10e");
}

#[test]
fn test_serialize_i8() {
    let mut s = Serializer::new(Vec::new());
    let x: i8 = 10;
    s.serialize_i8(x).unwrap();
    assert_eq!(output(s), "i10e");
    let mut s = Serializer::new(Vec::new());
    let x: i8 = -10;
    s.serialize_i8(x).unwrap();
    assert_eq!(output(s), "i-10e");
}

#[test]
fn test_serialize_i16() {
    let mut s = Serializer::new(Vec::new());
    let x: i16 = 10;
    s.serialize_i16(x).unwrap();
    assert_eq!(output(s), "i10e");
    let mut s = Serializer::new(Vec::new());
    let x: i16 = -10;
    s.serialize_i16(x).unwrap();
    assert_eq!(output(s), "i-10e");
}

#[test]
fn test_serialize_i32() {
    let mut s = Serializer::new(Vec::new());
    let x: i32 = 10;
    s.serialize_i32(x).unwrap();
    assert_eq!(output(s), "i10e");
    let mut s = Serializer::new(Vec::new());
    let x: i32 = -10;
    s.serialize_i32(x).unwrap();
    assert_eq!(output(s), "i-10e");
}

#[test]
fn test_serialize_i64() {
    let mut s = Serializer::new(Vec::new());
    let x: i64 = 10;
    s.serialize_i64(x).unwrap();
    assert_eq!(output(s), "i10e");
    let mut s = Serializer::new(Vec::new());
    let x: i64 = -10;
    s.serialize_i64(x).unwrap();
    assert_eq!(output(s), "i-10e");
}

#[test]
fn test_serialize_usize() {
    let mut s = Serializer::new(Vec::new());
    let x: usize = 16;
    s.serialize_usize(x).unwrap();
    assert_eq!(output(s), "i16e");
}

#[test]
fn test_serialize_u8() {
    let mut s = Serializer::new(Vec::new());
    let x: u8 = 16;
    s.serialize_u8(x).unwrap();
    assert_eq!(output(s), "i16e");
}

#[test]
fn test_serialize_u16() {
    let mut s = Serializer::new(Vec::new());
    let x: u16 = 16;
    s.serialize_u16(x).unwrap();
    assert_eq!(output(s), "i16e");
}

#[test]
fn test_serialize_u32() {
    let mut s = Serializer::new(Vec::new());
    let x: u32 = 16;
    s.serialize_u32(x).unwrap();
    assert_eq!(output(s), "i16e");
}

#[test]
fn test_serialize_u64() {
    let mut s = Serializer::new(Vec::new());
    let x: u64 = 16;
    s.serialize_u64(x).unwrap();
    assert_eq!(output(s), "i16e");

    let mut s = Serializer::new(Vec::new());
    let x: u64 = (i64::max_value() as u64) + 1;
    assert!(match s.serialize_u64(x) {
        Err(_) => true,
        _ => false,
    });
}

#[test]
fn test_serialize_u64_range_edges() {
    // The largest representable magnitude must pass ...
    let mut s = Serializer::new(Vec::new());
    s.serialize_u64(i64::MAX as u64).unwrap();
    assert_eq!(output(s), "i9223372036854775807e");
    // ... and the magnitude one above it must fail with the range error.
    let mut s = Serializer::new(Vec::new());
    let too_big: u64 = 9223372036854775808;
    assert_eq!(
        s.serialize_u64(too_big),
        Err(Error::Ser(ErrorCode::NumberOutOfRange(too_big)))
    );
    assert_eq!(output(s), "");
}

#[test]
fn test_serialize_char() {
    let mut s = Serializer::new(Vec::new());
    let x = 'c';
    s.serialize_char(x).unwrap();
    assert_eq!(output(s), "1:c");
}

#[test]
fn test_serialize_str() {
    let mut s = Serializer::new(Vec::new());
    let x = "Hello, World!";
    s.serialize_str(x).unwrap();
    assert_eq!(output(s), "13:Hello, World!");

    let mut s = Serializer::new(Vec::new());
    let x = "";
    s.serialize_str(x).unwrap();
    assert_eq!(output(s), "0:");
}

#[test]
fn test_serialize_bytes() {
    let mut s = Serializer::new(Vec::new());
    let x: Vec<u8> = vec![1, 2, 3];
    s.serialize_bytes(&x).unwrap();
    assert_eq!(output(s), "li1ei2ei3ee");
}

#[test]
fn test_serialize_unit() {
    let mut s = Serializer::new(Vec::new());
    s.serialize_unit().unwrap();
    assert_eq!(output(s), "");
}

#[test]
fn test_serialize_unit_struct() {
    let mut s = Serializer::new(Vec::new());
    s.serialize_unit_struct("Foo")
        .expect("Failed to serialize unit struct");
    assert_eq!(output(s), "de");
}

#[test]
fn test_serialize_unit_variant() {
    let mut s = Serializer::new(Vec::new());
    s.serialize_unit_variant("Enum", 0, "Variant")
        .expect("Failed to serialize unit struct");
    assert_eq!(output(s), "7:Variant");
}

#[test]
fn test_serialize_newtype_struct() {
    let mut s = Serializer::new(Vec::new());
    s.serialize_newtype_struct("NumberWrapper", &Value::Int(75))
        .expect("Failed to serialize newtype struct");
    assert_eq!(output(s), "i75e");
}

#[test]
fn test_serialize_newtype_variant() {
    let mut s = Serializer::new(Vec::new());
    s.serialize_newtype_variant("Enum", 0, "Variant", &Value::ByteString("Variant Value".to_string()))
        .expect("Failed to serialize newtype variant");
    assert_eq!(output(s), "d7:Variant13:Variant Valuee");
}

#[test]
fn test_serialize_none() {
    let mut s = Serializer::new(Vec::new());
    s.serialize_none().unwrap();
    assert_eq!(output(s), "");
}

#[test]
fn test_serialize_some() {
    let mut s = Serializer::new(Vec::new());
    s.serialize_some(&Value::ByteString("Hello".to_string())).unwrap();
    assert_eq!(output(s), "5:Hello");
}

#[test]
fn test_serialize_seq_states() {
    // A sequence declared empty closes at once.
    let mut s = Serializer::new(Vec::new());
    let state = s.serialize_seq(Some(0)).unwrap();
    assert!(state == State::Empty);
    s.serialize_seq_end(state).unwrap();
    assert_eq!(output(s), "le");

    // Elements arrive one call each, in order.
    let mut s = Serializer::new(Vec::new());
    let mut state = s.serialize_seq(Some(2)).unwrap();
    assert!(state == State::First);
    s.serialize_seq_elt(&mut state, &Value::Int(1)).unwrap();
    assert!(state == State::Rest);
    s.serialize_seq_elt(&mut state, &Value::Int(2)).unwrap();
    s.serialize_seq_end(state).unwrap();
    assert_eq!(output(s), "li1ei2ee");
}

#[test]
fn test_serialize_tuple_variant_shape() {
    let mut s = Serializer::new(Vec::new());
    let mut state = s.serialize_tuple_variant("Enum", 0, "Pair", 2).unwrap();
    s.serialize_tuple_variant_elt(&mut state, &Value::Int(4)).unwrap();
    s.serialize_tuple_variant_elt(&mut state, &Value::Int(7)).unwrap();
    s.serialize_tuple_variant_end(state).unwrap();
    assert_eq!(output(s), "d4:Pairli4ei7eee");
}

#[test]
fn test_serialize_struct_variant_shape() {
    let mut s = Serializer::new(Vec::new());
    let mut state = s.serialize_struct_variant("Enum", 0, "Point", 2).unwrap();
    s.serialize_struct_variant_elt(&mut state, "y", &Value::Int(2)).unwrap();
    s.serialize_struct_variant_elt(&mut state, "x", &Value::Int(1)).unwrap();
    s.serialize_struct_variant_end(state).unwrap();
    assert_eq!(output(s), "d5:Pointd1:xi1e1:yi2eee");
}

#[test]
fn test_formatter_tokens() {
    let f = bencode::Formatter;
    let mut w: Vec<u8> = Vec::new();
    f.string(&mut w, "spam");
    assert_eq!(w, b"4:spam".to_vec());
    f.list_open(&mut w);
    f.list_close(&mut w);
    f.dict_open(&mut w);
    f.dict_close(&mut w);
    assert_eq!(w, b"4:spamlede".to_vec());
}

#[test]
fn test_dict_encoder_orders_and_replaces() {
    let mut d = DictEncoder::new();
    assert!(d.is_empty());
    d.add_key("b".to_string());
    d.add_value(b"i1e".to_vec());
    d.add_key("a".to_string());
    d.add_value(b"i2e".to_vec());
    // A later value for an equal key replaces the earlier one.
    d.add_key("b".to_string());
    d.add_value(b"i9e".to_vec());
    assert!(!d.is_empty());
    let mut s = Serializer::new(Vec::new());
    d.finalize_encode(&mut s).unwrap();
    assert_eq!(output(s), "d1:ai2e1:bi9ee");
}

#[test]
fn test_dict_encoder_value_without_key_is_dropped() {
    let mut d = DictEncoder::new();
    d.add_value(b"i1e".to_vec());
    assert!(d.is_empty());
    let mut s = Serializer::new(Vec::new());
    d.finalize_encode(&mut s).unwrap();
    assert_eq!(output(s), "de");
}
