use bencode::{from_slice, from_string, Error, ErrorCode, Value};

fn text(s: &str) -> Value {
    Value::ByteString(s.to_string())
}

#[test]
fn test_decode_empty_string() {
    assert_eq!(from_slice(b"0:"), Ok(text("")));
}

#[test]
fn test_decode_string() {
    assert_eq!(from_slice(b"4:spam"), Ok(text("spam")));
}

#[test]
fn test_decode_positive_int() {
    assert_eq!(from_slice(b"i42e"), Ok(Value::Int(42)));
}

#[test]
fn test_decode_negative_int() {
    assert_eq!(from_slice(b"i-42e"), Ok(Value::Int(-42)));
}

#[test]
fn test_decode_zero() {
    assert_eq!(from_slice(b"i0e"), Ok(Value::Int(0)));
}

#[test]
fn test_decode_list() {
    assert_eq!(
        from_slice(b"l4:spam4:eggse"),
        Ok(Value::List(vec![text("spam"), text("eggs")]))
    );
}

#[test]
fn test_decode_empty_list() {
    assert_eq!(from_slice(b"le"), Ok(Value::List(vec![])));
}

#[test]
fn test_decode_dict() {
    assert_eq!(
        from_slice(b"d3:cow3:moo4:spam4:eggse"),
        Ok(Value::Dict(vec![
            ("cow".to_string(), text("moo")),
            ("spam".to_string(), text("eggs")),
        ]))
    );
}

#[test]
fn test_decode_empty_dict() {
    assert_eq!(from_slice(b"de"), Ok(Value::Dict(vec![])));
}

#[test]
fn test_decode_negative_zero_fails() {
    assert_eq!(
        from_slice(b"i-0e"),
        Err(Error::Syntax(ErrorCode::UnexpectedToken(b'0'), 3))
    );
}

#[test]
fn test_decode_leading_zero_fails() {
    assert_eq!(
        from_slice(b"i03e"),
        Err(Error::Syntax(ErrorCode::UnexpectedToken(b'3'), 3))
    );
}

#[test]
fn test_decode_empty_int_fails() {
    assert_eq!(
        from_slice(b"ie"),
        Err(Error::Syntax(ErrorCode::UnexpectedToken(b'e'), 2))
    );
}

#[test]
fn test_decode_truncated_string_fails() {
    assert_eq!(
        from_slice(b"4:sp"),
        Err(Error::Syntax(ErrorCode::UnexpectedEOF, 4))
    );
}

#[test]
fn test_decode_trailing_garbage_fails() {
    assert_eq!(
        from_slice(b"i1ei2e"),
        Err(Error::Syntax(ErrorCode::UnexpectedTrailingChars, 3))
    );
}

#[test]
fn test_decode_same_bytes_as_list_elements() {
    // The same two tokens that are trailing garbage at the root decode as
    // the two elements of a list.
    assert_eq!(
        from_slice(b"li1ei2ee"),
        Ok(Value::List(vec![Value::Int(1), Value::Int(2)]))
    );
}

#[test]
fn test_decode_invalid_utf8_fails() {
    assert_eq!(from_slice(b"1:\xff"), Err(Error::Utf8));
}

#[test]
fn test_decode_multibyte_text() {
    // Two payload bytes for one character.
    let bytes = "2:\u{e9}".as_bytes();
    assert_eq!(from_slice(bytes), Ok(text("\u{e9}")));
}

#[test]
fn test_decode_int_magnitude_overflow_fails() {
    // Twenty-one digits cannot fit a 64-bit accumulator.
    assert!(matches!(
        from_slice(b"i999999999999999999999e"),
        Err(Error::Syntax(ErrorCode::NumberOutOfRange(_), _))
    ));
}

#[test]
fn test_decode_int_above_i64_max_fails() {
    let r = from_slice(b"i9223372036854775808e");
    assert_eq!(
        r,
        Err(Error::Syntax(
            ErrorCode::NumberOutOfRange(9223372036854775808),
            21
        ))
    );
}

#[test]
fn test_decode_i64_extremes() {
    assert_eq!(
        from_slice(b"i9223372036854775807e"),
        Ok(Value::Int(i64::MAX))
    );
    assert_eq!(
        from_slice(b"i-9223372036854775808e"),
        Ok(Value::Int(i64::MIN))
    );
}

#[test]
fn test_decode_length_overflow_fails() {
    assert!(matches!(
        from_slice(b"999999999999999999999:x"),
        Err(Error::Syntax(ErrorCode::NumberOutOfRange(_), _))
    ));
}

#[test]
fn test_decode_bad_dispatch_byte_fails() {
    assert_eq!(
        from_slice(b"x"),
        Err(Error::Syntax(ErrorCode::UnexpectedToken(b'x'), 1))
    );
}

#[test]
fn test_decode_bad_dict_key_fails() {
    // A dictionary key must be a string, so its first byte must be a digit.
    assert_eq!(
        from_slice(b"di1ei2ee"),
        Err(Error::Syntax(ErrorCode::UnexpectedToken(b'i'), 1))
    );
}

#[test]
fn test_decode_unterminated_list_fails() {
    assert_eq!(
        from_slice(b"li1e"),
        Err(Error::Syntax(ErrorCode::UnexpectedEOF, 4))
    );
}

#[test]
fn test_decode_nested() {
    assert_eq!(
        from_slice(b"ld1:ale2:okli0eeee"),
        Ok(Value::List(vec![Value::Dict(vec![
            ("a".to_string(), Value::List(vec![])),
            ("ok".to_string(), Value::List(vec![Value::Int(0)])),
        ])]))
    );
}

#[test]
fn test_decode_from_string() {
    assert_eq!(
        from_string("l4:spami7ee".to_string()),
        Ok(Value::List(vec![text("spam"), Value::Int(7)]))
    );
}

#[test]
fn test_decode_garbage_int_digit_fails() {
    assert_eq!(
        from_slice(b"i4x2e"),
        Err(Error::Syntax(ErrorCode::UnexpectedToken(b'x'), 3))
    );
}

#[test]
fn test_byte_sources_agree() {
    // The slice source and the text source hand the decoder the same bytes.
    let a = from_slice("d1:ai1ee".as_bytes());
    let b = from_string("d1:ai1ee".to_string());
    assert_eq!(a, b);
}

use bencode::{Read, SliceRead, StringRead};

#[test]
fn test_slice_read_steps() {
    let mut r = SliceRead::new(b"ab");
    assert_eq!(r.position(), 0);
    assert_eq!(r.peek_char(), Some(b'a'));
    assert_eq!(r.next_char(), Some(Ok(b'a')));
    assert_eq!(r.position(), 1);
    assert_eq!(r.peek_char(), Some(b'b'));
    assert_eq!(r.next_char(), Some(Ok(b'b')));
    assert_eq!(r.peek_char(), None);
    assert_eq!(r.next_char(), None);
    assert_eq!(r.position(), 2);
}

#[test]
fn test_string_read_steps() {
    let s = "i7e".to_string();
    let mut r = StringRead::new(&s);
    assert_eq!(r.peek_char(), Some(b'i'));
    assert_eq!(r.next_char(), Some(Ok(b'i')));
    assert_eq!(r.next_char(), Some(Ok(b'7')));
    assert_eq!(r.next_char(), Some(Ok(b'e')));
    assert_eq!(r.next_char(), None);
    assert_eq!(r.position(), 3);
}
