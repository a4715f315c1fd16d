use bencode::{from_slice, from_string, to_string, to_vec, Value};

fn text(s: &str) -> Value {
    Value::ByteString(s.to_string())
}

fn round_trip(v: Value) {
    let bytes = to_vec(&v).unwrap();
    assert_eq!(from_slice(&bytes), Ok(v));
}

#[test]
fn test_round_trip_scalars() {
    round_trip(text(""));
    round_trip(text("spam"));
    round_trip(text("Hello, World!"));
    round_trip(Value::Int(0));
    round_trip(Value::Int(42));
    round_trip(Value::Int(-42));
    round_trip(Value::Int(i64::MAX));
    round_trip(Value::Int(i64::MIN));
}

#[test]
fn test_round_trip_multibyte_text() {
    round_trip(text("caf\u{e9} \u{1f600}"));
}

#[test]
fn test_round_trip_containers() {
    round_trip(Value::List(vec![]));
    round_trip(Value::Dict(vec![]));
    round_trip(Value::List(vec![text("spam"), Value::Int(7)]));
    // Keys already stand in ascending byte order, so the round trip is exact.
    round_trip(Value::Dict(vec![
        ("a".to_string(), Value::Int(1)),
        ("b".to_string(), Value::List(vec![Value::Int(2), text("x")])),
        ("c".to_string(), Value::Dict(vec![])),
    ]));
    round_trip(Value::List(vec![Value::List(vec![Value::List(vec![
        Value::Int(9),
    ])])]));
}

#[test]
fn test_encode_canonical_key_order() {
    // Entries supplied as b-before-a come out sorted: a before b.
    let v = Value::Dict(vec![
        ("b".to_string(), Value::Int(1)),
        ("a".to_string(), Value::Int(2)),
    ]);
    assert_eq!(to_string(&v).unwrap(), "d1:ai2e1:bi1ee");
    // The same entries supplied already sorted give the same bytes.
    let w = Value::Dict(vec![
        ("a".to_string(), Value::Int(2)),
        ("b".to_string(), Value::Int(1)),
    ]);
    assert_eq!(to_string(&w).unwrap(), "d1:ai2e1:bi1ee");
}

#[test]
fn test_encode_duplicate_key_last_wins() {
    let v = Value::Dict(vec![
        ("a".to_string(), Value::Int(1)),
        ("a".to_string(), Value::Int(2)),
    ]);
    assert_eq!(to_string(&v).unwrap(), "d1:ai2ee");
}

#[test]
fn test_encode_key_order_is_bytewise() {
    // Byte order compares content before length: "ab" sorts before "b".
    let v = Value::Dict(vec![
        ("b".to_string(), Value::Int(1)),
        ("ab".to_string(), Value::Int(2)),
    ]);
    assert_eq!(to_string(&v).unwrap(), "d2:abi2e1:bi1ee");
}

#[test]
fn test_to_vec_matches_to_string() {
    let v = Value::List(vec![Value::Int(-3), text("ok")]);
    assert_eq!(to_vec(&v).unwrap(), to_string(&v).unwrap().into_bytes());
}

#[test]
fn integration_test() {
    let c = Value::Dict(vec![
        ("s".to_string(), text("Hello, World!")),
        ("i".to_string(), Value::Int(42)),
        (
            "v".to_string(),
            Value::List(vec![
                Value::Dict(vec![
                    ("x".to_string(), Value::Int(1)),
                    ("y".to_string(), Value::Int(2)),
                ]),
                Value::Dict(vec![
                    ("x".to_string(), Value::Int(4)),
                    ("y".to_string(), Value::Int(7)),
                ]),
                Value::Dict(vec![
                    ("x".to_string(), Value::Int(8)),
                    ("y".to_string(), Value::Int(19)),
                ]),
            ]),
        ),
    ]);

    let serialized = to_string(&c).unwrap();
    assert_eq!(serialized, "d\
        1:ii42e\
        1:s13:Hello, World!\
        1:vl\
            d\
                1:xi1e\
                1:yi2e\
            e\
            d\
                1:xi4e\
                1:yi7e\
            e\
            d\
                1:xi8e\
                1:yi19e\
            e\
        e\
    e");

    // Decoding hands the entries back in the canonical order they were
    // written in.
    let sorted = Value::Dict(vec![
        ("i".to_string(), Value::Int(42)),
        ("s".to_string(), text("Hello, World!")),
        (
            "v".to_string(),
            Value::List(vec![
                Value::Dict(vec![
                    ("x".to_string(), Value::Int(1)),
                    ("y".to_string(), Value::Int(2)),
                ]),
                Value::Dict(vec![
                    ("x".to_string(), Value::Int(4)),
                    ("y".to_string(), Value::Int(7)),
                ]),
                Value::Dict(vec![
                    ("x".to_string(), Value::Int(8)),
                    ("y".to_string(), Value::Int(19)),
                ]),
            ]),
        ),
    ]);
    let deserialized = from_string(serialized).unwrap();
    assert_eq!(deserialized, sorted);
}
