use wire_bridge::decode::decode;
use wire_bridge::encode::encode;
use wire_bridge::value::{Entry, Error, ErrorCode, Value};

fn roundtrip(v: Value) -> Value {
    let bytes = encode(&v);
    decode(&bytes).expect("a fresh encoding must decode")
}

#[test]
fn nil_roundtrip() {
    assert_eq!(roundtrip(Value::Nil), Value::Nil);
}

#[test]
fn boolean_roundtrip() {
    assert_eq!(roundtrip(Value::Boolean(true)), Value::Boolean(true));
    assert_eq!(roundtrip(Value::Boolean(false)), Value::Boolean(false));
}

#[test]
fn integer_roundtrip() {
    for x in [0i64, 1, -1, 42, -42, i64::MAX, i64::MIN] {
        assert_eq!(roundtrip(Value::Integer(x)), Value::Integer(x));
    }
}

#[test]
fn text_roundtrip() {
    let v = Value::Text(b"hello".to_vec());
    assert_eq!(roundtrip(v), Value::Text(b"hello".to_vec()));
}

#[test]
fn empty_text_roundtrip() {
    assert_eq!(roundtrip(Value::Text(Vec::new())), Value::Text(Vec::new()));
}

#[test]
fn bytes_roundtrip() {
    let v = Value::Bytes(vec![0, 255, 7, 128]);
    assert_eq!(roundtrip(v), Value::Bytes(vec![0, 255, 7, 128]));
}

#[test]
fn empty_list_roundtrip() {
    assert_eq!(roundtrip(Value::List(Vec::new())), Value::List(Vec::new()));
}

#[test]
fn nested_list_roundtrip() {
    let inner = Value::List(vec![Value::Integer(1), Value::Text(b"two".to_vec())]);
    let v = Value::List(vec![inner, Value::Nil, Value::Boolean(true)]);
    let expected = Value::List(vec![
        Value::List(vec![Value::Integer(1), Value::Text(b"two".to_vec())]),
        Value::Nil,
        Value::Boolean(true),
    ]);
    assert_eq!(roundtrip(v), expected);
}

#[test]
fn set_roundtrip() {
    let v = Value::SetOf(vec![Value::Integer(1), Value::Integer(2), Value::Integer(3)]);
    let expected = Value::SetOf(vec![Value::Integer(1), Value::Integer(2), Value::Integer(3)]);
    assert_eq!(roundtrip(v), expected);
}

#[test]
fn ext_roundtrip() {
    let v = Value::Ext(77, vec![Value::Text(b"payload".to_vec()), Value::Integer(5)]);
    let expected = Value::Ext(77, vec![Value::Text(b"payload".to_vec()), Value::Integer(5)]);
    assert_eq!(roundtrip(v), expected);
}

#[test]
fn dict_roundtrip() {
    let v = Value::Dict(vec![
        Entry { key: Value::Text(b"a".to_vec()), val: Value::Integer(1) },
        Entry { key: Value::Text(b"b".to_vec()), val: Value::Nil },
    ]);
    let expected = Value::Dict(vec![
        Entry { key: Value::Text(b"a".to_vec()), val: Value::Integer(1) },
        Entry { key: Value::Text(b"b".to_vec()), val: Value::Nil },
    ]);
    assert_eq!(roundtrip(v), expected);
}

#[test]
fn dict_duplicate_keys_roundtrip_in_order() {
    let v = Value::Dict(vec![
        Entry { key: Value::Text(b"k".to_vec()), val: Value::Integer(1) },
        Entry { key: Value::Text(b"k".to_vec()), val: Value::Integer(2) },
    ]);
    let expected = Value::Dict(vec![
        Entry { key: Value::Text(b"k".to_vec()), val: Value::Integer(1) },
        Entry { key: Value::Text(b"k".to_vec()), val: Value::Integer(2) },
    ]);
    assert_eq!(roundtrip(v), expected);
}

#[test]
fn error_value_roundtrip() {
    let v = Value::Error(Error::Message(b"boom".to_vec()));
    assert_eq!(roundtrip(v), Value::Error(Error::Message(b"boom".to_vec())));
}

#[test]
fn exact_bytes_nil() {
    assert_eq!(encode(&Value::Nil), vec![0u8]);
}

#[test]
fn exact_bytes_booleans() {
    assert_eq!(encode(&Value::Boolean(true)), vec![1u8]);
    assert_eq!(encode(&Value::Boolean(false)), vec![2u8]);
}

#[test]
fn exact_bytes_integer() {
    assert_eq!(encode(&Value::Integer(1)), vec![3u8, 0, 0, 0, 0, 0, 0, 0, 1]);
    assert_eq!(
        encode(&Value::Integer(-1)),
        vec![3u8, 255, 255, 255, 255, 255, 255, 255, 255]
    );
}

#[test]
fn exact_bytes_text() {
    assert_eq!(
        encode(&Value::Text(b"hi".to_vec())),
        vec![4u8, 0, 0, 0, 0, 0, 0, 0, 2, 104, 105]
    );
}

#[test]
fn exact_bytes_list() {
    assert_eq!(
        encode(&Value::List(vec![Value::Nil])),
        vec![6u8, 0, 0, 0, 0, 0, 0, 0, 1, 0]
    );
}

#[test]
fn exact_bytes_dict() {
    let v = Value::Dict(vec![Entry { key: Value::Nil, val: Value::Boolean(true) }]);
    assert_eq!(encode(&v), vec![7u8, 0, 0, 0, 0, 0, 0, 0, 1, 0, 1]);
}

#[test]
fn exact_bytes_error_unmatched() {
    let v = Value::Error(Error::UnmatchedCode { expected: 42, actual: 43 });
    assert_eq!(
        encode(&v),
        vec![10u8, 1, 0, 0, 0, 0, 0, 0, 0, 42, 0, 0, 0, 0, 0, 0, 0, 43]
    );
}

#[test]
fn exact_bytes_error_syntax() {
    let v = Value::Error(Error::Syntax { code: ErrorCode::UnsupportedCacheType, detail: 99 });
    assert_eq!(encode(&v), vec![10u8, 2, 0, 0, 0, 0, 0, 0, 0, 0, 99]);
}
