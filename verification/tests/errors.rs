use wire_bridge::boundary::open_frame;
use wire_bridge::decode::decode;
use wire_bridge::encode::encode;
use wire_bridge::guest::{get_custom_error, get_errors};
use wire_bridge::value::{Entry, Error, ErrorCode, Value};

fn roundtrip_error(e: Error) -> Error {
    let bytes = encode(&Value::Error(e));
    match decode(&bytes).expect("a fresh encoding must decode") {
        Value::Error(back) => back,
        other => panic!("expected an error value, got {:?}", other),
    }
}

#[test]
fn message_error_keeps_payload() {
    let back = roundtrip_error(Error::Message(b"some message".to_vec()));
    assert_eq!(back, Error::Message(b"some message".to_vec()));
}

#[test]
fn unmatched_code_error_keeps_fields() {
    let back = roundtrip_error(Error::UnmatchedCode { expected: 42, actual: 43 });
    assert_eq!(back, Error::UnmatchedCode { expected: 42, actual: 43 });
}

#[test]
fn syntax_error_keeps_fields() {
    let back = roundtrip_error(Error::Syntax {
        code: ErrorCode::UnsupportedCacheType,
        detail: 99,
    });
    assert_eq!(
        back,
        Error::Syntax { code: ErrorCode::UnsupportedCacheType, detail: 99 }
    );
}

#[test]
fn syntax_error_trailing_bytes_code_roundtrips() {
    let back = roundtrip_error(Error::Syntax { code: ErrorCode::TrailingBytes, detail: -7 });
    assert_eq!(back, Error::Syntax { code: ErrorCode::TrailingBytes, detail: -7 });
}

#[test]
fn negative_error_fields_roundtrip() {
    let back = roundtrip_error(Error::UnmatchedCode { expected: -1, actual: i64::MIN });
    assert_eq!(back, Error::UnmatchedCode { expected: -1, actual: i64::MIN });
}

#[test]
fn get_errors_frame_decodes_to_the_three_errors() {
    let frame = get_errors();
    let payload = open_frame(&frame).expect("a delivered frame must open");
    let v = decode(&payload).expect("a delivered payload must decode");
    let expected = Value::List(vec![
        Value::Error(Error::Message(b"some message".to_vec())),
        Value::Error(Error::UnmatchedCode { expected: 42, actual: 43 }),
        Value::Error(Error::Syntax { code: ErrorCode::UnsupportedCacheType, detail: 99 }),
    ]);
    assert_eq!(v, expected);
}

#[test]
fn get_custom_error_frame_decodes_to_the_record() {
    let frame = get_custom_error();
    let payload = open_frame(&frame).expect("a delivered frame must open");
    let v = decode(&payload).expect("a delivered payload must decode");
    let expected = Value::Dict(vec![
        Entry {
            key: Value::Text(b"type".to_vec()),
            val: Value::Text(b"test_lib_error".to_vec()),
        },
        Entry {
            key: Value::Text(b"field_0".to_vec()),
            val: Value::Text(b"some message".to_vec()),
        },
    ]);
    assert_eq!(v, expected);
}

#[test]
fn empty_input_is_a_truncation_error() {
    let r = decode(&Vec::new());
    assert_eq!(r, Err(Error::Message(b"unexpected end of input".to_vec())));
}

#[test]
fn unassigned_code_is_an_unmatched_code_error() {
    let r = decode(&vec![0xFFu8]);
    assert_eq!(r, Err(Error::UnmatchedCode { expected: 10, actual: 255 }));
}

#[test]
fn trailing_bytes_are_a_syntax_error() {
    let mut bytes = encode(&Value::Nil);
    bytes.push(0);
    match decode(&bytes) {
        Err(Error::Syntax { code: ErrorCode::TrailingBytes, detail }) => {
            assert_eq!(detail, 1);
        },
        other => panic!("expected a trailing-bytes error, got {:?}", other),
    }
}

#[test]
fn bad_error_discriminant_is_rejected() {
    // TAG_ERR followed by an unassigned discriminant byte.
    let bytes = vec![10u8, 9u8];
    assert!(decode(&bytes).is_err());
}

#[test]
fn bad_syntax_code_byte_is_rejected() {
    // TAG_ERR, ERR_SYNTAX, unassigned category byte, then a detail.
    let mut bytes = vec![10u8, 2u8, 7u8];
    bytes.extend_from_slice(&[0, 0, 0, 0, 0, 0, 0, 0]);
    assert!(decode(&bytes).is_err());
}

#[test]
fn trailing_byte_count_is_reported() {
    let mut bytes = encode(&Value::Boolean(true));
    bytes.extend_from_slice(&[0, 0, 0]);
    assert_eq!(
        decode(&bytes),
        Err(Error::Syntax { code: ErrorCode::TrailingBytes, detail: 3 })
    );
}
