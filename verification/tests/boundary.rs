use wire_bridge::boundary::{deliver, open_frame, receive};
use wire_bridge::decode::decode;
use wire_bridge::encode::encode;
use wire_bridge::guest::{big_string, echo, hello};
use wire_bridge::value::{Error, Value};

#[test]
fn receive_copies_exactly_the_region() {
    let memory: Vec<u8> = vec![9, 8, 7, 6, 5, 4, 3, 2];
    let got = receive(&memory, 2, 4).expect("an in-bounds receive must succeed");
    assert_eq!(got, vec![7, 6, 5, 4]);
    // The source is only borrowed and stays untouched.
    assert_eq!(memory, vec![9, 8, 7, 6, 5, 4, 3, 2]);
}

#[test]
fn receive_at_the_exact_end_succeeds() {
    let memory: Vec<u8> = vec![1, 2, 3];
    assert_eq!(receive(&memory, 3, 0).expect("empty tail region"), Vec::<u8>::new());
    assert_eq!(receive(&memory, 0, 3).expect("whole memory"), vec![1, 2, 3]);
}

#[test]
fn receive_out_of_bounds_is_an_error_not_a_read() {
    let memory: Vec<u8> = vec![1, 2, 3];
    assert_eq!(
        receive(&memory, 2, 2),
        Err(Error::Message(b"receive out of range".to_vec()))
    );
    assert_eq!(
        receive(&memory, 4, 0),
        Err(Error::Message(b"receive out of range".to_vec()))
    );
    assert_eq!(
        receive(&memory, usize::MAX, 1),
        Err(Error::Message(b"receive out of range".to_vec()))
    );
}

#[test]
fn deliver_wraps_the_encoding_in_a_length_header() {
    let v = Value::Integer(1);
    let frame = deliver(&v);
    let mut expected = vec![0u8, 0, 0, 0, 0, 0, 0, 9];
    expected.extend_from_slice(&encode(&v));
    assert_eq!(frame, expected);
}

#[test]
fn open_frame_inverts_deliver() {
    let v = Value::List(vec![Value::Text(b"abc".to_vec()), Value::Integer(-5)]);
    let frame = deliver(&v);
    let payload = open_frame(&frame).expect("a delivered frame must open");
    assert_eq!(payload, encode(&v));
}

#[test]
fn open_frame_rejects_short_and_mismatched_buffers() {
    assert_eq!(open_frame(&vec![0u8, 0, 0]), None);
    // Header says 5 bytes but only 2 follow.
    let bad = vec![0u8, 0, 0, 0, 0, 0, 0, 5, 1, 2];
    assert_eq!(open_frame(&bad), None);
}

#[test]
fn hello_probe_is_idempotent() {
    let first = hello();
    let second = hello();
    // Two separately owned buffers with identical content.
    assert_eq!(first, second);
    let p1 = open_frame(&first).expect("frame must open");
    let p2 = open_frame(&second).expect("frame must open");
    assert_eq!(decode(&p1).expect("payload must decode"), decode(&p2).expect("payload must decode"));
}

#[test]
fn hello_probe_delivers_the_demonstration_value() {
    let payload = open_frame(&hello()).expect("frame must open");
    let v = decode(&payload).expect("payload must decode");
    let expected = Value::List(vec![
        Value::List(vec![
            Value::Text(b"hello".to_vec()),
            Value::Text(b"from".to_vec()),
            Value::Text(b"wasm!".to_vec()),
        ]),
        Value::List(vec![
            Value::Text(b"isn't".to_vec()),
            Value::Text(b"this".to_vec()),
            Value::Text(b"exciting?!".to_vec()),
        ]),
    ]);
    assert_eq!(v, expected);
}

#[test]
fn big_string_probe_delivers_the_emoji_text() {
    let payload = open_frame(&big_string()).expect("frame must open");
    let v = decode(&payload).expect("payload must decode");
    let expected_text = "\u{1F609} \u{1F60E} \u{1F914} \u{1F610} \u{1F644}".repeat(6);
    assert_eq!(expected_text.len(), 144);
    assert_eq!(v, Value::List(vec![Value::Text(expected_text.into_bytes())]));
}

#[test]
fn echo_turns_empty_input_into_the_truncation_error_value() {
    let frame = echo(&Vec::new());
    let payload = open_frame(&frame).expect("frame must open");
    assert_eq!(
        decode(&payload).expect("payload must decode"),
        Value::Error(Error::Message(b"unexpected end of input".to_vec()))
    );
}

#[test]
fn echo_returns_the_input_encoding() {
    let v = Value::List(vec![
        Value::Text(b"hello".to_vec()),
        Value::Text(b"from".to_vec()),
        Value::Text(b"guest".to_vec()),
    ]);
    let input = encode(&v);
    let frame = echo(&input);
    let payload = open_frame(&frame).expect("frame must open");
    assert_eq!(payload, input);
    let back = decode(&payload).expect("payload must decode");
    assert_eq!(back, v);
}

#[test]
fn echo_turns_a_bad_byte_into_an_error_value() {
    let frame = echo(&vec![0xFFu8]);
    let payload = open_frame(&frame).expect("frame must open");
    match decode(&payload).expect("payload must decode") {
        Value::Error(Error::UnmatchedCode { expected, actual }) => {
            assert_eq!(expected, 10);
            assert_eq!(actual, 255);
        },
        other => panic!("expected an unmatched-code error value, got {:?}", other),
    }
}

#[test]
fn echo_turns_truncated_input_into_an_error_value() {
    let v = Value::Text(b"hello".to_vec());
    let mut input = encode(&v);
    input.pop();
    let frame = echo(&input);
    let payload = open_frame(&frame).expect("frame must open");
    match decode(&payload).expect("payload must decode") {
        Value::Error(_) => {},
        other => panic!("expected an error value, got {:?}", other),
    }
}

#[test]
fn every_proper_prefix_of_an_encoding_is_rejected() {
    let v = Value::List(vec![
        Value::Dict(Vec::new()),
        Value::Text(b"truncate me".to_vec()),
        Value::Integer(123456789),
        Value::SetOf(vec![Value::Boolean(false)]),
    ]);
    let bytes = encode(&v);
    for cut in 0..bytes.len() {
        let prefix: Vec<u8> = bytes[..cut].to_vec();
        assert!(decode(&prefix).is_err(), "prefix of length {} must fail", cut);
    }
}
