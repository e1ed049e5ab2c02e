//! Wire codec tests: round trips on nested values, every decoder format
//! family, truncation and malformed bytes, and interoperability with an
//! independent msgpack implementation.

use nvim_mcp::codec::{decode_at, decode_value, encode_value, DecodeResult};
use nvim_mcp::value::Value;

fn sample_value() -> Value {
    Value::Dict(vec![
        (
            Value::Str(b"items".to_vec()),
            Value::Array(vec![
                Value::Nil,
                Value::Bool(true),
                Value::Bool(false),
                Value::Int(-42),
                Value::UInt(42),
                Value::UInt(u64::MAX),
                Value::Int(i64::MIN),
                Value::Str(b"hello".to_vec()),
                Value::Bin(vec![0, 1, 2, 255]),
                Value::F64(4614256656552045848), // bits of a finite double
                Value::F32(0x40490fdb),
            ]),
        ),
        (
            Value::Str(b"nested".to_vec()),
            Value::Dict(vec![(Value::UInt(1), Value::Array(vec![]))]),
        ),
        (Value::Ext(5, vec![1, 2, 3]), Value::Nil),
    ])
}

fn assert_round_trip(v: &Value) {
    let bytes = encode_value(v);
    match decode_value(&bytes) {
        DecodeResult::Done(decoded, end) => {
            assert_eq!(end, bytes.len());
            let re = encode_value(&decoded);
            assert_eq!(re, bytes, "decoded value re-encodes to the same bytes");
        }
        other => panic!("expected a complete decode, got {}", kind(&other)),
    }
}

fn kind(r: &DecodeResult) -> &'static str {
    match r {
        DecodeResult::Done(_, _) => "done",
        DecodeResult::NeedMore => "need-more",
        DecodeResult::Malformed => "malformed",
    }
}

#[test]
fn round_trip_scalars() {
    assert_round_trip(&Value::Nil);
    assert_round_trip(&Value::Bool(true));
    assert_round_trip(&Value::Int(-1));
    assert_round_trip(&Value::UInt(0));
    assert_round_trip(&Value::Str(Vec::new()));
    assert_round_trip(&Value::Bin(Vec::new()));
}

#[test]
fn round_trip_nested() {
    assert_round_trip(&sample_value());
}

#[test]
fn decoder_takes_compact_formats() {
    // positive fixint
    match decode_value(&vec![0x07]) {
        DecodeResult::Done(Value::UInt(7), 1) => {}
        other => panic!("fixint: {}", kind(&other)),
    }
    // negative fixint
    match decode_value(&vec![0xff]) {
        DecodeResult::Done(Value::Int(-1), 1) => {}
        other => panic!("negative fixint: {}", kind(&other)),
    }
    // fixstr "ab"
    match decode_value(&vec![0xa2, b'a', b'b']) {
        DecodeResult::Done(Value::Str(s), 3) => assert_eq!(s, b"ab".to_vec()),
        other => panic!("fixstr: {}", kind(&other)),
    }
    // fixarray [1, 2]
    match decode_value(&vec![0x92, 0x01, 0x02]) {
        DecodeResult::Done(Value::Array(items), 3) => assert_eq!(items.len(), 2),
        other => panic!("fixarray: {}", kind(&other)),
    }
    // fixmap {1: 2}
    match decode_value(&vec![0x81, 0x01, 0x02]) {
        DecodeResult::Done(Value::Dict(pairs), 3) => assert_eq!(pairs.len(), 1),
        other => panic!("fixmap: {}", kind(&other)),
    }
    // uint8 / int8
    match decode_value(&vec![0xcc, 0xff]) {
        DecodeResult::Done(Value::UInt(255), 2) => {}
        other => panic!("uint8: {}", kind(&other)),
    }
    match decode_value(&vec![0xd0, 0x80]) {
        DecodeResult::Done(Value::Int(-128), 2) => {}
        other => panic!("int8: {}", kind(&other)),
    }
    // fixext1
    match decode_value(&vec![0xd4, 0x01, 0xaa]) {
        DecodeResult::Done(Value::Ext(1, data), 3) => assert_eq!(data, vec![0xaa]),
        other => panic!("fixext1: {}", kind(&other)),
    }
}

#[test]
fn decoder_reports_truncation_and_malformed() {
    assert!(matches!(decode_value(&vec![]), DecodeResult::NeedMore));
    assert!(matches!(decode_value(&vec![0xa2, b'a']), DecodeResult::NeedMore));
    assert!(matches!(decode_value(&vec![0xcd, 0x01]), DecodeResult::NeedMore));
    assert!(matches!(decode_value(&vec![0xc1]), DecodeResult::Malformed));
    // an array whose element is malformed
    assert!(matches!(decode_value(&vec![0x91, 0xc1]), DecodeResult::Malformed));
}

#[test]
fn decode_at_offset() {
    let mut bytes = vec![0xc0, 0xc2];
    bytes.push(0xc3);
    match decode_at(&bytes, 1) {
        DecodeResult::Done(Value::Bool(false), 2) => {}
        other => panic!("offset decode: {}", kind(&other)),
    }
}

#[test]
fn interop_with_independent_encoder() {
    // our bytes decode with rmpv
    let bytes = encode_value(&sample_value());
    let mut cursor = &bytes[..];
    let theirs = rmpv::decode::read_value(&mut cursor).expect("rmpv decodes our bytes");
    assert!(cursor.is_empty());

    // rmpv's re-encoding (compact formats) decodes with us
    let mut compact = Vec::new();
    rmpv::encode::write_value(&mut compact, &theirs).expect("rmpv re-encodes");
    match decode_value(&compact) {
        DecodeResult::Done(ours, end) => {
            assert_eq!(end, compact.len());
            assert_eq!(encode_value(&ours), bytes, "the value survives both codecs");
        }
        other => panic!("decoding rmpv bytes: {}", kind(&other)),
    }
}
