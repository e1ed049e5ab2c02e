//! msgpack-to-JSON conversion tests: lossless on representable values,
//! named rejections for the rest.

use nvim_mcp::error::NeovimError;
use nvim_mcp::json::{convert_nvim_value_to_json, JsonValue};
use nvim_mcp::value::Value;

#[test]
fn converts_nested_values() {
    let v = Value::Dict(vec![
        (
            Value::Str(b"list".to_vec()),
            Value::Array(vec![Value::Nil, Value::Bool(true), Value::Int(-3), Value::UInt(9)]),
        ),
        (Value::Str(b"text".to_vec()), Value::Str(b"hi".to_vec())),
    ]);
    match convert_nvim_value_to_json(&v) {
        Ok(JsonValue::Object(members)) => {
            assert_eq!(members.len(), 2);
            assert_eq!(members[0].0, "list");
            match &members[0].1 {
                JsonValue::Array(items) => assert_eq!(items.len(), 4),
                _ => panic!("list did not convert to an array"),
            }
            assert_eq!(members[1].0, "text");
            match &members[1].1 {
                JsonValue::Str(s) => assert_eq!(s, "hi"),
                _ => panic!("text did not convert to a string"),
            }
        }
        _ => panic!("map did not convert to an object"),
    }
}

#[test]
fn rejects_binary_and_extension_values() {
    let err = convert_nvim_value_to_json(&Value::Bin(vec![1, 2]));
    match err {
        Err(NeovimError::Api(msg)) => assert_eq!(msg, "Binary values not supported"),
        _ => panic!("binary must be rejected with a named error"),
    }
    let err = convert_nvim_value_to_json(&Value::Ext(1, vec![1]));
    match err {
        Err(NeovimError::Api(msg)) => assert_eq!(msg, "Extension values not supported"),
        _ => panic!("extension must be rejected with a named error"),
    }
}

#[test]
fn rejects_invalid_utf8_and_non_string_keys() {
    let err = convert_nvim_value_to_json(&Value::Str(vec![0xff, 0xfe]));
    assert!(matches!(err, Err(NeovimError::Api(_))));

    let err = convert_nvim_value_to_json(&Value::Dict(vec![(Value::UInt(1), Value::Nil)]));
    match err {
        Err(NeovimError::Api(msg)) => assert_eq!(msg, "Map keys must be strings"),
        _ => panic!("integer keys must be rejected"),
    }
}

#[test]
fn rejects_non_finite_floats_and_keeps_finite_bits() {
    let nan_bits = f64::NAN.to_bits();
    let err = convert_nvim_value_to_json(&Value::F64(nan_bits));
    assert!(matches!(err, Err(NeovimError::Api(_))));

    let pi_bits = 3.141592653589793f64.to_bits();
    match convert_nvim_value_to_json(&Value::F64(pi_bits)) {
        Ok(JsonValue::F64(bits)) => assert_eq!(bits, pi_bits),
        _ => panic!("a finite double converts bit-for-bit"),
    }

    let inf32 = f32::INFINITY.to_bits();
    assert!(convert_nvim_value_to_json(&Value::F32(inf32)).is_err());
}
