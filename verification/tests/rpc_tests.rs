//! RPC layer tests: frame round trips and out-of-order response
//! correlation.

use nvim_mcp::codec::{decode_value, encode_value, DecodeResult};
use nvim_mcp::rpc::{frame_message, RpcAction, RpcMessage, RpcState};
use nvim_mcp::value::Value;

#[test]
fn request_frame_round_trip() {
    let msg = RpcMessage::Request {
        msgid: 7,
        method: b"nvim_exec_lua".to_vec(),
        params: vec![Value::Str(b"return 42".to_vec()), Value::Array(vec![])],
    };
    let frame = frame_message(msg);
    let bytes = encode_value(&frame);
    match decode_value(&bytes) {
        DecodeResult::Done(Value::Array(items), end) => {
            assert_eq!(end, bytes.len());
            assert_eq!(items.len(), 4);
            assert!(matches!(items[0], Value::UInt(0)));
            assert!(matches!(items[1], Value::UInt(7)));
            match &items[2] {
                Value::Str(m) => assert_eq!(m, &b"nvim_exec_lua".to_vec()),
                _ => panic!("method is not a string"),
            }
            match &items[3] {
                Value::Array(params) => {
                    assert_eq!(params.len(), 2);
                    match &params[0] {
                        Value::Str(code) => assert_eq!(code, &b"return 42".to_vec()),
                        _ => panic!("code is not a string"),
                    }
                }
                _ => panic!("params is not an array"),
            }
        }
        _ => panic!("frame did not decode"),
    }
}

#[test]
fn notification_frame_shape() {
    let msg = RpcMessage::Notification {
        method: b"nvim_mcp_diagnostics_changed".to_vec(),
        params: vec![Value::UInt(3)],
    };
    let frame = frame_message(msg);
    match frame {
        Value::Array(items) => {
            assert_eq!(items.len(), 3);
            assert!(matches!(items[0], Value::UInt(2)));
        }
        _ => panic!("notification is not an array"),
    }
}

#[test]
fn correlation_out_of_order() {
    let mut state = RpcState::new();
    let a = state.begin_call().expect("first msgid");
    let b = state.begin_call().expect("second msgid");
    assert_ne!(a, b);

    // the reply for the *second* call arrives first
    match state.on_message(RpcMessage::Response {
        msgid: b,
        error: Value::Nil,
        result: Value::UInt(2),
    }) {
        RpcAction::Deliver { msgid, result, .. } => {
            assert_eq!(msgid, b);
            assert!(matches!(result, Value::UInt(2)));
        }
        _ => panic!("second reply was not delivered"),
    }
    match state.on_message(RpcMessage::Response {
        msgid: a,
        error: Value::Nil,
        result: Value::UInt(1),
    }) {
        RpcAction::Deliver { msgid, result, .. } => {
            assert_eq!(msgid, a);
            assert!(matches!(result, Value::UInt(1)));
        }
        _ => panic!("first reply was not delivered"),
    }

    // a reply for a resolved msgid is discarded, never delivered again
    match state.on_message(RpcMessage::Response {
        msgid: a,
        error: Value::Nil,
        result: Value::Nil,
    }) {
        RpcAction::DiscardUnknown { msgid } => assert_eq!(msgid, a),
        _ => panic!("duplicate reply was not discarded"),
    }
}

#[test]
fn teardown_fails_pending_calls() {
    let mut state = RpcState::new();
    let a = state.begin_call().expect("msgid");
    let b = state.begin_call().expect("msgid");
    let abandoned = state.close();
    assert_eq!(abandoned, vec![a, b]);
    assert!(state.begin_call().is_err(), "no calls after teardown");
}

#[test]
fn notifications_route_by_subscription() {
    let mut state = RpcState::new();
    match state.on_message(RpcMessage::Notification {
        method: b"unwatched".to_vec(),
        params: vec![],
    }) {
        RpcAction::DropNotification { .. } => {}
        _ => panic!("unsubscribed notification was not dropped"),
    }
    state.subscribe(b"watched".to_vec());
    match state.on_message(RpcMessage::Notification {
        method: b"watched".to_vec(),
        params: vec![Value::UInt(9)],
    }) {
        RpcAction::Notify { method, params } => {
            assert_eq!(method, b"watched".to_vec());
            assert_eq!(params.len(), 1);
        }
        _ => panic!("subscribed notification was not forwarded"),
    }
}
