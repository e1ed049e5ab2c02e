//! Editor client tests: the connection state machine, the diagnostics
//! cache, and reply decoding.

use nvim_mcp::client::{
    parse_buffers, parse_diag_payload, ClientEvent, NeovimClient,
};
use nvim_mcp::error::NeovimError;
use nvim_mcp::rpc::RpcMessage;
use nvim_mcp::value::Value;

#[test]
fn test_tcp_connection_lifecycle() {
    let address = "127.0.0.1:6666";
    let mut client = NeovimClient::new();

    let result = client.connect(address, Ok(()));
    assert!(result.is_ok(), "failed to connect");

    let result = client.connect(address, Ok(()));
    assert!(result.is_err(), "should not be able to connect twice");
    assert!(matches!(result, Err(NeovimError::AlreadyConnected)));

    let result = client.disconnect();
    assert!(result.is_ok(), "failed to disconnect");

    let result = client.disconnect();
    assert!(
        result.is_err(),
        "should not be able to disconnect when not connected"
    );
    assert!(matches!(result, Err(NeovimError::NotConnected)));
}

#[test]
fn test_error_handling() {
    let mut client = NeovimClient::new();

    let result = client.get_buffers();
    assert!(result.is_err(), "get_buffers should fail when not connected");

    let result = client.execute_lua("return 1");
    assert!(result.is_err(), "execute_lua should fail when not connected");

    let result = client.disconnect();
    assert!(result.is_err(), "disconnect should fail when not connected");
}

#[test]
fn test_connection_constraint() {
    let path = "/tmp/nvim-test.sock";
    let mut client = NeovimClient::new();

    let result = client.connect(path, Ok(()));
    assert!(result.is_ok(), "failed to connect to instance");

    let result = client.connect(path, Ok(()));
    assert!(result.is_err(), "should not be able to connect twice");

    let result = client.disconnect();
    assert!(result.is_ok(), "failed to disconnect from instance");

    let result = client.connect(path, Ok(()));
    assert!(result.is_ok(), "failed to reconnect after disconnect");
}

#[test]
fn transport_failure_stays_disconnected() {
    let mut client = NeovimClient::new();
    let result = client.connect("127.0.0.1:1", Err("connection refused".to_string()));
    assert!(matches!(result, Err(NeovimError::Transport(_))));
    assert!(client.execute_lua("return 1").is_err());
}

#[test]
fn empty_code_is_an_api_error() {
    let mut client = NeovimClient::new();
    client.connect("127.0.0.1:6666", Ok(())).unwrap();
    let result = client.execute_lua("");
    assert!(matches!(result, Err(NeovimError::Api(_))));
}

fn diag_dict(lnum: u64, col: u64, message: &str) -> Value {
    Value::Dict(vec![
        (Value::Str(b"lnum".to_vec()), Value::UInt(lnum)),
        (Value::Str(b"col".to_vec()), Value::UInt(col)),
        (Value::Str(b"end_lnum".to_vec()), Value::UInt(lnum)),
        (Value::Str(b"end_col".to_vec()), Value::UInt(col + 1)),
        (Value::Str(b"severity".to_vec()), Value::UInt(1)),
        (
            Value::Str(b"message".to_vec()),
            Value::Str(message.as_bytes().to_vec()),
        ),
        (Value::Str(b"source".to_vec()), Value::Str(b"luals".to_vec())),
    ])
}

fn diagnostics_notification(buffer: u64, diags: Vec<Value>) -> RpcMessage {
    RpcMessage::Notification {
        method: b"nvim_mcp_diagnostics_changed".to_vec(),
        params: vec![Value::UInt(buffer), Value::Array(diags)],
    }
}

#[test]
fn diagnostics_cache_replacement() {
    let mut client = NeovimClient::new();
    client.connect("127.0.0.1:6666", Ok(())).unwrap();
    client.setup_diagnostics_changed_autocmd().unwrap();

    // an unseen buffer reads as empty, never an error
    assert!(client.get_buffer_diagnostics(0).is_empty());

    // the first notification fills buffer 0
    let ev = client.handle_message(diagnostics_notification(
        0,
        vec![diag_dict(3, 1, "undefined variable"), diag_dict(9, 0, "unused")],
    ));
    assert!(matches!(ev, ClientEvent::DiagnosticsUpdated { buffer: 0 }));
    let ds = client.get_buffer_diagnostics(0);
    assert_eq!(ds.len(), 2);
    assert_eq!(ds[0].lnum, 3);
    assert_eq!(ds[0].message, "undefined variable");
    assert_eq!(ds[1].source, "luals");

    // replacement, not append: the next payload wins wholesale
    let ev = client.handle_message(diagnostics_notification(
        0,
        vec![diag_dict(7, 2, "only one left")],
    ));
    assert!(matches!(ev, ClientEvent::DiagnosticsUpdated { buffer: 0 }));
    let ds = client.get_buffer_diagnostics(0);
    assert_eq!(ds.len(), 1);
    assert_eq!(ds[0].message, "only one left");

    // unrelated buffers are untouched
    client.handle_message(diagnostics_notification(5, vec![diag_dict(1, 1, "other")]));
    assert_eq!(client.get_buffer_diagnostics(0).len(), 1);
    assert_eq!(client.get_buffer_diagnostics(5).len(), 1);
    assert!(client.get_buffer_diagnostics(6).is_empty());

    let ws = client.get_workspace_diagnostics();
    assert_eq!(ws.len(), 2);
}

#[test]
fn malformed_diagnostics_are_dropped() {
    let mut client = NeovimClient::new();
    client.connect("127.0.0.1:6666", Ok(())).unwrap();
    client.setup_diagnostics_changed_autocmd().unwrap();
    let ev = client.handle_message(RpcMessage::Notification {
        method: b"nvim_mcp_diagnostics_changed".to_vec(),
        params: vec![Value::Str(b"not a buffer id".to_vec())],
    });
    assert!(matches!(ev, ClientEvent::MalformedDiagnostics));
    assert!(client.get_buffer_diagnostics(0).is_empty());
}

#[test]
fn parse_diag_payload_shape() {
    let params = vec![
        Value::UInt(2),
        Value::Array(vec![diag_dict(0, 0, "m")]),
    ];
    let (buffer, ds) = parse_diag_payload(&params).expect("payload parses");
    assert_eq!(buffer, 2);
    assert_eq!(ds.len(), 1);
    assert!(parse_diag_payload(&vec![Value::Nil]).is_none());
}

#[test]
fn parse_buffers_reply() {
    let reply = Value::Array(vec![Value::Array(vec![
        Value::UInt(1),
        Value::Str(b"a.txt".to_vec()),
        Value::UInt(5),
    ])]);
    let buffers = parse_buffers(&reply).expect("reply parses");
    assert_eq!(buffers.len(), 1);
    assert_eq!(buffers[0].id, 1);
    assert_eq!(buffers[0].name, "a.txt");
    assert_eq!(buffers[0].line_count, 5);

    let bad = Value::Array(vec![Value::Array(vec![Value::UInt(1)])]);
    assert!(parse_buffers(&bad).is_err());
}
