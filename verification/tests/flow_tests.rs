//! End-to-end flow tests: a framed request answered by a simulated peer
//! reaches its caller through the gateway, and the LSP builders pass
//! their inputs through unchanged.

use nvim_mcp::client::{CodeAction, ClientEvent, NeovimClient, WorkspaceEdit};
use nvim_mcp::server::parse_u64;
use nvim_mcp::client::response_to_result;
use nvim_mcp::error::NeovimError;
use nvim_mcp::json::JsonValue;
use nvim_mcp::lua_tools::discovery_code;
use nvim_mcp::router::DynamicTool;
use nvim_mcp::codec::{decode_value, DecodeResult};
use nvim_mcp::rpc::{classify_message, RpcMessage};
use nvim_mcp::server::NeovimMcpServer;
use nvim_mcp::value::Value;

#[test]
fn response_routes_through_the_gateway() {
    let mut server = NeovimMcpServer::new();
    let reply = server.connect("127.0.0.1:6666", Ok(())).unwrap();
    let (msgid, _bytes) = server.list_buffers(&reply.connection_id).unwrap();

    // the peer answers out of the blue, by msgid
    let ev = server
        .handle_incoming(
            &reply.connection_id,
            RpcMessage::Response {
                msgid,
                error: Value::Nil,
                result: Value::Array(vec![]),
            },
        )
        .expect("the connection is known");
    match ev {
        ClientEvent::Delivered { msgid: m, result, .. } => {
            assert_eq!(m, msgid);
            assert!(matches!(result, Value::Array(_)));
        }
        _ => panic!("the response was not delivered"),
    }

    // the same msgid a second time is discarded
    let ev = server
        .handle_incoming(
            &reply.connection_id,
            RpcMessage::Response { msgid, error: Value::Nil, result: Value::Nil },
        )
        .unwrap();
    assert!(matches!(ev, ClientEvent::DiscardedUnknown { .. }));
}

#[test]
fn decoded_request_classifies_back() {
    let mut client = NeovimClient::new();
    client.connect("127.0.0.1:6666", Ok(())).unwrap();
    let (msgid, bytes) = client.execute_lua("return 42").unwrap();
    let value = match decode_value(&bytes) {
        DecodeResult::Done(v, _) => v,
        _ => panic!("request bytes decode"),
    };
    match classify_message(value) {
        Some(RpcMessage::Request { msgid: m, method, params }) => {
            assert_eq!(m, msgid);
            assert_eq!(method, b"nvim_exec_lua".to_vec());
            assert_eq!(params.len(), 2);
            match &params[0] {
                Value::Str(code) => assert_eq!(code, &b"return 42".to_vec()),
                _ => panic!("code is not a string"),
            }
        }
        _ => panic!("the frame did not classify as a request"),
    }
}

#[test]
fn lsp_builders_pass_positions_through() {
    let mut client = NeovimClient::new();
    client.connect("127.0.0.1:6666", Ok(())).unwrap();
    let (_, bytes) = client
        .lsp_get_code_actions(
            "luals",
            nvim_mcp::client::DocumentIdentifier::from_buffer_id(0),
            nvim_mcp::client::Range {
                start: nvim_mcp::client::Position { line: 3, character: 1 },
                end: nvim_mcp::client::Position { line: 3, character: 9 },
            },
        )
        .unwrap();
    let value = match decode_value(&bytes) {
        DecodeResult::Done(v, _) => v,
        _ => panic!("request bytes decode"),
    };
    let args = match classify_message(value) {
        Some(RpcMessage::Request { params, .. }) => match params.into_iter().nth(1) {
            Some(Value::Array(args)) => args,
            _ => panic!("arguments are not an array"),
        },
        _ => panic!("not a request"),
    };
    // client name, buffer, then the four positions, zero-based, unchanged
    assert_eq!(args.len(), 6);
    assert!(matches!(args[1], Value::UInt(0)));
    assert!(matches!(args[2], Value::UInt(3)));
    assert!(matches!(args[3], Value::UInt(1)));
    assert!(matches!(args[4], Value::UInt(3)));
    assert!(matches!(args[5], Value::UInt(9)));
}

#[test]
fn lsp_resolve_and_apply_carry_raw_values() {
    let mut client = NeovimClient::new();
    client.connect("127.0.0.1:6666", Ok(())).unwrap();
    let action = CodeAction {
        title: "quickfix".to_string(),
        raw: Value::Dict(vec![(
            Value::Str(b"title".to_vec()),
            Value::Str(b"quickfix".to_vec()),
        )]),
    };
    assert!(client.lsp_resolve_code_action("luals", action).is_ok());
    let edit = WorkspaceEdit { raw: Value::Dict(vec![]) };
    assert!(client.lsp_apply_workspace_edit("luals", edit).is_ok());
}

#[test]
fn remote_errors_become_api_failures() {
    // a nil error is success, carrying the result through
    match response_to_result(Value::Nil, Value::UInt(7)) {
        Ok(Value::UInt(7)) => {}
        _ => panic!("a nil error must pass the result through"),
    }
    // the editor's usual [type, message] error pair
    let err = Value::Array(vec![
        Value::UInt(0),
        Value::Str(b"invalid lua syntax".to_vec()),
    ]);
    match response_to_result(err, Value::Nil) {
        Err(NeovimError::Api(msg)) => {
            assert_eq!(msg, "invalid lua syntax");
        }
        _ => panic!("a remote rejection must surface as Api with its message"),
    }
    // a bare string error
    match response_to_result(Value::Str(b"boom".to_vec()), Value::Nil) {
        Err(NeovimError::Api(msg)) => assert_eq!(msg, "boom"),
        _ => panic!("a string error must surface as Api"),
    }
    // an unreadable error still fails, with the fixed note
    match response_to_result(Value::UInt(1), Value::Nil) {
        Err(NeovimError::Api(msg)) => {
            assert_eq!(msg, "remote call failed");
        }
        _ => panic!("any non-nil error must fail"),
    }
}

#[test]
fn disconnect_garbage_collects_dynamic_tools() {
    let mut server = NeovimMcpServer::new();
    let reply = server.connect("127.0.0.1:6666", Ok(())).unwrap();
    server
        .register_dynamic_tool(
            &reply.connection_id,
            DynamicTool {
                name: "format_file".to_string(),
                description: "formats".to_string(),
                input_schema: JsonValue::Null,
            },
        )
        .unwrap();
    assert!(server.list_tools().iter().any(|t| t.name == "format_file"));
    server.disconnect(&reply.connection_id).unwrap();
    assert!(
        !server.list_tools().iter().any(|t| t.name == "format_file"),
        "disconnect removes the connection's dynamic tools"
    );
}

#[test]
fn discovery_code_is_the_tool_table_snippet() {
    assert_eq!(
        discovery_code(),
        "return require('nvim-mcp').get_registered_tools()"
    );
}

#[test]
fn parse_u64_edges() {
    assert_eq!(parse_u64("0"), Some(0));
    assert_eq!(parse_u64("18446744073709551615"), Some(u64::MAX));
    assert_eq!(parse_u64("18446744073709551616"), None);
    assert_eq!(parse_u64(""), None);
    assert_eq!(parse_u64("12a"), None);
    assert_eq!(parse_u64("-1"), None);
}
