//! Gateway facade tests: the connect/disconnect lifecycle against the
//! registry, request framing for the tool handlers, resource reads, and
//! the version string.

use nvim_mcp::codec::{decode_value, DecodeResult};
use nvim_mcp::error::NeovimError;
use nvim_mcp::server::{
    long_version, parse_resource_uri, NeovimMcpServer, ResourceContent, ResourceRef,
};
use nvim_mcp::value::Value;

#[test]
fn connect_list_disconnect_round_trip() {
    let mut server = NeovimMcpServer::new();
    let reply = server
        .connect("127.0.0.1:6666", Ok(()))
        .expect("connect succeeds");
    assert!(reply.connection_id.starts_with("c_"));
    assert_eq!(reply.connection_id.len(), 8, "a short, stable id");
    assert_eq!(reply.target, "127.0.0.1:6666");
    assert!(!reply.setup_request.is_empty());

    // the list-buffers handler frames a real request for this connection
    let (msgid, bytes) = server
        .list_buffers(&reply.connection_id)
        .expect("list_buffers frames a request");
    match decode_value(&bytes) {
        DecodeResult::Done(Value::Array(items), _) => {
            assert_eq!(items.len(), 4);
            assert!(matches!(items[0], Value::UInt(0)));
            match items[1] {
                Value::UInt(m) => assert_eq!(m, msgid as u64),
                _ => panic!("msgid is not unsigned"),
            }
        }
        _ => panic!("request frame did not decode"),
    }

    let gone = server
        .disconnect(&reply.connection_id)
        .expect("disconnect succeeds");
    assert_eq!(gone.connection_id, reply.connection_id);
    assert_eq!(gone.target, "127.0.0.1:6666");

    // the id is unknown afterwards
    match server.list_buffers(&reply.connection_id) {
        Err(NeovimError::ConnectionNotFound(_)) => {}
        _ => panic!("a removed connection must be unknown"),
    }
}

#[test]
fn same_target_is_already_connected() {
    let mut server = NeovimMcpServer::new();
    server.connect("127.0.0.1:6666", Ok(())).unwrap();
    let second = server.connect("127.0.0.1:6666", Ok(()));
    assert!(matches!(second, Err(NeovimError::AlreadyConnected)));

    // a different target gets its own id
    let other = server.connect("127.0.0.1:7777", Ok(())).unwrap();
    assert!(other.connection_id.starts_with("c_"));
}

#[test]
fn ids_are_deterministic_per_target() {
    let mut a = NeovimMcpServer::new();
    let mut b = NeovimMcpServer::new();
    let ra = a.connect("127.0.0.1:6666", Ok(())).unwrap();
    let rb = b.connect("127.0.0.1:6666", Ok(())).unwrap();
    assert_eq!(ra.connection_id, rb.connection_id);
}

#[test]
fn get_targets_rejects_an_empty_scan() {
    let server = NeovimMcpServer::new();
    assert!(matches!(
        server.get_targets(vec![]),
        Err(NeovimError::InvalidParams(_))
    ));
    let ts = server
        .get_targets(vec!["/tmp/a.sock".to_string()])
        .unwrap();
    assert_eq!(ts.len(), 1);
}

#[test]
fn exec_lua_paths() {
    let mut server = NeovimMcpServer::new();
    let reply = server.connect("127.0.0.1:6666", Ok(())).unwrap();
    assert!(server.exec_lua(&reply.connection_id, "return 42").is_ok());
    assert!(matches!(
        server.exec_lua(&reply.connection_id, ""),
        Err(NeovimError::Api(_))
    ));
    assert!(matches!(
        server.exec_lua(&"c_nosuch".to_string(), "return 1"),
        Err(NeovimError::ConnectionNotFound(_))
    ));
}

#[test]
fn buffer_code_actions_frames_a_request() {
    let mut server = NeovimMcpServer::new();
    let reply = server.connect("127.0.0.1:6666", Ok(())).unwrap();
    let framed = server.buffer_code_actions(&reply.connection_id, 0, "luals", 3, 1, 3, 9);
    assert!(framed.is_ok());
}

#[test]
fn resource_uri_grammar() {
    assert!(matches!(
        parse_resource_uri("nvim-connections://"),
        ResourceRef::ConnectionsList
    ));
    assert!(matches!(
        parse_resource_uri("nvim-tools://"),
        ResourceRef::ToolsOverview
    ));
    match parse_resource_uri("nvim-tools://c_abc123") {
        ResourceRef::ConnectionTools(id) => assert_eq!(id, "c_abc123"),
        _ => panic!("connection tools URI"),
    }
    match parse_resource_uri("nvim-diagnostics://c_abc123/workspace") {
        ResourceRef::WorkspaceDiagnostics(id) => assert_eq!(id, "c_abc123"),
        _ => panic!("workspace URI"),
    }
    match parse_resource_uri("nvim-diagnostics://c_abc123/buffer/12") {
        ResourceRef::BufferDiagnostics(id, b) => {
            assert_eq!(id, "c_abc123");
            assert_eq!(b, 12);
        }
        _ => panic!("buffer URI"),
    }
    assert!(matches!(
        parse_resource_uri("nvim-diagnostics://c_abc123/buffer/not-a-number"),
        ResourceRef::InvalidBufferId(_)
    ));
    assert!(matches!(
        parse_resource_uri("nvim-diagnostics://c_abc123/nothing"),
        ResourceRef::Unknown
    ));
    assert!(matches!(
        parse_resource_uri("nvim-diagnostics:///workspace"),
        ResourceRef::Unknown
    ));
    assert!(matches!(parse_resource_uri("file://x"), ResourceRef::Unknown));
}

#[test]
fn read_resource_errors() {
    let server = NeovimMcpServer::new();
    assert!(matches!(
        server.read_resource("file://x"),
        Err(NeovimError::ResourceNotFound(_))
    ));
    assert!(matches!(
        server.read_resource("nvim-diagnostics://c_x/buffer/zz"),
        Err(NeovimError::InvalidParams(_))
    ));
    assert!(matches!(
        server.read_resource("nvim-diagnostics://c_x/workspace"),
        Err(NeovimError::ConnectionNotFound(_))
    ));
    match server.read_resource("nvim-connections://") {
        Ok(ResourceContent::Connections(cs)) => assert!(cs.is_empty()),
        _ => panic!("connections resource"),
    }
}

#[test]
fn list_resources_grows_with_connections() {
    let mut server = NeovimMcpServer::new();
    assert_eq!(server.list_resources().len(), 2);
    let reply = server.connect("127.0.0.1:6666", Ok(())).unwrap();
    let rs = server.list_resources();
    assert_eq!(rs.len(), 4);
    let diag_uri = format!("nvim-diagnostics://{}/workspace", reply.connection_id);
    assert!(rs.iter().any(|(uri, _)| *uri == diag_uri));
}

#[test]
fn call_tool_dispatch_order() {
    let server = NeovimMcpServer::new();
    // a static tool dispatches without any connection id
    assert!(server.call_tool(&"connect".to_string(), None).is_ok());
    assert!(matches!(
        server.call_tool(&"no_such".to_string(), None),
        Err(NeovimError::ToolNotFound(_))
    ));
}

#[test]
fn long_version_format() {
    let v = long_version("0.1.0", "abc123", "2024-01-01", false);
    assert_eq!(v, "0.1.0 (sha:\"abc123\", build_time:\"2024-01-01\")");
    let dirty = long_version("0.1.0", "abc123", "2024-01-01", true);
    assert_eq!(dirty, "0.1.0 (sha:\"abc123\", build_time:\"2024-01-01\")[dirty]");
}
