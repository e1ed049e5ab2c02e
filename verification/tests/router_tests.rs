//! Hybrid router tests: registration, teardown, name collisions with
//! the static set, dispatch, and sorted listings.

use nvim_mcp::error::NeovimError;
use nvim_mcp::json::JsonValue;
use nvim_mcp::router::{
    build_tool_router, DynamicTool, HybridToolRouter, ToolDispatch,
};

fn tool(name: &str) -> DynamicTool {
    DynamicTool {
        name: name.to_string(),
        description: format!("dynamic tool {}", name),
        input_schema: JsonValue::Object(vec![(
            "type".to_string(),
            JsonValue::Str("object".to_string()),
        )]),
    }
}

fn router() -> HybridToolRouter {
    HybridToolRouter::new(build_tool_router())
}

#[test]
fn register_then_unregister_all() {
    let mut r = router();
    let c1 = "c_aaaaaa".to_string();
    let c2 = "c_bbbbbb".to_string();
    r.register_dynamic_tool(&c1, tool("format_file")).unwrap();
    r.register_dynamic_tool(&c2, tool("format_file")).unwrap();
    assert!(r.has_tool(&"format_file".to_string()));
    assert_eq!(r.get_dynamic_tool_count(), 1);
    assert_eq!(r.get_connection_tool_count(&c1), 1);

    r.unregister_dynamic_tools(&c1);

    // c1's instance is gone: dispatch for c1 fails
    match r.call_tool(&"format_file".to_string(), Some(&c1)) {
        Err(NeovimError::ToolNotFound(_)) => {}
        other => panic!("expected tool-not-found for c1, got {:?}", name_of(&other)),
    }
    // c2's instance is untouched and still dispatchable
    match r.call_tool(&"format_file".to_string(), Some(&c2)) {
        Ok(ToolDispatch::Dynamic(t)) => assert_eq!(t.name, "format_file"),
        other => panic!("expected c2 dispatch, got {:?}", name_of(&other)),
    }

    r.unregister_dynamic_tools(&c2);
    assert!(!r.has_tool(&"format_file".to_string()));
    match r.call_tool(&"format_file".to_string(), Some(&c2)) {
        Err(NeovimError::ToolNotFound(_)) => {}
        other => panic!("expected tool-not-found, got {:?}", name_of(&other)),
    }
}

fn name_of(r: &Result<ToolDispatch, NeovimError>) -> &'static str {
    match r {
        Ok(ToolDispatch::Dynamic(_)) => "dynamic",
        Ok(ToolDispatch::Static) => "static",
        Err(NeovimError::ToolNotFound(_)) => "tool-not-found",
        Err(NeovimError::InvalidParams(_)) => "invalid-params",
        Err(NeovimError::ConnectionNotFound(_)) => "connection-not-found",
        Err(_) => "other-error",
    }
}

#[test]
fn static_name_collision_fails_and_mutates_nothing() {
    let mut r = router();
    let c1 = "c_aaaaaa".to_string();
    let result = r.register_dynamic_tool(&c1, tool("connect"));
    assert!(matches!(result, Err(NeovimError::NameConflict(_))));
    assert_eq!(r.get_dynamic_tool_count(), 0);
    assert_eq!(r.get_connection_tool_count(&c1), 0);
    // the name still dispatches statically
    match r.call_tool(&"connect".to_string(), None) {
        Ok(ToolDispatch::Static) => {}
        other => panic!("expected static dispatch, got {:?}", name_of(&other)),
    }
}

#[test]
fn dynamic_dispatch_needs_connection_id() {
    let mut r = router();
    r.register_dynamic_tool(&"c_aaaaaa".to_string(), tool("rename")).unwrap();
    match r.call_tool(&"rename".to_string(), None) {
        Err(NeovimError::InvalidParams(_)) => {}
        other => panic!("expected invalid-params, got {:?}", name_of(&other)),
    }
}

#[test]
fn unknown_tool_name_fails() {
    let r = router();
    match r.call_tool(&"no_such_tool".to_string(), None) {
        Err(NeovimError::ToolNotFound(_)) => {}
        other => panic!("expected tool-not-found, got {:?}", name_of(&other)),
    }
}

#[test]
fn listing_is_sorted_and_counts_connections() {
    let mut r = router();
    r.register_dynamic_tool(&"c_aaaaaa".to_string(), tool("zz_last")).unwrap();
    r.register_dynamic_tool(&"c_bbbbbb".to_string(), tool("zz_last")).unwrap();
    r.register_dynamic_tool(&"c_aaaaaa".to_string(), tool("aa_first")).unwrap();
    let listing = r.list_all_tools();
    assert_eq!(listing.len(), 9 + 2);
    for w in listing.windows(2) {
        assert!(w[0].name <= w[1].name, "listing is sorted by name");
    }
    let zz = listing.iter().find(|t| t.name == "zz_last").unwrap();
    assert_eq!(zz.dynamic_connections, 2);
    let aa = listing.iter().find(|t| t.name == "aa_first").unwrap();
    assert_eq!(aa.dynamic_connections, 1);
    let stat = listing.iter().find(|t| t.name == "connect").unwrap();
    assert_eq!(stat.dynamic_connections, 0);
    assert!(stat.input_schema.is_none(), "static rows carry no schema");
    assert!(zz.input_schema.is_some(), "dynamic rows carry the registered schema");
}

#[test]
fn pruned_names_leave_the_listing() {
    let mut r = router();
    let c1 = "c_aaaaaa".to_string();
    r.register_dynamic_tool(&c1, tool("short_lived")).unwrap();
    assert!(r.list_all_tools().iter().any(|t| t.name == "short_lived"));
    r.unregister_dynamic_tools(&c1);
    assert!(
        !r.list_all_tools().iter().any(|t| t.name == "short_lived"),
        "a name whose last connection left is pruned from listings"
    );
    assert!(!r.has_tool(&"short_lived".to_string()));
}

#[test]
fn connection_tools_info_flags_static_and_dynamic() {
    let mut r = router();
    r.register_dynamic_tool(&"c_aaaaaa".to_string(), tool("rename")).unwrap();
    let info = r.get_connection_tools_info("c_aaaaaa");
    assert_eq!(info.len(), 9 + 1);
    assert!(info[..9].iter().all(|(_, _, is_static)| *is_static));
    assert_eq!(info[9].0, "rename");
    assert!(!info[9].2);
    // another connection sees only the static tools
    let other = r.get_connection_tools_info("c_bbbbbb");
    assert_eq!(other.len(), 9);
}
