//! Discovered-tool tests: schema validation through the real validator,
//! reply conversion, and tool table parsing.

use nvim_mcp::error::NeovimError;
use nvim_mcp::json::JsonValue;
use nvim_mcp::lua_tools::{
    build_execute_tool_code, convert_lua_response_to_mcp, discover_lua_tools,
    LuaToolValidator,
};

fn schema_text() -> &'static str {
    r#"{"type":"object","properties":{"name":{"type":"string"}},"required":["name"]}"#
}

#[test]
fn test_lua_tool_validator_creation() {
    let validator = LuaToolValidator::new(schema_text());
    assert!(validator.is_ok());
}

#[test]
fn test_lua_tool_validator_validation() {
    let validator = LuaToolValidator::new(schema_text()).unwrap();

    // Valid parameters
    let valid_params = r#"{"name":"test"}"#;
    assert!(validator.is_valid(valid_params));
    assert!(validator.validate(valid_params).is_ok());

    // Invalid parameters
    let invalid_params = r#"{"age":25}"#;
    assert!(!validator.is_valid(invalid_params));
    assert!(validator.validate(invalid_params).is_err());
}

fn content_block(text: &str) -> JsonValue {
    JsonValue::Object(vec![
        ("type".to_string(), JsonValue::Str("text".to_string())),
        ("text".to_string(), JsonValue::Str(text.to_string())),
    ])
}

#[test]
fn test_convert_lua_response_to_mcp_success() {
    let lua_response = JsonValue::Object(vec![
        (
            "content".to_string(),
            JsonValue::Array(vec![content_block("success message")]),
        ),
        ("isError".to_string(), JsonValue::Bool(false)),
    ]);

    let result = convert_lua_response_to_mcp(&lua_response);
    assert!(result.is_ok());

    let texts = result.unwrap();
    assert_eq!(texts.len(), 1);
    assert_eq!(texts[0], "success message");
}

#[test]
fn test_convert_lua_response_to_mcp_error() {
    let lua_response = JsonValue::Object(vec![
        (
            "content".to_string(),
            JsonValue::Array(vec![content_block("error message")]),
        ),
        ("isError".to_string(), JsonValue::Bool(true)),
        (
            "_meta".to_string(),
            JsonValue::Object(vec![(
                "error".to_string(),
                JsonValue::Object(vec![
                    ("code".to_string(), JsonValue::Str("TEST_ERROR".to_string())),
                    (
                        "message".to_string(),
                        JsonValue::Str("Test error message".to_string()),
                    ),
                ]),
            )]),
        ),
    ]);

    let result = convert_lua_response_to_mcp(&lua_response);
    assert!(result.is_err());
    match result {
        Err(NeovimError::Api(msg)) => assert_eq!(msg, "Test error message"),
        _ => panic!("expected the remote error message"),
    }
}

#[test]
fn malformed_reply_is_an_api_error() {
    let no_content = JsonValue::Object(vec![(
        "isError".to_string(),
        JsonValue::Bool(false),
    )]);
    assert!(matches!(
        convert_lua_response_to_mcp(&no_content),
        Err(NeovimError::Api(_))
    ));
}

#[test]
fn discover_parses_a_tool_table() {
    let table = JsonValue::Object(vec![(
        "format_file".to_string(),
        JsonValue::Object(vec![
            ("name".to_string(), JsonValue::Str("format_file".to_string())),
            (
                "description".to_string(),
                JsonValue::Str("Formats the current file".to_string()),
            ),
            (
                "input_schema".to_string(),
                JsonValue::Object(vec![(
                    "type".to_string(),
                    JsonValue::Str("object".to_string()),
                )]),
            ),
        ]),
    )]);
    let tools = discover_lua_tools(&table).expect("tool table parses");
    assert_eq!(tools.len(), 1);
    assert_eq!(tools[0].0, "format_file");
    assert_eq!(tools[0].1.name, "format_file");
    assert_eq!(tools[0].1.description, "Formats the current file");

    let not_a_table = JsonValue::Array(vec![]);
    assert!(discover_lua_tools(&not_a_table).is_err());
}

#[test]
fn execute_tool_code_embeds_name_and_args() {
    let code = build_execute_tool_code("format_file", r#"{"width":80}"#);
    assert_eq!(
        code,
        "return require('nvim-mcp').execute_tool('format_file', {\"width\":80})"
    );
}
