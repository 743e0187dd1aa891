use tt::error::Error;
use tt::transport::{
    check_jsonrpc_version, jsonrpc_error_code, method_not_found, request_text, route, rpc_error_of, shutdown_response,
    McpError, McpResponse, Payload, Route,
};

#[test]
fn test_mcp_response_ok() {
    match McpResponse::ok(Payload::Archived(42)) {
        McpResponse::Success { data: Payload::Archived(n) } => assert_eq!(n, 42),
        _ => panic!("Expected Ok response"),
    }
}

#[test]
fn test_mcp_response_error() {
    let response = McpResponse::error("TaskNotFound", "Task #42 not found");
    match response {
        McpResponse::Failure { error_code, message } => {
            assert_eq!(error_code, "TaskNotFound");
            assert_eq!(message, "Task #42 not found");
        }
        _ => panic!("Expected Error response"),
    }
}

#[test]
fn tracker_errors_keep_their_code_and_message() {
    match McpResponse::from_tt_error(Error::UnmetDependencies(3, vec![1, 2])) {
        McpResponse::Failure { error_code, message } => {
            assert_eq!(error_code, "UnmetDependencies");
            assert_eq!(message, "Cannot start #3: dependencies not completed: [1, 2]");
        }
        _ => panic!("Expected Error response"),
    }
}

#[test]
fn test_stdio_transport_eof() {
    assert_eq!(request_text(""), None);
}

#[test]
fn request_lines_are_trimmed_and_blank_lines_skipped() {
    assert_eq!(request_text("   \n"), None);
    assert_eq!(request_text("  {\"jsonrpc\":\"2.0\"}\n"), Some("{\"jsonrpc\":\"2.0\"}".to_string()));
}

#[test]
fn only_jsonrpc_two_is_accepted() {
    assert!(check_jsonrpc_version("2.0").is_ok());
    match check_jsonrpc_version("1.0") {
        Err(McpError::JsonRpc(m)) => assert_eq!(m, "Invalid JSON-RPC version. Expected '2.0'"),
        _ => panic!("1.0 is refused"),
    }
}

#[test]
fn error_codes_map_to_jsonrpc_codes() {
    let table = [
        ("TaskNotFound", -32001),
        ("TaskNotPending", -32002),
        ("AnotherTaskActive", -32003),
        ("NoActiveTask", -32004),
        ("UnmetDependencies", -32005),
        ("NoDod", -32006),
        ("NoTarget", -32007),
        ("TargetReached", -32008),
        ("AllBlocked", -32009),
        ("CycleDetected", -32010),
        ("InvalidStatus", -32011),
        ("Db", -32000),
        ("", -32000),
    ];
    for (code, expected) in table {
        assert_eq!(jsonrpc_error_code(code), expected, "{code}");
    }
}

#[test]
fn errors_travel_as_jsonrpc_errors_and_successes_as_results() {
    let resp = McpResponse::error("NoDod", "Task #7 has no definition of done.");
    assert_eq!(rpc_error_of(&resp), Some((-32006, "Task #7 has no definition of done.".to_string())));
    assert_eq!(rpc_error_of(&McpResponse::ok(Payload::Archived(0))), None);
}

#[test]
fn methods_are_routed() {
    assert_eq!(route("initialize"), Route::Initialize);
    assert_eq!(route("notifications/initialized"), Route::Initialized);
    assert_eq!(route("tools/list"), Route::ToolsList);
    assert_eq!(route("tools/call"), Route::ToolsCall);
    assert_eq!(route("shutdown"), Route::Shutdown);
    assert_eq!(route("resources/list"), Route::Unknown);
    assert_eq!(method_not_found("resources/list"), (-32601, "Method not found: resources/list".to_string()));
}

#[test]
fn shutdown_says_so() {
    match shutdown_response() {
        McpResponse::Success { data: Payload::Message(m) } => assert_eq!(m, "Shutting down"),
        _ => panic!("shutdown"),
    }
}

#[test]
fn mcp_errors_have_messages_and_convert() {
    assert_eq!(McpError::Shutdown.message(), "Shutdown requested");
    assert_eq!(McpError::Database("gone".to_string()).message(), "Database error: gone");
    match McpError::from_tt(&Error::NoTarget) {
        McpError::JsonRpc(m) => assert_eq!(m, "No target set. Use `tt target <id>` first."),
        _ => panic!("from tracker"),
    }
    match McpError::Io("broken pipe".to_string()).into_tt() {
        Error::Mcp(m) => assert_eq!(m, "IO error: broken pipe"),
        _ => panic!("into tracker"),
    }
}
