use graphify_plugin_telemetry::draco_client::{
    content_text, default_draco_url, strip_event_stream, tool_post, DracoError, DracoMcpClient,
    DEFAULT_BASE_URL, DRACO_TOOLS,
};
use graphify_plugin_telemetry::json::Json;
use graphify_plugin_telemetry::settings::EnvVars;

fn text_at<'a>(doc: &'a Json, path: &[&str]) -> &'a str {
    let mut at = doc;
    for key in path {
        at = at.get(key).unwrap();
    }
    at.as_text().unwrap()
}

fn object(members: &[(&str, &str)]) -> Json {
    Json::object(members.iter().map(|(k, v)| (k.to_string(), Json::text(v))).collect())
}

#[test]
fn initialize_request_has_expected_shape() {
    let v = DracoMcpClient::initialize_request();
    assert_eq!(text_at(&v, &["method"]), "initialize");
    assert_eq!(text_at(&v, &["params", "protocolVersion"]), "2025-03-26");
    assert_eq!(text_at(&v, &["params", "clientInfo", "name"]), "graphify-plugin-telemetry");
}

#[test]
fn call_tool_request_has_expected_shape() {
    let v = DracoMcpClient::call_tool_request(
        2,
        "fetch_top_hotspots",
        &object(&[("workspace_key", "my-app-v1")]),
    );
    assert_eq!(text_at(&v, &["method"]), "tools/call");
    assert_eq!(text_at(&v, &["params", "name"]), "fetch_top_hotspots");
    assert_eq!(text_at(&v, &["params", "arguments", "workspace_key"]), "my-app-v1");
}

#[test]
fn extracts_text_from_plain_json_response() {
    let raw = r#"{"jsonrpc":"2.0","id":2,"result":{"content":[{"type":"text","text":"hello"},{"type":"text","text":"world"}]}}"#;
    assert_eq!(
        DracoMcpClient::extract_result_content(raw).as_deref(),
        Some("hello\nworld")
    );
}

#[test]
fn extracts_text_from_sse_response() {
    let raw = "event: message\ndata: {\"jsonrpc\":\"2.0\",\"id\":2,\"result\":{\"content\":[{\"type\":\"text\",\"text\":\"sse hit\"}]}}\n\n";
    assert_eq!(
        DracoMcpClient::extract_result_content(raw).as_deref(),
        Some("sse hit")
    );
}

#[test]
fn empty_result_returns_none() {
    let raw = r#"{"jsonrpc":"2.0","id":2,"result":{"content":[]}}"#;
    assert!(DracoMcpClient::extract_result_content(raw).is_none());
}

#[test]
fn not_initialized_call_fails() {
    let c = DracoMcpClient::new("http://127.0.0.1:1/mcp");
    let err = c.call_tool("fetch_top_hotspots", &object(&[])).unwrap_err();
    assert!(matches!(err, DracoError::NotInitialized));
}

#[test]
fn default_url_respects_env() {
    assert!(default_draco_url(&EnvVars::unset()).starts_with("http://"));
    assert_eq!(default_draco_url(&EnvVars::unset()), "http://127.0.0.1:9876/mcp");
    let mut env = EnvVars::unset();
    env.draco_base_url = Some("https://draco.example/mcp".to_string());
    assert_eq!(default_draco_url(&env), "https://draco.example/mcp");
    env.draco_base_url = Some(String::new());
    assert_eq!(default_draco_url(&env), "");
    assert_eq!(DEFAULT_BASE_URL, "http://127.0.0.1:9876/mcp");
}

#[test]
fn initialize_request_text() {
    assert_eq!(
        DracoMcpClient::initialize_request().to_text(),
        r#"{"id":1,"jsonrpc":"2.0","method":"initialize","params":{"capabilities":{},"clientInfo":{"name":"graphify-plugin-telemetry","version":"0.1.0"},"protocolVersion":"2025-03-26"}}"#
    );
}

#[test]
fn call_tool_request_text() {
    let v = DracoMcpClient::call_tool_request(u64::MAX, "t\"x", &Json::Array(vec![Json::Null]));
    assert_eq!(
        v.to_text(),
        r#"{"id":18446744073709551615,"jsonrpc":"2.0","method":"tools/call","params":{"arguments":[null],"name":"t\"x"}}"#
    );
}

#[test]
fn event_stream_lines() {
    assert_eq!(strip_event_stream("data: {}\n"), "{}");
    assert_eq!(strip_event_stream("event: x\r\ndata: {}\r\n\r\n"), "{}");
    assert_eq!(strip_event_stream("data: {}"), "{}");
    // A carriage return at the very end belongs to no line break.
    assert_eq!(strip_event_stream("data: {}\r"), "{}\r");
    assert_eq!(strip_event_stream("x\ndata: 1\ndata: 2\n"), "1");
    assert_eq!(strip_event_stream("data:{}\n"), "data:{}\n");
    assert_eq!(strip_event_stream(" data: {}\n"), " data: {}\n");
    assert_eq!(strip_event_stream("data: \n"), "");
    assert_eq!(strip_event_stream(""), "");
    assert_eq!(strip_event_stream("\n\n"), "\n\n");
    assert_eq!(strip_event_stream("é\ndata: ü\n"), "ü");
}

#[test]
fn framed_and_plain_replies_read_alike() {
    let plain = r#"{"result":{"content":[{"text":"a"}]}}"#;
    let framed = format!("event: message\ndata: {}\n\n", plain);
    assert_eq!(strip_event_stream(&framed), plain);
    assert_eq!(strip_event_stream(plain), plain);
    assert_eq!(
        DracoMcpClient::extract_result_content(&framed),
        DracoMcpClient::extract_result_content(plain)
    );
}

#[test]
fn replies_without_text() {
    for raw in [
        "",
        "not json",
        "{}",
        "[]",
        r#"{"result":null}"#,
        r#"{"result":{"content":"x"}}"#,
        r#"{"result":{"content":[{"type":"image"},{"text":5},7]}}"#,
        r#"{"error":{"code":1}}"#,
        "data: oops\n",
    ] {
        assert!(DracoMcpClient::extract_result_content(raw).is_none(), "{}", raw);
        assert_eq!(DracoMcpClient::call_tool_reply(raw), Err(DracoError::EmptyResult));
    }
    let mixed = r#"{"result":{"content":[{"text":""},{"type":"image"},{"text":"b"}]}}"#;
    assert_eq!(DracoMcpClient::call_tool_reply(mixed), Ok("\nb".to_string()));
    assert_eq!(
        DracoMcpClient::call_tool_reply(r#"{"result":{"content":[{"text":""}]}}"#),
        Ok(String::new())
    );
}

#[test]
fn content_of_a_built_reply() {
    let item = object(&[("text", "only")]);
    let content = Json::object(vec![("content".to_string(), Json::Array(vec![item]))]);
    let reply = Json::object(vec![("result".to_string(), content)]);
    assert_eq!(content_text(&reply).as_deref(), Some("only"));
    assert!(content_text(&Json::Null).is_none());
}

#[test]
fn tool_post_carries_the_session() {
    let post = tool_post("http://h/mcp", "s-1", "fetch_top_hotspots", &object(&[]));
    assert_eq!(post.url, "http://h/mcp");
    assert_eq!(post.content_type, "application/json");
    assert_eq!(post.accept, "application/json, text/event-stream");
    assert_eq!(post.session_id, "s-1");
    assert_eq!(post.timeout_secs, 10);
    assert_eq!(
        post.body.to_text(),
        r#"{"id":2,"jsonrpc":"2.0","method":"tools/call","params":{"arguments":{},"name":"fetch_top_hotspots"}}"#
    );
}

#[test]
fn new_client_has_no_session() {
    let c = DracoMcpClient::new("http://127.0.0.1:1/mcp");
    assert!(!c.is_initialized());
    assert!(!c.clone().is_initialized());
    assert_eq!(c.fetch_top_hotspots("w-1", Some(10)), Err(DracoError::NotInitialized));
    assert_eq!(c.fetch_top_hotspots("w-1", None), Err(DracoError::NotInitialized));
    assert_eq!(DRACO_TOOLS, ["fetch_top_hotspots"]);
}

#[test]
fn error_messages() {
    assert_eq!(DracoError::Ureq("refused".to_string()).message(), "ureq error: refused");
    assert_eq!(DracoError::Io("eof".to_string()).message(), "io error: eof");
    assert_eq!(DracoError::NotInitialized.message(), "not initialized: call initialize() first");
    assert_eq!(DracoError::EmptyResult.message(), "empty result from Draco");
}
