//! Tool servers.

use dscode_core::config::settings::EnvChange;
use dscode_core::extensions::mcp::{
    extend_path, framed, header_ends, initialize_timed_out, notification_json, on_reply,
    request_json, request_timed_out, resolve_tool_call_timeout, server_exited, truncate_front,
    with_hint, Handshake, JsonRpcError, JsonRpcResponse, LineBuffer, LineStep, McpClient, McpConnection, McpError,
    McpToolDef, MessageReader, ReplyId, ReplyStep, STDERR_TAIL_BYTES,
};
use dscode_core::text_map::TextMap;

#[test]
fn test_mcp_client_config() {
    let client = McpClient::new("test-server", "echo")
        .with_args(vec!["hello".into()])
        .with_env("TEST", "value");

    assert_eq!(client.server_name, "test-server");
    assert_eq!(client.command, "echo");
    assert_eq!(client.args, vec!["hello"]);
    assert_eq!(client.env.get("TEST").unwrap(), "value");
}

#[test]
fn test_mcp_tool_def_conversion() {
    let mcp_tool = McpToolDef {
        name: "search".into(),
        description: "Search the web".into(),
        input_schema: "{\"type\":\"object\",\"properties\":{\"query\":{\"type\":\"string\"}},\"required\":[\"query\"]}"
            .into(),
    };

    let tool_def = mcp_tool.to_tool_def();
    assert_eq!(tool_def.function.name, "mcp_search");
    assert_eq!(tool_def.function.description, Some("Search the web".into()));
}

#[test]
fn test_mcp_error_display() {
    let err = McpError::ServerError { code: -32600, message: "Invalid Request".into() };
    assert!(err.describe().contains("-32600"));
    assert!(err.describe().contains("Invalid Request"));
}

#[test]
fn test_json_rpc_request_serialization() {
    let json = request_json(1, "tools/list", &None);
    assert!(json.contains("\"jsonrpc\":\"2.0\""));
    assert!(json.contains("\"method\":\"tools/list\""));
    assert!(json.contains("\"id\":1"));
    assert!(serde_json::from_str::<serde_json::Value>(&json).is_ok());
}

/// A message of a server, out of its JSON text.
fn read(json: &str) -> JsonRpcResponse {
    let v: serde_json::Value = serde_json::from_str(json).unwrap();
    let id = match v.get("id") {
        None => ReplyId::Missing,
        Some(id) if id.is_null() => ReplyId::Missing,
        Some(id) => match (id.as_i64(), id.as_str()) {
            (Some(n), _) => ReplyId::Int(n),
            (None, Some(s)) => ReplyId::Text(s.into()),
            _ => ReplyId::Other,
        },
    };
    JsonRpcResponse {
        id,
        result: v.get("result").map(|r| r.to_string()),
        error: v.get("error").map(|e| JsonRpcError {
            code: e["code"].as_i64().unwrap(),
            message: e["message"].as_str().unwrap().into(),
            data: e.get("data").filter(|d| !d.is_null()).map(|d| d.to_string()),
        }),
        method: v.get("method").and_then(|m| m.as_str()).map(|m| m.to_string()),
    }
}

#[test]
fn test_json_rpc_response_deserialization() {
    let json = r#"{"jsonrpc":"2.0","id":1,"result":{"tools":[]}}"#;
    let resp = read(json);
    assert_eq!(resp.id, ReplyId::Int(1));
    assert!(resp.result.is_some());
    assert!(resp.error.is_none());
    match on_reply(resp, 1, "") {
        ReplyStep::Done(result) => assert_eq!(result, "{\"tools\":[]}"),
        other => panic!("{:?}", other),
    }
}

#[test]
fn test_json_rpc_error_response() {
    let json = r#"{"jsonrpc":"2.0","id":1,"error":{"code":-32600,"message":"Invalid Request"}}"#;
    let resp = read(json);
    assert!(resp.error.is_some());
    assert_eq!(resp.error.as_ref().unwrap().code, -32600);
    match on_reply(resp, 1, "") {
        ReplyStep::Failed { code, message } => {
            assert_eq!(code, -32600);
            assert_eq!(message, "Invalid Request");
        }
        other => panic!("{:?}", other),
    }
}

#[test]
fn test_truncate_front_does_not_split_codepoints() {
    // 3000 × 3 bytes = 9000 bytes of multi-byte text, cut where no character ends.
    let mut s = "中".repeat(3000);
    truncate_front(&mut s, STDERR_TAIL_BYTES);
    assert!(s.len() <= STDERR_TAIL_BYTES + 3);
    assert!(s.chars().all(|c| c == '中'));
}

/// Reads one line, as it comes in pieces of `step` bytes.
fn read_line(data: &[u8], max: usize, step: usize) -> (Vec<u8>, usize, usize) {
    let mut buffer = LineBuffer::new(max);
    let mut used = 0;
    loop {
        let end = (used + step).min(data.len());
        let (taken, done) = buffer.feed(&data[used..end]);
        used += taken;
        if done || used == data.len() {
            let (line, total) = buffer.into_line();
            return (line, total, used);
        }
    }
}

#[test]
fn test_read_line_bounded_caps_and_keeps_framing() {
    let data = format!("{}\nnext\n", "あ".repeat(10)).into_bytes();
    let (out, n, used) = read_line(&data, 8, 1024);
    assert_eq!(n, 31, "whole over-long line must be consumed");
    assert!(out.len() <= 8);

    let (out2, n2, _) = read_line(&data[used..], 1024, 1024);
    assert_eq!(n2, 5);
    assert_eq!(String::from_utf8(out2).unwrap(), "next\n");
}

#[test]
fn a_line_is_the_same_in_pieces() {
    let data = b"{\"jsonrpc\":\"2.0\"}\nrest";
    for step in 1..data.len() {
        assert_eq!(read_line(data, 100, step), read_line(data, 100, data.len()));
    }
}

#[test]
fn short_text_is_not_truncated() {
    let mut s = "abc".to_string();
    truncate_front(&mut s, 3);
    assert_eq!(s, "abc");
    truncate_front(&mut s, 2);
    assert_eq!(s, "bc");
}

#[test]
fn timeouts_come_from_the_environment() {
    assert_eq!(resolve_tool_call_timeout(&Some(" 30 ".into())), 30);
    assert_eq!(resolve_tool_call_timeout(&Some("0".into())), 600);
    assert_eq!(resolve_tool_call_timeout(&Some("soon".into())), 600);
    assert_eq!(resolve_tool_call_timeout(&None), 600);
}

#[test]
fn usual_directories_are_on_the_path_once() {
    assert_eq!(
        extend_path("/usr/bin:/x"),
        "/usr/bin:/x:/usr/local/bin:/opt/homebrew/bin:/bin"
    );
}

#[test]
fn requests_are_numbered_from_one() {
    let mut c = McpConnection::new("s", Some("http://p".into()), 7);
    let a = c.initialize();
    let b = c.list_tools();
    let t = c.call_tool("do \"it\"", "{}");
    assert_eq!((a.id, b.id, t.id), (1, 2, 3));
    assert_eq!(t.timeout_secs, 7);
    let v: serde_json::Value = serde_json::from_str(&t.text).unwrap();
    assert_eq!(v["params"]["name"].as_str(), Some("do \"it\""));
    assert_eq!(v["method"].as_str(), Some("tools/call"));
    c.set_tool_call_timeout(9);
    assert_eq!(c.tool_call_timeout(), 9);
    assert_eq!(c.error_hint("  boom \n"), " proxy=http://p stderr: boom");
    assert_eq!(c.request_hint(""), " proxy=http://p");
    assert_eq!(
        framed(&notification_json("notifications/initialized", &None)),
        "{\"jsonrpc\":\"2.0\",\"method\":\"notifications/initialized\",\"params\":{}}\n"
    );
}

#[test]
fn lines_are_understood() {
    let mut r = MessageReader::new();
    assert_eq!(r.on_line("npm notice\n", 11), LineStep::Again);
    assert_eq!(r.on_line("Content-Length: 12\r\n", 20), LineStep::Body(12));
    assert_eq!(r.on_line("\u{feff}{\"id\":1}\n", 11), LineStep::Message("{\"id\":1}".into()));
    assert_eq!(
        r.on_line("Content-Length: x\n", 18),
        LineStep::Failed("Invalid Content-Length: x".into(), false)
    );
    assert!(header_ends(b"\r\n", 2));
    assert!(!header_ends(b"X: y\r\n", 6));
    let mut noisy = MessageReader::new();
    for _ in 0..200 {
        assert_eq!(noisy.on_line("log", 4), LineStep::Again);
    }
    assert!(matches!(noisy.on_line("log", 4), LineStep::Failed(_, true)));
}

#[test]
fn replies_go_to_their_request() {
    assert!(matches!(on_reply(read(r#"{"id":2,"result":{}}"#), 1, ""), ReplyStep::Wait));
    assert!(matches!(on_reply(read(r#"{"id":"1","result":{}}"#), 1, ""), ReplyStep::Done(_)));
    assert!(matches!(on_reply(read(r#"{"method":"ping","id":1}"#), 1, ""), ReplyStep::Wait));
    match on_reply(read(r#"{"id":null,"error":{"code":1,"message":"m","data":{"a":1}}}"#), 5, " hint") {
        ReplyStep::Failed { message, .. } => {
            assert_eq!(message, "[response with id=null] m — data: {\"a\":1} hint")
        }
        other => panic!("{:?}", other),
    }
}

#[test]
fn failures_say_what_happened() {
    let c = McpClient::new("s", "npx").with_args(vec!["-y".into(), "pkg".into()]);
    assert_eq!(
        c.spawn_failed("not found"),
        "无法启动 MCP 命令 `npx -y pkg`: not found（请确认 PATH 中有 npx/node）"
    );
    assert!(request_timed_out("tools/list", 4, "!").describe().ends_with("`tools/list` (id=4)!"));
    assert!(initialize_timed_out("").describe().contains("120s"));
    assert!(server_exited("s", "1", "").describe().contains("MCP server 's' exited with 1"));
    let mut env = TextMap::new();
    env.insert("A".into(), "1".into());
    env.insert("A".into(), "2".into());
    let c = c.with_env_map(env);
    assert_eq!(c.env.get("A").unwrap(), "2");
    assert_eq!(c.env.entries().len(), 1);
    assert!(c.env.get("B").is_none());
}

#[test]
fn a_server_gets_its_environment() {
    let client = McpClient::new("s", "npx").with_args(vec!["-y".into()]).with_env("K", "V");
    let launch = client.connect_with_proxy(&Some("/usr/bin".into()), &Some("http://p".into()));
    assert_eq!(launch.command, "npx");
    assert_eq!(launch.args, vec!["-y"]);
    assert_eq!(
        launch.env[0],
        EnvChange::Assign("PATH".into(), "/usr/bin:/usr/local/bin:/opt/homebrew/bin:/bin".into())
    );
    assert_eq!(launch.env[1], EnvChange::Assign("K".into(), "V".into()));
    assert_eq!(launch.env.len(), 11);
    assert_eq!(
        launch.env[10],
        EnvChange::Assign("NODE_USE_ENV_PROXY".into(), "1".into())
    );
    assert_eq!(client.connect(&None).env.len(), 9);
}

#[test]
fn a_handshake_ends_with_a_notification() {
    let conn = McpConnection::new("s", Some("http://p".into()), 600);
    assert_eq!(
        conn.on_initialized(Handshake::Answered, "").unwrap(),
        "{\"jsonrpc\":\"2.0\",\"method\":\"notifications/initialized\",\"params\":{}}"
    );
    let e = conn.on_initialized(Handshake::Failed(McpError::Timeout), " boom ").unwrap_err();
    assert_eq!(
        e.describe(),
        "JSON-RPC protocol error: Timeout waiting for MCP server response proxy=http://p stderr: boom"
    );
    let e = conn.on_initialized(Handshake::TimedOut, "").unwrap_err();
    assert!(e.describe().contains("initialize 超时（120s）"));
    let e = conn.notify_failed(&McpError::Timeout, "");
    assert!(e.describe().contains("notifications/initialized failed: Timeout"));
    assert!(with_hint(&McpError::Timeout, " x").describe().ends_with(" x"));
}
