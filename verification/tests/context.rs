//! The context of a request.

use dscode_core::agent::context::{
    build_context, compression_prompt, conversation_tokens, count_message_tokens,
    count_tokens, count_tool_def_tokens, tools_to_json,
};
use dscode_core::providers::trait_def::{Message, MessageContent, Role, ToolDef};

fn make_msg(role: Role, text: &str) -> Message {
    Message {
        role,
        content: MessageContent::Text(text.into()),
        name: None,
        tool_calls: None,
        tool_call_id: None,
        reasoning_content: None,
        created_at: 0,
        ..Default::default()
    }
}

#[test]
fn test_build_context_basic() {
    let history = vec![
        make_msg(Role::User, "hello"),
        make_msg(Role::Assistant, "hi"),
    ];
    let tools = vec![];
    let ctx = build_context(&history, "You are helpful.", &tools, 100);

    assert_eq!(ctx.messages.len(), 3); // system + 2 history
    assert_eq!(ctx.messages[0].role, Role::System);
    assert_eq!(
        ctx.messages[0].content.as_text().unwrap(),
        "You are helpful."
    );
}

#[test]
fn test_build_context_trims_history() {
    let history: Vec<Message> = (0..10)
        .map(|i| make_msg(Role::User, &format!("msg {}", i)))
        .collect();
    let tools = vec![];
    let ctx = build_context(&history, "System", &tools, 5);

    assert_eq!(ctx.messages.len(), 6);
    assert_eq!(ctx.messages[1].content.as_text().unwrap(), "msg 5");
}

#[test]
fn test_build_context_includes_tools() {
    let history = vec![];
    let tools = vec![
        ToolDef::new("do_bash", "Run a bash command", "{}"),
        ToolDef::new("do_read", "Read a file", "{}"),
    ];
    let ctx = build_context(&history, "System", &tools, 100);
    assert_eq!(ctx.tools.len(), 2);
}

#[test]
fn test_count_tokens() {
    assert!(count_tokens("hello world") > 0);
}

#[test]
fn count_tokens_weights_cjk_and_ascii_separately() {
    // 8 ASCII chars ≈ 2 tokens (4 chars/token), not 3.2 (chars/2.5).
    assert_eq!(count_tokens("abcdefgh"), 2);
    // 100 Chinese characters ≈ 100 tokens, not 40 (chars/2.5).
    let zh: String = "上".repeat(100);
    assert_eq!(count_tokens(&zh), 100);
    // Mixed: 10 CJK + 40 ASCII ≈ 10 + 10.
    let mixed = format!("{}{}", "中".repeat(10), "a".repeat(40));
    assert_eq!(count_tokens(&mixed), 20);
    // Rounds up rather than truncating a partial token.
    assert_eq!(count_tokens("abcde"), 2);
    assert_eq!(count_tokens(""), 0);
}

#[test]
fn count_tool_def_tokens_counts_serialized_defs() {
    let tools = vec![
        ToolDef::new("do_bash", "Run a bash command", "{\"type\":\"object\"}"),
        ToolDef::new("do_read", "Read a file", "{\"type\":\"object\"}"),
    ];
    let tok = count_tool_def_tokens(&tools);
    assert!(tok > 0);
    // The serialized schema is what actually goes on the wire.
    let wire = "[{\"type\":\"function\",\"function\":{\"name\":\"do_bash\",\"description\":\"Run a bash command\",\"parameters\":{\"type\":\"object\"}}},{\"type\":\"function\",\"function\":{\"name\":\"do_read\",\"description\":\"Read a file\",\"parameters\":{\"type\":\"object\"}}}]";
    assert!(serde_json::from_str::<serde_json::Value>(wire).is_ok());
    assert_eq!(tools_to_json(&tools), wire);
    assert_eq!(tok, count_tokens(wire));
    assert!(count_tool_def_tokens(&[]) == 0);
}

#[test]
fn tool_names_are_escaped_on_the_wire() {
    let tools = vec![ToolDef::new("a\"b", "line\nbreak\u{1}", "{}")];
    assert_eq!(
        tools_to_json(&tools),
        "[{\"type\":\"function\",\"function\":{\"name\":\"a\\\"b\",\"description\":\"line\\nbreak\\u0001\",\"parameters\":{}}}]"
    );
}

#[test]
fn conversation_and_message_counts_agree() {
    let history = vec![make_msg(Role::User, "abcdefgh"), make_msg(Role::Assistant, "上下")];
    let refs: Vec<&Message> = history.iter().collect();
    assert_eq!(conversation_tokens(&history), Some(count_message_tokens(&refs)));
    assert_eq!(count_message_tokens(&refs), 4);
}

#[test]
fn context_window_starts_no_orphan() {
    // The cut at two rows would start with a tool answer: it moves past it.
    let mut asks = make_msg(Role::Assistant, "");
    asks.tool_calls = Some(vec![]);
    let mut answer = make_msg(Role::Tool, "out");
    answer.tool_call_id = Some("a".into());
    let history = vec![make_msg(Role::User, "q"), asks, answer, make_msg(Role::Assistant, "done")];
    let ctx = build_context(&history, "System", &[], 2);
    assert_eq!(ctx.messages[1].role, Role::Assistant);
    assert_eq!(ctx.messages[1].content.as_text(), Some("done"));
    assert_eq!(ctx.messages.len(), 2);
}

#[test]
fn summary_prompt_quotes_roles_and_first_characters() {
    let history = vec![make_msg(Role::User, &"x".repeat(900)), make_msg(Role::Tool, "y")];
    let prompt = compression_prompt(&history, 500);
    assert!(prompt.starts_with("Summarize the following conversation history concisely"));
    assert!(prompt.contains(&format!("[User] {}\n[Tool] y\n", "x".repeat(800))));
    assert!(prompt.ends_with("\n---\nKeep the summary under ~500 tokens."));
}
