//! Compressing a conversation that grows towards its window.

use dscode_core::agent::compression::{
    l0_threshold, snip_stale_tool_results, tag_compress_tool_outputs, truncate_oldest, CompressionAction,
    CompressionPipeline, CompressionStep,
};
use dscode_core::config::settings::ContextConfig;
use dscode_core::providers::trait_def::{
    FunctionCall, Message, MessageContent, Role, ToolCall, ToolDef,
};

/// One pass, with a model that answers every request for a summary.
fn apply(pipeline: &mut CompressionPipeline, msgs: &mut Vec<Message>) -> CompressionAction {
    match pipeline.apply(msgs) {
        CompressionStep::Done(action) => action,
        CompressionStep::Summarize(request) => {
            pipeline.finish_apply(msgs, request.snipped, Some("compressed summary"))
        }
    }
}

/// One forced pass, with the same model.
fn force(pipeline: &mut CompressionPipeline, msgs: &mut Vec<Message>) -> CompressionAction {
    match pipeline.force_apply(msgs) {
        CompressionStep::Done(action) => action,
        CompressionStep::Summarize(_) => pipeline.finish_force(msgs, Some("compressed summary")),
    }
}

fn make_msg(role: Role, text: &str) -> Message {
    Message {
        role,
        content: MessageContent::Text(text.to_string()),
        name: None,
        tool_calls: None,
        tool_call_id: None,
        reasoning_content: None,
        created_at: 0,
        ..Default::default()
    }
}

fn make_assistant_with_tool_calls(
    content: &str,
    tc_ids: &[&str],
) -> Message {
    Message {
        role: Role::Assistant,
        content: MessageContent::Text(content.to_string()),
        name: None,
        tool_calls: Some(
            tc_ids
                .iter()
                .map(|&id| ToolCall {
                    id: id.to_string(),
                    call_type: "function".into(),
                    function: FunctionCall {
                        name: "test_tool".into(),
                        arguments: "{}".into(),
                    },
                })
                .collect(),
        ),
        tool_call_id: None,
        reasoning_content: None,
        created_at: 0,
        ..Default::default()
    }
}

fn make_tool(id: &str, text: &str) -> Message {
    Message {
        role: Role::Tool,
        content: MessageContent::Text(text.to_string()),
        name: None,
        tool_calls: None,
        tool_call_id: Some(id.to_string()),
        reasoning_content: None,
        created_at: 0,
        ..Default::default()
    }
}

// ── L1 ───────────────────────────────────────────────────────────────

#[test]
fn test_truncate_oldest_basic() {
    let mut msgs = vec![
        make_msg(Role::System, "sys"),
        make_msg(Role::User, "u1"),
        make_msg(Role::Assistant, "a1"),
        make_msg(Role::User, "u2"),
        make_msg(Role::Assistant, "a2"),
        make_msg(Role::User, "u3"),
        make_msg(Role::Assistant, "a3"),
    ];
    let action = truncate_oldest(&mut msgs);
    assert!(matches!(action, CompressionAction::Truncated { .. }));
    assert!(msgs.len() < 7, "messages should have been truncated");
    assert_eq!(msgs[0].role, Role::System); // system always preserved
}

#[test]
fn test_truncate_respects_tool_pairs() {
    let mut msgs = vec![
        make_msg(Role::System, "sys"),
        make_msg(Role::User, "run a command"),
        make_assistant_with_tool_calls("ok", &["tc1"]),
        make_tool("tc1", "output"),
        make_msg(Role::User, "another question"),
        make_msg(Role::Assistant, "answer"),
    ];
    let action = truncate_oldest(&mut msgs);
    assert!(matches!(action, CompressionAction::Truncated { .. }));
    // After truncation, the split should not leave a tool message orphaned.
    let has_orphan_tool = msgs.iter().any(|m| {
        m.role == Role::Tool
            && !msgs.iter().any(|prev| {
                prev.role == Role::Assistant
                    && prev
                        .tool_calls
                        .as_ref()
                        .map_or(false, |tc| tc.iter().any(|t| t.id == m.tool_call_id.clone().unwrap_or_default()))
            })
    });
    assert!(!has_orphan_tool, "no orphaned tool messages allowed");
}

// ── L2 ───────────────────────────────────────────────────────────────

#[test]
fn test_tag_compress_tool_outputs() {
    let long_text = "x".repeat(2500);
    let mut msgs = vec![
        make_msg(Role::System, "sys"),
        make_msg(Role::User, "go"),
        make_tool("t1", &long_text),
        make_msg(Role::Assistant, "done"),
    ];
    let action = tag_compress_tool_outputs(&mut msgs);
    assert!(
        matches!(action, CompressionAction::TagCompressed { compressed } if compressed == 1)
    );
    if let MessageContent::Text(s) = &msgs[2].content {
        assert!(s.contains("truncated"));
        assert!(s.chars().count() < 2500);
    } else {
        panic!("expected text content");
    }
}

#[test]
fn test_tag_compress_short_output_untouched() {
    let mut msgs = vec![
        make_msg(Role::System, "sys"),
        make_tool("t1", "short output"),
    ];
    let action = tag_compress_tool_outputs(&mut msgs);
    assert_eq!(action, CompressionAction::Nothing);
    assert_eq!(
        msgs[1].content.as_text().unwrap(),
        "short output"
    );
}

// ── apply() threshold dispatch ───────────────────────────────────────

#[test]
fn test_apply_triggers_l1_when_over_threshold() {
    // window=1000 tokens, threshold=0.8 => L1 fires above 800 tokens.
    let cfg = ContextConfig {
        window_tokens: 1000,
        compress_threshold: 800_000,
        max_agent_iterations: 120,
    };
    let mut pipeline = CompressionPipeline::new(cfg);
    // ASCII is ~4 chars/token: 4 × 800 chars = 800 tokens + 1 for "sys"
    // → ratio ≈ 0.801, inside the L1 band (0.8, 0.85].
    let mut msgs = vec![
        make_msg(Role::System, "sys"),
        make_msg(Role::User, &"a".repeat(800)),
        make_msg(Role::Assistant, &"b".repeat(800)),
        make_msg(Role::User, &"c".repeat(800)),
        make_msg(Role::Assistant, &"d".repeat(800)),
    ];
    let action = apply(&mut pipeline, &mut msgs);
    assert!(
        matches!(action, CompressionAction::Truncated { .. }),
        "expected L1 truncation, got {action:?}"
    );
    assert!(msgs.len() < 5, "oldest non-system message should be dropped");
    // The instruction survives.
    assert_eq!(msgs[1].role, Role::User);
    assert_eq!(msgs[1].content.as_text().unwrap(), "c".repeat(800).as_str());
}

#[test]
fn test_apply_respects_custom_compress_threshold() {
    // window=1000 tokens, threshold=0.5 => L1 fires above 500 tokens.
    let cfg = ContextConfig {
        window_tokens: 1000,
        compress_threshold: 500_000,
        max_agent_iterations: 120,
    };
    let mut pipeline = CompressionPipeline::new(cfg);
    // 4 × 520 ASCII chars ≈ 520 tokens + 1 → ratio ≈ 0.521, between
    // L1(0.5) and L2(0.55).
    let mut msgs = vec![
        make_msg(Role::System, "sys"),
        make_msg(Role::User, &"a".repeat(520)),
        make_msg(Role::Assistant, &"b".repeat(520)),
        make_msg(Role::User, &"c".repeat(520)),
        make_msg(Role::Assistant, &"d".repeat(520)),
    ];
    let action = apply(&mut pipeline, &mut msgs);
    assert!(
        matches!(action, CompressionAction::Truncated { .. }),
        "custom threshold 0.5 should trigger L1, got {action:?}"
    );
}

/// The live instruction (the last user message and everything after it)
/// must survive every level. A short conversation where the 50 % split
/// would delete the only user message must refuse instead — this used to
/// produce a prompt with no user turn, which the model "continued" by
/// hallucinating and forge reported as a successful Complete.
#[test]
fn apply_refuses_to_drop_last_user_message() {
    let cfg = ContextConfig {
        window_tokens: 1000,
        compress_threshold: 800_000,
        max_agent_iterations: 120,
    };
    let mut pipeline = CompressionPipeline::new(cfg);
    // ratio ≈ 0.801 → L1 band, but dropping 50 % of [u, a] would drop u.
    let mut msgs = vec![
        make_msg(Role::System, "sys"),
        make_msg(Role::User, &"a".repeat(1600)),
        make_msg(Role::Assistant, &"b".repeat(1600)),
    ];
    let before = msgs.clone();
    let action = apply(&mut pipeline, &mut msgs);
    assert_eq!(action, CompressionAction::Nothing, "must refuse, got {action:?}");
    assert_eq!(msgs.len(), before.len());
    assert!(msgs.iter().any(|m| m.role == Role::User));
}

/// L3 used to walk its split point to the end of a tool-only tail, leaving
/// `rest` empty and sending the provider a single System message (Anthropic
/// rejects `messages: []` with a 400).
#[test]
fn l3_never_emits_a_system_only_history() {
    let cfg = ContextConfig {
        window_tokens: 1000,
        compress_threshold: 800_000,
        max_agent_iterations: 120,
    };
    let mut pipeline = CompressionPipeline::new(cfg);
    // ratio ≈ 0.93 → L3 band; the tail after the only user message is an
    // assistant tool_call + its result, so the 70 % alignment walks to the
    // end of the vector.
    let mut msgs = vec![
        make_msg(Role::System, "sys"),
        make_msg(Role::User, &"q".repeat(300)),
        make_assistant_with_tool_calls("", &["tc1"]),
        make_tool("tc1", &"r".repeat(3400)),
    ];
    let action = apply(&mut pipeline, &mut msgs);
    assert!(
        msgs.iter().any(|m| m.role == Role::User),
        "the user message must survive, got {action:?}"
    );
    assert!(
        msgs.iter().any(|m| m.role == Role::Tool),
        "tool output must not be silently discarded by a refused pass"
    );
    assert!(
        !msgs.iter().any(|m| {
            m.content
                .as_text()
                .map_or(false, |s| s.contains("compressed summary"))
        }),
        "LLM summary must not replace the whole history"
    );
}

/// L4 clamps its split point back to the last user message instead of
/// running off the end of a tool-only tail.
#[test]
fn l4_keeps_the_last_user_message() {
    let cfg = ContextConfig {
        window_tokens: 1000,
        compress_threshold: 800_000,
        max_agent_iterations: 120,
    };
    let mut pipeline = CompressionPipeline::new(cfg);
    // ratio ≈ 0.967 → L4 band.
    let mut msgs = vec![
        make_msg(Role::System, "sys"),
        make_msg(Role::User, "old question"),
        make_assistant_with_tool_calls("", &["t1"]),
        make_tool("t1", "old output"),
        make_msg(Role::User, "current question"),
        make_assistant_with_tool_calls("", &["t2"]),
        make_tool("t2", &"r".repeat(3800)),
    ];
    let action = apply(&mut pipeline, &mut msgs);
    assert!(matches!(action, CompressionAction::Chunked { .. }), "got {action:?}");
    assert!(
        msgs.iter().any(|m| m.content.as_text() == Some("current question")),
        "the live user instruction must survive L4"
    );
    assert!(
        !msgs.iter().any(|m| m.content.as_text() == Some("old question")),
        "older turns should be the ones dropped"
    );
    assert!(msgs[0].content.as_text().unwrap().contains("[CONTINUATION]"));
}

/// Repeat pass in the same turn: L0/L1 only, never another LLM summary.
#[test]
fn cheap_pass_skips_llm_summarisation() {
    let cfg = ContextConfig {
        window_tokens: 1000,
        compress_threshold: 800_000,
        max_agent_iterations: 120,
    };
    let mut pipeline = CompressionPipeline::new(cfg);
    pipeline.cheap_only = true;
    // 4 × 900 ASCII chars ≈ 900 tokens + 1 → ratio ≈ 0.901, which is the
    // L3 band for a full pass (and would call the summarisation model).
    let mut msgs = vec![
        make_msg(Role::System, "sys"),
        make_msg(Role::User, &"a".repeat(900)),
        make_msg(Role::Assistant, &"b".repeat(900)),
        make_msg(Role::User, &"c".repeat(900)),
        make_msg(Role::Assistant, &"d".repeat(900)),
    ];
    let action = apply(&mut pipeline, &mut msgs);
    assert!(
        matches!(action, CompressionAction::Truncated { .. }),
        "cheap pass should use L1, got {action:?}"
    );
    assert!(
        !msgs.iter().any(|m| {
            m.content
                .as_text()
                .map_or(false, |s| s.contains("compressed summary"))
        }),
        "cheap pass must not call the summarisation model"
    );
}

/// Tool definitions are sent on every request but are not part of
/// `messages`; a large MCP tool set must count towards the window, because
/// it can be the difference between "under budget" and a provider 400.
#[test]
fn tool_definitions_count_towards_the_window() {
    let cfg = ContextConfig {
        window_tokens: 1000,
        compress_threshold: 800_000,
        max_agent_iterations: 120,
    };
    let messages = || {
        vec![
            make_msg(Role::System, "sys"),
            make_msg(Role::User, &"a".repeat(800)),
            make_msg(Role::Assistant, &"b".repeat(800)),
            make_msg(Role::User, &"c".repeat(800)),
            make_msg(Role::Assistant, &"d".repeat(800)),
        ]
    };
    // ~3200 chars of schema ≈ 800 tokens on top of the ~801 message tokens.
    let big_tool = ToolDef::new(
        "mcp_big_search",
        &"d".repeat(3200),
        "{\"type\":\"object\"}",
    );

    let mut without = messages();
    let mut pipeline_without = CompressionPipeline::new(cfg.clone());
    let action_without = apply(&mut pipeline_without, &mut without);

    let mut with = messages();
    let mut pipeline_with = CompressionPipeline::new(cfg).with_tools(&[big_tool]);
    assert!(pipeline_with.tool_tokens > 700, "tool tokens must be non-trivial");
    let action_with = apply(&mut pipeline_with, &mut with);

    // Ignoring the tool defs the history sits just over the L1 threshold;
    // counting them pushes the same history into the L4 band.
    assert!(
        matches!(action_without, CompressionAction::Truncated { .. }),
        "without tools: expected L1, got {action_without:?}"
    );
    assert!(
        matches!(action_with, CompressionAction::Chunked { .. }),
        "with tools: expected L4, got {action_with:?}"
    );
}

#[test]
fn test_apply_noop_below_threshold() {
    let cfg = ContextConfig {
        window_tokens: 100_000,
        compress_threshold: 800_000,
        max_agent_iterations: 120,
    };
    let mut pipeline = CompressionPipeline::new(cfg);
    let mut msgs = vec![
        make_msg(Role::System, "sys"),
        make_msg(Role::User, "hello"),
        make_msg(Role::Assistant, "hi"),
    ];
    let action = apply(&mut pipeline, &mut msgs);
    assert_eq!(action, CompressionAction::Nothing);
    assert_eq!(msgs.len(), 3);
}

// ── L0 threshold follows the configured base ─────────────────────────

fn cfg_with(threshold: u32) -> ContextConfig {
    ContextConfig {
        window_tokens: 1000,
        compress_threshold: threshold,
        max_agent_iterations: 120,
    }
}

/// L0 is one step below the configured threshold, not a fixed 60 %.
#[test]
fn l0_threshold_follows_the_configured_base() {
    // Default base → the legacy constant, so nothing changes by default.
    assert_eq!(l0_threshold(800_000), 600_000);
    assert_eq!(l0_threshold(500_000), 300_000);
    assert_eq!(l0_threshold(850_000), 650_000);
    // Clamped base (0.1) must not push L0 to zero or below.
    assert_eq!(l0_threshold(100_000), 100_000);
}

/// A user who raises `compress_threshold` must also move the *irreversible*
/// level: at base 0.5 this history is sniped, at base 0.8 it is untouched.
#[test]
fn l0_fires_at_the_configured_threshold() {
    // window = 1000 tokens; "sys"(1) + "ask"(1) + 6 × 300 ASCII chars (75)
    // = 452 tokens → ratio 0.452. Above L0 at base 0.5 (0.30), below L1
    // (0.50); above neither at base 0.8 (L0 = 0.60).
    let history = || {
        let mut msgs = vec![
            make_msg(Role::System, "sys"),
            make_msg(Role::User, "ask"),
        ];
        for i in 0..6 {
            msgs.push(make_tool(&format!("tc{i}"), &"x".repeat(300)));
        }
        msgs
    };

    let mut at_half = history();
    let mut pipeline = CompressionPipeline::new(cfg_with(500_000));
    let action = apply(&mut pipeline, &mut at_half);
    assert!(
        matches!(action, CompressionAction::Snipped { snipped: 3 }),
        "base 0.5 must snip the 3 oldest tool results, got {action:?}"
    );
    assert!(
        at_half[2].content.as_text().unwrap().contains("snipped"),
        "the oldest tool output must carry the re-run placeholder"
    );
    assert_eq!(
        at_half[5].content.as_text().unwrap().len(),
        300,
        "the 3 most recent tool results must survive L0"
    );

    let mut at_default = history();
    let mut pipeline = CompressionPipeline::new(cfg_with(800_000));
    let action = apply(&mut pipeline, &mut at_default);
    assert_eq!(
        action,
        CompressionAction::Nothing,
        "base 0.8 keeps L0 at 0.60 — this history is below it"
    );
    assert!(
        at_default[2..].iter().all(|m| m.content.as_text().unwrap().len() == 300),
        "no tool output may be sniped below the L0 threshold"
    );
}

// ── force_apply ──────────────────────────────────────────────────────

/// The provider told us we are over the limit: the deepest level runs even
/// though `cheap_only` is set (a repeat pass in the same turn), because a
/// dead turn costs more than a summarisation.
#[test]
fn force_apply_ignores_cheap_only() {
    let mut pipeline = CompressionPipeline::new(cfg_with(800_000));
    pipeline.cheap_only = true;
    let mut msgs = vec![
        make_msg(Role::System, "sys"),
        make_msg(Role::User, "old question"),
        make_msg(Role::Assistant, "old answer"),
        make_msg(Role::User, "second question"),
        make_msg(Role::Assistant, "second answer"),
        make_msg(Role::User, "current question"),
        make_msg(Role::Assistant, "current answer"),
    ];
    let action = force(&mut pipeline, &mut msgs);
    assert!(
        matches!(action, CompressionAction::LlmSummarized { .. }),
        "cheap_only must not stop a forced deep compression, got {action:?}"
    );
    assert!(
        msgs.iter().any(|m| {
            m.content
                .as_text()
                .map_or(false, |s| s.contains("compressed summary"))
        }),
        "the L3 summary must have been written into the history"
    );
    assert!(
        !msgs.iter().any(|m| m.content.as_text() == Some("old question")),
        "the oldest messages are what got summarised"
    );
}

/// Forcing compression still may not cut the live instruction: the last
/// user message and everything after it survive.
#[test]
fn force_apply_keeps_the_last_user_message_and_its_tail() {
    let mut pipeline = CompressionPipeline::new(cfg_with(800_000));
    let mut msgs = vec![
        make_msg(Role::System, "sys"),
        make_msg(Role::User, "old question"),
        make_msg(Role::Assistant, "old answer"),
        make_msg(Role::User, "second question"),
        make_msg(Role::Assistant, "second answer"),
        make_msg(Role::User, "current question"),
        make_msg(Role::Assistant, "current answer"),
    ];
    let action = force(&mut pipeline, &mut msgs);
    assert!(matches!(action, CompressionAction::LlmSummarized { .. }), "got {action:?}");
    assert!(
        msgs.iter().any(|m| m.content.as_text() == Some("current question")),
        "the live user instruction must survive a forced compression"
    );
    assert!(
        msgs.iter().any(|m| m.content.as_text() == Some("current answer")),
        "everything after the live instruction must survive too"
    );
}

/// When every level refuses — the whole tail after the only user message is
/// tool output — `force_apply` must return `None` and leave the history
/// byte-identical rather than send a prompt without its instruction.
#[test]
fn force_apply_refuses_when_nothing_can_be_cut_safely() {
    let mut pipeline = CompressionPipeline::new(cfg_with(800_000));
    let mut msgs = vec![
        make_msg(Role::System, "sys"),
        make_msg(Role::User, "run it"),
        make_assistant_with_tool_calls("", &["tc1"]),
        make_tool("tc1", &"r".repeat(1500)),
    ];
    let before = msgs.clone();
    let action = force(&mut pipeline, &mut msgs);
    assert_eq!(
        action,
        CompressionAction::Nothing,
        "no level may cut past the live instruction, got {action:?}"
    );
    assert_eq!(msgs.len(), before.len());
    assert!(
        msgs.iter().any(|m| m.role == Role::User),
        "the instruction must still be in the history"
    );
    assert!(
        msgs.iter().any(|m| m.role == Role::Tool),
        "the tool result must not be silently discarded"
    );
}

/// Forced compression on an already-minimal history is a no-op, not an
/// error: the caller decides what "nothing to cut" means.
#[test]
fn force_apply_on_a_short_history_is_a_noop() {
    let mut pipeline = CompressionPipeline::new(cfg_with(800_000));
    let mut msgs = vec![
        make_msg(Role::System, "sys"),
        make_msg(Role::User, "hello"),
    ];
    let before = msgs.clone();
    let action = force(&mut pipeline, &mut msgs);
    assert_eq!(action, CompressionAction::Nothing);
    assert_eq!(msgs.len(), before.len());
}

/// A failed summary does not end a forced pass: the next level is tried.
#[test]
fn forced_pass_goes_on_where_the_summary_failed() {
    let mut pipeline = CompressionPipeline::new(cfg_with(800_000));
    let mut msgs = vec![
        make_msg(Role::System, "sys"),
        make_msg(Role::User, "old question"),
        make_msg(Role::Assistant, "old answer"),
        make_msg(Role::User, "second question"),
        make_msg(Role::Assistant, "second answer"),
        make_msg(Role::User, "current question"),
        make_msg(Role::Assistant, "current answer"),
    ];
    match pipeline.force_apply(&mut msgs) {
        CompressionStep::Summarize(_) => {}
        other => panic!("{:?}", other),
    }
    let action = pipeline.finish_force(&mut msgs, None);
    assert!(matches!(action, CompressionAction::Chunked { .. }), "{:?}", action);
    assert!(msgs.iter().any(|m| m.content.as_text() == Some("current question")));
}

/// A level that does nothing leaves the rows as they were.
#[test]
fn nothing_means_unchanged() {
    let mut msgs = vec![make_msg(Role::System, "sys"), make_msg(Role::User, "only")];
    let before = msgs.clone();
    assert_eq!(truncate_oldest(&mut msgs), CompressionAction::Nothing);
    assert_eq!(msgs, before);
}

#[test]
fn a_second_time_nothing_is_cut() {
    let long_text = "x".repeat(2500);
    let mut msgs = vec![make_msg(Role::User, "go")];
    for id in ["a", "b", "c", "d"] {
        msgs.push(make_tool(id, &long_text));
    }
    assert_eq!(snip_stale_tool_results(&mut msgs, 3), 1);
    assert_eq!(snip_stale_tool_results(&mut msgs, 3), 0);
    assert_eq!(
        tag_compress_tool_outputs(&mut msgs),
        CompressionAction::TagCompressed { compressed: 3 }
    );
    assert_eq!(tag_compress_tool_outputs(&mut msgs), CompressionAction::Nothing);
}
