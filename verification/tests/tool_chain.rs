//! Tool chains as a provider accepts them.

use dscode_core::agent::forge::{invokes_command, tool_fingerprint};
use dscode_core::agent::tool_chain::{
    merge_consecutive_tool_call_assistants, validate_tool_chain_for_provider,
};
use dscode_core::providers::trait_def::{FunctionCall, Message, MessageContent, Role, ToolCall};

fn tool_call(id: &str, name: &str) -> ToolCall {
    ToolCall {
        id: id.into(),
        call_type: "function".into(),
        function: FunctionCall {
            name: name.into(),
            arguments: "{}".into(),
        },
    }
}

fn assistant_tc(ids: &[&str]) -> Message {
    Message {
        role: Role::Assistant,
        content: MessageContent::Text(String::new()),
        name: None,
        tool_calls: Some(ids.iter().map(|id| tool_call(id, "do_web_fetch")).collect()),
        tool_call_id: None,
        reasoning_content: None,
        created_at: 0,
        ..Default::default()
    }
}

fn tool_result(id: &str) -> Message {
    Message {
        role: Role::Tool,
        content: MessageContent::Text(format!("result-{id}")),
        name: None,
        tool_calls: None,
        tool_call_id: Some(id.into()),
        reasoning_content: None,
        created_at: 0,
        ..Default::default()
    }
}

#[test]
fn merge_parallel_tool_call_assistants() {
    let mut msgs = vec![
        Message {
            role: Role::User,
            content: MessageContent::Text("find proxies".into()),
            ..Default::default()
        },
        // Legacy split: one assistant per parallel ToolStart
        assistant_tc(&["a"]),
        assistant_tc(&["b"]),
        assistant_tc(&["c"]),
        tool_result("a"),
        tool_result("b"),
        tool_result("c"),
        Message {
            role: Role::Assistant,
            content: MessageContent::Text("here are proxies".into()),
            ..Default::default()
        },
    ];
    merge_consecutive_tool_call_assistants(&mut msgs);
    assert_eq!(msgs.len(), 6); // user + 1 assistant(tc) + 3 tools + final
    assert_eq!(msgs[1].role, Role::Assistant);
    let ids: Vec<_> = msgs[1]
        .tool_calls
        .as_ref()
        .unwrap()
        .iter()
        .map(|t| t.id.as_str())
        .collect();
    assert_eq!(ids, vec!["a", "b", "c"]);
    assert_eq!(msgs[2].tool_call_id.as_deref(), Some("a"));
    assert_eq!(msgs[3].tool_call_id.as_deref(), Some("b"));
    assert_eq!(msgs[4].tool_call_id.as_deref(), Some("c"));
}

#[test]
fn validate_accepts_merged_parallel_chain() {
    let msgs = vec![
        Message {
            role: Role::System,
            content: MessageContent::Text("sys".into()),
            ..Default::default()
        },
        Message {
            role: Role::User,
            content: MessageContent::Text("q".into()),
            ..Default::default()
        },
        assistant_tc(&["a"]),
        assistant_tc(&["b"]),
        tool_result("a"),
        tool_result("b"),
        Message {
            role: Role::Assistant,
            content: MessageContent::Text("done".into()),
            ..Default::default()
        },
        Message {
            role: Role::User,
            content: MessageContent::Text("second msg".into()),
            ..Default::default()
        },
    ];
    let out = validate_tool_chain_for_provider(msgs);
    // One combined assistant with both tool_calls
    let tc_assistants: Vec<_> = out
        .iter()
        .filter(|m| m.role == Role::Assistant && m.tool_calls.is_some())
        .collect();
    assert_eq!(tc_assistants.len(), 1);
    assert_eq!(tc_assistants[0].tool_calls.as_ref().unwrap().len(), 2);
    // Both tool results retained immediately after
    let tools: Vec<_> = out.iter().filter(|m| m.role == Role::Tool).collect();
    assert_eq!(tools.len(), 2);
    // No assistant(tool_calls) without following tools — count positions
    let mut i = 0;
    while i < out.len() {
        if out[i].role == Role::Assistant {
            if let Some(ref tcs) = out[i].tool_calls {
                for (k, tc) in tcs.iter().enumerate() {
                    let tool_msg = &out[i + 1 + k];
                    assert_eq!(tool_msg.role, Role::Tool, "tool must follow assistant");
                    assert_eq!(tool_msg.tool_call_id.as_deref(), Some(tc.id.as_str()));
                }
            }
        }
        i += 1;
    }
}

#[test]
fn does_not_merge_across_tool_results() {
    // Sequential tool turns (iteration 1 then 2) must stay separate.
    let mut msgs = vec![
        assistant_tc(&["a"]),
        tool_result("a"),
        assistant_tc(&["b"]),
        tool_result("b"),
    ];
    merge_consecutive_tool_call_assistants(&mut msgs);
    assert_eq!(msgs.len(), 4);
    assert_eq!(msgs[0].tool_calls.as_ref().unwrap().len(), 1);
    assert_eq!(msgs[2].tool_calls.as_ref().unwrap().len(), 1);
}

#[test]
fn validate_drops_out_of_order_tool_chain() {
    // Regression: Tool response BEFORE its assistant (bad SQLite ordering /
    // compression rebuild / desktop re-insert) previously produced a 400
    // "assistant message with 'tool_calls' must be followed by tool messages"
    // because the Tool msg was dropped while the assistant kept its tool_calls.
    let msgs = vec![
        Message {
            role: Role::System,
            content: MessageContent::Text("sys".into()),
            ..Default::default()
        },
        Message {
            role: Role::User,
            content: MessageContent::Text("q".into()),
            ..Default::default()
        },
        tool_result("call_x"), // out-of-order: no assistant declared it yet
        assistant_tc(&["call_x"]),
        Message {
            role: Role::Assistant,
            content: MessageContent::Text("done".into()),
            ..Default::default()
        },
    ];
    let out = validate_tool_chain_for_provider(msgs);
    let tc_assts: Vec<_> = out
        .iter()
        .filter(|m| m.role == Role::Assistant && m.tool_calls.is_some())
        .collect();
    assert!(
        tc_assts.is_empty(),
        "assistant must not keep unpaired tool_calls"
    );
    assert_eq!(
        out.iter().filter(|m| m.role == Role::Tool).count(),
        0,
        "orphan tool dropped"
    );
    assert!(out.iter().any(|m| {
        m.role == Role::Assistant
            && m.content.as_text().map_or(false, |c| c == "done")
    }));
}

#[test]
fn validate_keeps_in_order_tool_chain() {
    let msgs = vec![
        assistant_tc(&["a", "b"]),
        tool_result("a"),
        tool_result("b"),
        Message {
            role: Role::Assistant,
            content: MessageContent::Text("answer".into()),
            ..Default::default()
        },
    ];
    let out = validate_tool_chain_for_provider(msgs);
    let tc_assts: Vec<_> = out
        .iter()
        .filter(|m| m.role == Role::Assistant && m.tool_calls.is_some())
        .collect();
    assert_eq!(tc_assts.len(), 1);
    assert_eq!(tc_assts[0].tool_calls.as_ref().unwrap().len(), 2);
    assert_eq!(out.iter().filter(|m| m.role == Role::Tool).count(), 2);
}

#[test]
fn validate_pairs_first_response_only() {
    // Duplicate responses for one id: only the first (after the assistant)
    // is paired; the extra Tool message must be dropped.
    let msgs = vec![
        assistant_tc(&["a"]),
        tool_result("a"),
        tool_result("a"),
        Message {
            role: Role::Assistant,
            content: MessageContent::Text("answer".into()),
            ..Default::default()
        },
    ];
    let out = validate_tool_chain_for_provider(msgs);
    let tc_assts: Vec<_> = out
        .iter()
        .filter(|m| m.role == Role::Assistant && m.tool_calls.is_some())
        .collect();
    assert_eq!(tc_assts.len(), 1);
    assert_eq!(tc_assts[0].tool_calls.as_ref().unwrap().len(), 1);
    assert_eq!(
        out.iter().filter(|m| m.role == Role::Tool).count(),
        1,
        "duplicate response dropped"
    );
}

#[test]
fn validate_does_not_pair_across_another_assistant() {
    // `[A(tc=[a,b]), T(a), A(tc=[c]), T(c), T(b)]` — `b`'s response sits
    // after a second assistant, so it does not belong to the first one.
    // Pairing it anyway handed the first assistant a `b` whose matching tool
    // message was not the one immediately following it (provider 400).
    //
    // The second assistant must carry a response of its own: with a bare
    // `A(tc=[c])`, `clean_orphaned_tool_calls` drops it before pairing runs,
    // the barrier disappears, and the input collapses to
    // `[A(tc=[a,b]), T(a), T(b)]` — which is a valid chain.
    let msgs = vec![
        assistant_tc(&["a", "b"]),
        tool_result("a"),
        assistant_tc(&["c"]),
        tool_result("c"),
        tool_result("b"),
    ];
    let out = validate_tool_chain_for_provider(msgs);
    let tc_assts: Vec<_> = out
        .iter()
        .filter(|m| m.role == Role::Assistant && m.tool_calls.is_some())
        .collect();
    assert_eq!(tc_assts.len(), 2, "got {out:#?}");
    let ids: Vec<&str> = tc_assts[0]
        .tool_calls
        .as_ref()
        .unwrap()
        .iter()
        .map(|t| t.id.as_str())
        .collect();
    assert_eq!(
        ids,
        vec!["a"],
        "`b` must not be paired across another assistant"
    );
    // `c` still pairs with its own response; `b`'s orphaned one is dropped.
    assert_eq!(out.iter().filter(|m| m.role == Role::Tool).count(), 2);
}

#[test]
fn validate_deduplicates_tool_call_ids_within_one_assistant() {
    // `kept` is keyed by (index, id): the same id declared twice in one
    // assistant survived while only one response was paired.
    let msgs = vec![assistant_tc(&["a", "a"]), tool_result("a")];
    let out = validate_tool_chain_for_provider(msgs);
    let tc_assts: Vec<_> = out
        .iter()
        .filter(|m| m.role == Role::Assistant && m.tool_calls.is_some())
        .collect();
    assert_eq!(tc_assts.len(), 1);
    assert_eq!(
        tc_assts[0].tool_calls.as_ref().unwrap().len(),
        1,
        "duplicate tool_call id must be collapsed"
    );
    assert_eq!(out.iter().filter(|m| m.role == Role::Tool).count(), 1);
}

#[test]
fn validate_keeps_a_user_message_sent_twice() {
    // A user who resends the same instruction really did ask twice. The
    // row de-duplication is for duplicated storage rows, and must not touch
    // User messages — folding them collapsed two explicit requests into one.
    let msgs = vec![
        Message {
            role: Role::User,
            content: MessageContent::Text("run the tests".into()),
            ..Default::default()
        },
        Message {
            role: Role::User,
            content: MessageContent::Text("run the tests".into()),
            ..Default::default()
        },
    ];
    let out = validate_tool_chain_for_provider(msgs);
    assert_eq!(
        out.iter().filter(|m| m.role == Role::User).count(),
        2,
        "a repeated user instruction must survive"
    );
}

#[test]
fn validate_deduplicates_repeated_assistant_rows() {
    // Two identical assistant rows (double-persisted turn) still collapse.
    let msgs = vec![
        assistant_tc(&["a"]),
        assistant_tc(&["a"]),
        tool_result("a"),
    ];
    let out = validate_tool_chain_for_provider(msgs);
    assert_eq!(
        out.iter().filter(|m| m.role == Role::Assistant).count(),
        1,
        "duplicate assistant row must be dropped: {out:#?}"
    );
    assert_eq!(out.iter().filter(|m| m.role == Role::Tool).count(), 1);
}

/// A command must match on a token boundary: `/compacter` is not
/// `/compact`. The helper accepts an argument or `:` suffix because that
/// is how a command with arguments would be written (`/plan: fix it`),
/// but never a longer word — which is exactly what the historical
/// `starts_with` checks get wrong (`/planet` still hits `/plan`).
#[test]
fn command_matching_stops_at_a_token_boundary() {
    assert!(invokes_command("/plan", "/plan"));
    assert!(invokes_command("/plan build it", "/plan"));
    assert!(invokes_command("/plan: build it", "/plan"));
    assert!(!invokes_command("/planet", "/plan"));
    assert!(!invokes_command("/plans", "/plan"));

    assert!(invokes_command("/auto", "/auto"));
    assert!(invokes_command("/auto do x", "/auto"));
    assert!(!invokes_command("/autopilot", "/auto"));

    assert!(invokes_command("/compact", "/compact"));
    assert!(invokes_command("/compact ", "/compact"));
    assert!(!invokes_command("/compaction", "/compact"));
    assert!(!invokes_command("/foo", "/compact"));
}

#[test]
fn tool_fingerprint_distinguishes_args() {
    // Same tool + same args → same fingerprint (real loop).
    let a = tool_call("1", "do_bash");
    let b = tool_call("2", "do_bash");
    assert_eq!(tool_fingerprint(&a), tool_fingerprint(&b));

    // Same tool + DIFFERENT args → different fingerprint (NOT a loop).
    let mut c = tool_call("3", "do_bash");
    c.function.arguments = "{\"command\":\"ls\"}".into();
    let mut d = tool_call("4", "do_bash");
    d.function.arguments = "{\"command\":\"cargo check\"}".into();
    assert_ne!(tool_fingerprint(&c), tool_fingerprint(&d));

    // Different tool → different fingerprint.
    let e = tool_call("5", "do_web_search");
    assert_ne!(tool_fingerprint(&a), tool_fingerprint(&e));
}

#[test]
fn an_intact_history_is_unchanged() {
    let rows = || {
        vec![
            assistant_tc(&["a", "b"]),
            tool_result("b"),
            tool_result("a"),
            assistant_tc(&["a"]),
            tool_result("a"),
        ]
    };
    let out = validate_tool_chain_for_provider(rows());
    assert_eq!(format!("{:?}", out), format!("{:?}", rows()));
}
