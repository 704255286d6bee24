//! A turn of the agent.

use dscode_core::agent::compression::{CompressionAction, CompressionStep};
use dscode_core::agent::forge::{
    action_label, enriched_system_prompt, execute_one_tool, fail_tool, finish_reason_note,
    finish_tool, route_input, truncate_tool_result, Forge, ForgeError, Route, ToolOutcome,
    DEFAULT_SYSTEM_PROMPT,
};
use dscode_core::agent::forge_run::{ForgeRun, ForgeStep};
use dscode_core::agent::forge_turn::{
    auto_failed, emit_plan_turn, plan_failed, plan_missing, plan_start_failed, CompactRun, Opening,
};
use dscode_core::agent::stream::{StreamEvent, ToolStatus, UsageInfo};
use dscode_core::agent::stream_turn::{
    completed_turn, stream_open_failed, StreamAccumulator, StreamEnd, StreamedTurn,
};
use dscode_core::agent::tool_loop::{fingerprint_set, shift_window, window_loops};
use dscode_core::auto::runner::{Subtask, SubtaskStatus};
use dscode_core::config::settings::ContextConfig;
use dscode_core::providers::trait_def::{
    ChatResponse, FunctionCall, FunctionDelta, Message, ProviderError, Role, StreamChunk,
    ToolCall, ToolCallDelta,
};

fn row(role: Role, s: &str) -> Message {
    Message::from_text(role, s.into())
}

fn call(id: &str, name: &str, arguments: &str) -> ToolCall {
    ToolCall {
        id: id.into(),
        call_type: "function".into(),
        function: FunctionCall { name: name.into(), arguments: arguments.into() },
    }
}

fn reply(content: &str, tool_calls: Vec<ToolCall>) -> StreamedTurn {
    StreamedTurn {
        response: ChatResponse {
            content: content.into(),
            tool_calls,
            usage: Some(UsageInfo::default()),
            reasoning_content: None,
        },
        truncated: None,
        finish_reason: None,
    }
}

fn token(e: &StreamEvent) -> &str {
    match e {
        StreamEvent::Token { content } => content,
        other => panic!("{:?}", other),
    }
}

fn problem(e: &StreamEvent) -> &str {
    match e {
        StreamEvent::Error { content } => content,
        other => panic!("{:?}", other),
    }
}

// ── What an input leads to ──

#[test]
fn inputs_are_routed() {
    let said = vec![row(Role::User, "build it"), row(Role::Assistant, "ok")];
    assert!(matches!(route_input(" /CANCEL ", false, false, &said), Route::CancelPlan));
    assert!(matches!(route_input("/compact", true, true, &said), Route::Compact));
    assert!(matches!(route_input("yes", true, false, &said), Route::AnswerPlan(_)));
    match route_input("/plan a shop", true, false, &said) {
        Route::StartPlan(goal) => assert_eq!(goal, "a shop"),
        other => panic!("{:?}", other),
    }
    match route_input("/auto", false, false, &said) {
        Route::Auto(task) => assert_eq!(task, "build it"),
        other => panic!("{:?}", other),
    }
    assert!(matches!(route_input("/auto", false, false, &[]), Route::AutoUsage));
    assert!(matches!(route_input("/teams on", false, false, &said), Route::Chat(Some(true))));
    assert!(matches!(route_input("/teams off", false, true, &said), Route::Chat(Some(false))));
    assert!(matches!(route_input("hello", false, true, &said), Route::Teams(_)));
    assert!(matches!(route_input("hello", false, false, &said), Route::Chat(None)));
}

#[test]
fn a_chat_opens_a_turn() {
    let mut forge = Forge::new("/w").with_max_history_messages(1).with_max_iterations(7);
    let history = vec![row(Role::User, "one"), row(Role::Assistant, "two")];
    let run = match forge.execute("/teams on", false, &history, &[], "SKILL") {
        Opening::Chat(run) => run,
        other => panic!("{:?}", other),
    };
    assert!(forge.teams_mode);
    assert_eq!(run.messages().len(), 3);
    let system = run.messages()[0].content.as_text().unwrap();
    assert!(system.starts_with(DEFAULT_SYSTEM_PROMPT));
    assert!(system.contains("Teams mode ON"));
    assert!(system.contains("Current working directory: /w"));
    assert!(system.contains("SKILL"));
    assert_eq!(run.messages()[2].content.as_text().unwrap(), "/teams on");
    assert_eq!(run.iteration(), 0);
}

#[test]
fn commands_without_an_argument_explain_themselves() {
    let mut forge = Forge::new("/w");
    match forge.execute("/plan", false, &[], &[], "") {
        Opening::Answered(events) => {
            assert!(token(&events[0]).starts_with("Usage: `/plan"));
            assert!(matches!(events[1], StreamEvent::Complete { usage: None }));
        }
        other => panic!("{:?}", other),
    }
    match forge.execute("/auto", false, &[], &[], "") {
        Opening::Answered(events) => assert!(token(&events[0]).starts_with("Usage: `/auto")),
        other => panic!("{:?}", other),
    }
    match forge.execute("/cancel", false, &[], &[], "") {
        Opening::Answered(events) => assert_eq!(token(&events[0]), "No active plan interview.\n"),
        other => panic!("{:?}", other),
    }
}

#[test]
fn settings_are_kept_in_bounds() {
    let forge = Forge::new("/w")
        .with_permission_timeout(1)
        .with_system_prompt("P".into())
        .with_teams_mode(true)
        .with_context_config(ContextConfig {
            window_tokens: 10,
            compress_threshold: 500_000,
            max_agent_iterations: 3,
        });
    assert_eq!(forge.permission_timeout_secs, 10);
    assert_eq!(forge.max_iterations, 3);
    assert_eq!(forge.system_prompt, "P");
    let auto = forge.auto_runner();
    assert!(auto.teams_parallel);
    assert_eq!((auto.magi_max_rounds, auto.magi_max_steps, auto.max_parallel), (3, 12, 4));
    assert!(forge.auto_notice().is_some());
}

#[test]
fn prompts_name_the_directory_and_the_skills() {
    assert_eq!(
        enriched_system_prompt("P", None, "/w", ""),
        "P\n\nCurrent working directory: /w"
    );
    assert!(enriched_system_prompt("P", Some(false), "/w", "S").contains("Teams mode OFF"));
}

// ── The steps of a turn ──

fn run(max_iterations: u32) -> ForgeRun {
    ForgeRun::new(
        vec![row(Role::System, "S"), row(Role::User, "do it")],
        0,
        ContextConfig::default(),
        max_iterations,
    )
}

#[test]
fn a_turn_with_tools_ends_with_an_answer() {
    let mut r = run(5);
    assert!(matches!(r.begin(false, &vec![]).step, ForgeStep::CallProvider));
    assert_eq!(r.outgoing().len(), 2);
    let calls = vec![call("a", "ls", "{}")];
    match r.on_turn(reply("", calls)).step {
        ForgeStep::RunTools(calls, None) => assert_eq!(calls.len(), 1),
        other => panic!("{:?}", other),
    }
    let answer = Message::tool_answer("a".into(), "files".into());
    assert!(matches!(r.on_tools(vec![answer], None).step, ForgeStep::Again));
    assert!(matches!(r.begin(false, &vec![]).step, ForgeStep::CallProvider));
    assert_eq!(r.outgoing().len(), 4);
    let end = r.on_turn(reply("done", vec![]));
    assert!(matches!(end.step, ForgeStep::Done));
    assert!(matches!(end.events[0], StreamEvent::Complete { usage: Some(_) }));
}

#[test]
fn a_turn_is_bounded_and_can_be_cancelled() {
    let mut r = run(1);
    let nudge = r.begin(false, &vec!["hurry".into()]);
    assert!(token(&nudge.events[0]).contains("hurry"));
    assert_eq!(r.messages().len(), 3);
    let end = r.begin(false, &vec![]);
    assert_eq!(
        problem(&end.events[0]),
        "Agent stopped after 1 iterations without a final answer."
    );
    assert!(matches!(end.step, ForgeStep::Failed(ForgeError::MaxIterations(1))));
    let end = run(2).begin(true, &vec![]);
    assert!(matches!(end.step, ForgeStep::Failed(ForgeError::Cancelled)));
    let end = run(2).on_tools_cancelled();
    assert!(matches!(end.step, ForgeStep::Failed(ForgeError::Cancelled)));
}

#[test]
fn failures_are_withheld_three_times() {
    let mut r = run(9);
    let down = || ProviderError::Http("connection reset".into());
    for wait in [1000, 2000, 4000] {
        let _ = r.begin(false, &vec![]);
        match r.on_failure(down(), "down", false).step {
            ForgeStep::Wait(ms) => assert_eq!(ms, wait),
            other => panic!("{:?}", other),
        }
    }
    let end = r.on_failure(down(), "down", false);
    assert_eq!(problem(&end.events[0]), "Provider error: down");
    assert!(matches!(end.step, ForgeStep::Failed(ForgeError::Provider(_))));
    let end = run(9).on_failure(ProviderError::NoApiKey, "no key", false);
    assert!(matches!(end.step, ForgeStep::Failed(ForgeError::Provider(ProviderError::NoApiKey))));
}

#[test]
fn a_broken_reply_is_not_acted_on() {
    let mut r = run(9);
    let _ = r.begin(false, &vec![]);
    let mut t = reply("half", vec![call("a", "rm", "{")]);
    t.truncated = Some("no data for 90s".into());
    let end = r.on_turn(t);
    assert!(problem(&end.events[0]).contains("no data for 90s"));
    assert!(matches!(end.step, ForgeStep::Failed(_)));
    assert_eq!(r.messages().len(), 2);
}

#[test]
fn empty_replies_are_asked_again() {
    let mut r = run(9);
    for n in 1..=3 {
        let again = r.on_turn(reply("  ", vec![]));
        assert!(token(&again.events[0]).contains(&format!("({n}/3)")));
        assert!(matches!(again.step, ForgeStep::Wait(_)));
    }
    // The model is told once.
    assert_eq!(r.messages().len(), 3);
    let end = r.on_turn(reply("", vec![]));
    assert!(matches!(end.step, ForgeStep::Failed(ForgeError::EmptyResponse)));
}

#[test]
fn a_prompt_that_is_too_long_is_compressed_once() {
    let mut rows = vec![row(Role::System, "S"), row(Role::User, "start")];
    for i in 0..30 {
        rows.push(row(Role::Assistant, &format!("step {i} {}", "x".repeat(400))));
        rows.push(row(Role::User, &format!("go on {i}")));
    }
    let mut r = ForgeRun::new(rows, 0, ContextConfig::default(), 9);
    let _ = r.begin(false, &vec![]);
    let long = || ProviderError::Api { status: 400, message: "context_length_exceeded".into() };
    let first = r.on_failure(long(), "too long", true);
    let step = match first.step {
        ForgeStep::Rescue(pending) => r.on_rescue(pending, Some("summary of the work")).step,
        other => other,
    };
    assert!(matches!(step, ForgeStep::Again), "{:?}", step);
    assert!(r.messages().len() < 62);
    let end = r.on_failure(long(), "too long", true);
    assert!(problem(&end.events[0]).starts_with("压缩后仍然超过模型的上下文上限"));
    let nothing = run(9).on_failure(long(), "too long", true);
    assert!(problem(&nothing.events[0]).starts_with("上下文超过模型的上限"));
}

#[test]
fn cut_replies_leave_a_note() {
    let mut r = run(9);
    let mut t = reply("", vec![call("a", "ls", "{}")]);
    t.finish_reason = Some(" LENGTH ".into());
    let note = match r.on_turn(t).step {
        ForgeStep::RunTools(_, Some(note)) => note,
        other => panic!("{:?}", other),
    };
    let _ = r.on_tools(vec![Message::tool_answer("a".into(), "out".into())], Some(note));
    assert_eq!(
        r.messages().last().unwrap().content.as_text().unwrap(),
        format!("out\n\n[note: {note}]")
    );
    assert!(finish_reason_note(Some("content_filter")).is_some());
    assert!(finish_reason_note(Some("stop")).is_none());
    assert!(finish_reason_note(None).is_none());
}

#[test]
fn loops_are_noticed() {
    let same = || fingerprint_set(&vec![call("x", "ls", "{}")]);
    let mut window = vec![];
    shift_window(&mut window, same());
    shift_window(&mut window, same());
    assert!(!window_loops(&window));
    shift_window(&mut window, same());
    assert!(window_loops(&window));
    for _ in 0..4 {
        shift_window(&mut window, same());
    }
    assert_eq!(window.len(), 5);
}

#[test]
fn a_repeated_tool_is_told_to_the_model() {
    let mut r = run(20);
    let mut told = false;
    for i in 0..10 {
        let reaction = r.begin(false, &vec![]);
        told = told
            || reaction.events.iter().any(|e| match e {
                StreamEvent::Token { content } => content.contains("Tool loop detected"),
                _ => false,
            });
        let id = format!("c{i}");
        let _ = r.on_turn(reply("", vec![call(&id, "ls", "{}")]));
        let _ = r.on_tools(vec![Message::tool_answer(id, "same".into())], None);
    }
    assert!(told);
}

// ── Tools ──

#[test]
fn tool_calls_start_and_end() {
    let good = call("1", "ls", "{\"path\":\".\"}");
    let (start, end) = execute_one_tool(&good, "lists files");
    assert!(matches!(start, StreamEvent::ToolStart { .. }));
    assert!(end.is_none());
    let (_, end) = execute_one_tool(&call("2", "ls", "{"), "");
    let (event, row) = end.unwrap();
    assert!(matches!(event, StreamEvent::ToolEnd { status: ToolStatus::Error, .. }));
    assert!(row
        .content
        .as_text()
        .unwrap()
        .starts_with("Failed to parse arguments for tool 'ls': EOF"));
    assert_eq!(row.tool_call_id.as_deref(), Some("2"));
    let failed = ToolOutcome { success: false, output: "out".into(), error: None };
    let (event, row) = finish_tool(&good, &failed);
    assert!(matches!(event, StreamEvent::ToolEnd { status: ToolStatus::Error, .. }));
    assert_eq!(row.content.as_text().unwrap(), "out");
    let (_, row) = fail_tool(&good, "unknown tool");
    assert_eq!(row.content.as_text().unwrap(), "unknown tool");
}

#[test]
fn long_tool_output_is_cut() {
    let cut = truncate_tool_result(&"好".repeat(200), 100);
    assert!(cut.starts_with(&"好".repeat(20)));
    assert!(!cut.contains(&"好".repeat(21)));
    assert!(cut.contains("truncated at 100 chars"));
    assert_eq!(truncate_tool_result("short", 100), "short");
}

// ── Streams ──

fn chunk(content: &str) -> StreamChunk {
    StreamChunk {
        reasoning_content: None,
        content: Some(content.into()),
        tool_calls: None,
        usage: None,
        finish_reason: None,
    }
}

fn piece(index: u32, id: Option<&str>, name: Option<&str>, arguments: &str) -> StreamChunk {
    StreamChunk {
        reasoning_content: None,
        content: None,
        tool_calls: Some(vec![ToolCallDelta {
            index,
            id: id.map(|s| s.to_string()),
            function: Some(FunctionDelta {
                name: name.map(|s| s.to_string()),
                arguments: Some(arguments.into()),
            }),
        }]),
        usage: None,
        finish_reason: None,
    }
}

#[test]
fn a_stream_makes_a_reply() {
    let mut acc = StreamAccumulator::new();
    let events = acc.on_chunk(chunk("hel"), 1);
    assert_eq!(token(&events[0]), "hel");
    let _ = acc.on_chunk(chunk("lo"), 1);
    let _ = acc.on_chunk(piece(1, None, Some("b"), "{}"), 1);
    let _ = acc.on_chunk(piece(0, Some("id0"), Some("a"), "{\"x\""), 1);
    let _ = acc.on_chunk(piece(0, None, None, ":1}"), 1);
    let turn = acc.finish(None).unwrap();
    assert_eq!(turn.response.content, "hello");
    assert_eq!(turn.response.tool_calls.len(), 2);
    assert_eq!(turn.response.tool_calls[0].id, "id0");
    assert_eq!(turn.response.tool_calls[0].function.arguments, "{\"x\":1}");
    assert_eq!(turn.response.tool_calls[1].function.name, "b");
    assert!(!turn.response.tool_calls[1].id.is_empty());
    assert!(turn.truncated.is_none());
}

#[test]
fn a_stream_that_stops_is_judged_by_what_came() {
    let empty = StreamAccumulator::new();
    assert!(matches!(empty.on_idle(), StreamEnd::FallBack));
    assert!(matches!(empty.on_error(true, "x"), StreamEnd::Fail));
    assert!(matches!(empty.on_error(false, "x"), StreamEnd::FallBack));
    assert!(StreamAccumulator::new().finish(None).is_none());
    let mut some = StreamAccumulator::new();
    let _ = some.on_chunk(chunk("x"), 1);
    match some.on_error(false, "reset") {
        StreamEnd::Finish(Some(why)) => assert_eq!(why, "stream error mid-response: reset"),
        other => panic!("{:?}", other),
    }
    assert!(matches!(some.on_idle(), StreamEnd::Finish(Some(_))));
    assert!(matches!(some.on_budget_spent(), StreamEnd::Finish(Some(_))));
    let turn = some.finish(Some("no data for 90s".into())).unwrap();
    assert_eq!(turn.truncated.as_deref(), Some("no data for 90s"));
    // A reply whose end was announced is whole.
    let mut ended = StreamAccumulator::new();
    let mut last = chunk("x");
    last.finish_reason = Some("stop".into());
    let _ = ended.on_chunk(last, 1);
    assert!(ended.finish(Some("late".into())).unwrap().truncated.is_none());
    assert!(matches!(stream_open_failed(true), StreamEnd::Fail));
    assert!(matches!(stream_open_failed(false), StreamEnd::FallBack));
}

#[test]
fn a_reply_at_once_is_shown() {
    let response = ChatResponse {
        content: "hi".into(),
        tool_calls: vec![],
        usage: None,
        reasoning_content: Some("hmm".into()),
    };
    let (turn, events) = completed_turn(response, 3);
    assert_eq!(turn.response.content, "hi");
    assert!(matches!(&events[0], StreamEvent::Thinking { step: 3, .. }));
    assert_eq!(token(&events[1]), "hi");
}

// ── Compressing, planning and runs of their own ──

#[test]
fn compaction_reports() {
    let history = vec![row(Role::User, "hi")];
    let (run, step) = CompactRun::compact_now(history, &[], ContextConfig::default());
    let action = match step {
        CompressionStep::Done(action) => action,
        other => panic!("{:?}", other),
    };
    assert_eq!(action, CompressionAction::Nothing);
    let events = run.report(action, "0.0");
    assert!(matches!(events[0], StreamEvent::ContextCompressed { .. }));
    assert!(token(&events[1]).starts_with("当前上下文无需压缩:"));
    assert_eq!(action_label(&CompressionAction::Nothing), "无");
}

#[test]
fn interviews_are_shown_in_pieces() {
    let md = "字".repeat(100);
    let events = emit_plan_turn(&md, None);
    assert_eq!(events.len(), 4);
    let shown: String = events[..3].iter().map(|e| token(e)).collect();
    assert_eq!(shown, md);
    assert_eq!(emit_plan_turn("", None).len(), 1);
    assert_eq!(problem(&plan_start_failed("e")[0]), "Failed to start plan: e");
    assert_eq!(problem(&plan_failed("e")[0]), "Plan error: e");
    assert!(token(&plan_missing()[0]).starts_with("No active plan."));
}

#[test]
fn runs_of_their_own_are_summed_up() {
    let forge = Forge::new("/w");
    let task = |status| Subtask {
        id: 1,
        description: "d".into(),
        dependencies: vec![],
        status,
    };
    let events = forge.auto_finished(
        &vec![task(SubtaskStatus::Done), task(SubtaskStatus::Pending)],
        "87.5",
    );
    assert_eq!(
        token(&events[0]),
        "\n**Auto finished.** 1/2 subtasks done, avg quality 87.5/100.\n"
    );
    assert!(forge.auto_notice().is_none());
    assert!(!auto_failed("e").is_empty());
}

#[test]
fn turn_errors_describe_themselves() {
    assert_eq!(ForgeError::Cancelled.describe(""), "cancelled");
    assert_eq!(ForgeError::Tool("t".into()).describe(""), "tool error: t");
    assert_eq!(
        ForgeError::Provider(ProviderError::NoApiKey).describe("no key"),
        "provider error: no key"
    );
    assert_eq!(
        ForgeError::MaxIterations(3).describe(""),
        "max iterations (3) reached without a final response"
    );
    assert!(ForgeError::EmptyResponse.describe("").contains("empty response"));
}
