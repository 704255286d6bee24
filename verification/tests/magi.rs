//! Reviewing, executing and evaluating a task, round by round.

use dscode_core::agent::stream::StreamEvent;
use dscode_core::magi::execute::{
    build_execution_prompt, check_call, execute_subtask, is_write_tool, result_says_failed,
    tool_reply_text, ExecutionRun, ExecutionStep, ToolReply,
};
use dscode_core::magi::promote::{parse_leading_int, parse_promotion, promote};
use dscode_core::magi::scheduler::{
    retry_delay, MagiError, MagiRound, MagiScheduler, Promotion, Spiral, SpiralStep,
};
use dscode_core::magi::scrutinize::{build_scrutiny_prompt, scrutinize};
use dscode_core::providers::trait_def::{ChatResponse, FunctionCall, Role, ToolCall};

fn leading_int(s: &str) -> Option<i64> {
    let chars: Vec<char> = s.chars().collect();
    parse_leading_int(&chars)
}

fn says(content: &str) -> ChatResponse {
    ChatResponse {
        content: content.into(),
        tool_calls: vec![],
        usage: None,
        reasoning_content: None,
    }
}

fn calls(id: &str, arguments: &str) -> ChatResponse {
    ChatResponse {
        content: String::new(),
        tool_calls: vec![ToolCall {
            id: id.into(),
            call_type: "function".into(),
            function: FunctionCall { name: "do_echo".into(), arguments: arguments.into() },
        }],
        usage: None,
        reasoning_content: None,
    }
}

/// The tool that answers with the message it is given.
fn echo(tc: &ToolCall) -> String {
    match check_call(tc) {
        Some(refused) => refused,
        None => {
            let args: serde_json::Value = serde_json::from_str(&tc.function.arguments).unwrap();
            let msg = args["message"].as_str().unwrap_or("no message");
            tool_reply_text(
                &tc.function.name,
                &ToolReply::Finished { success: true, output: format!("echo: {}", msg), error: None },
            )
        }
    }
}

/// Runs an execution with a model that gives the replies in order.
fn execute(mut run: ExecutionRun, replies: Vec<ChatResponse>) -> Result<String, MagiError> {
    let mut replies = replies.into_iter();
    let mut step = run.begin(false).step;
    loop {
        step = match step {
            ExecutionStep::CallProvider => run.on_reply(replies.next().unwrap()).step,
            ExecutionStep::RunTools(tools) => {
                for tc in &tools {
                    let _ = run.tool_started(tc);
                    let result = echo(tc);
                    let _ = run.on_tool(tc, result);
                }
                run.begin(false).step
            }
            ExecutionStep::Wait(_) => run.begin(false).step,
            ExecutionStep::Done(s) => return Ok(s),
            ExecutionStep::Failed(e) => return Err(e),
        };
    }
}

/// Runs a spiral with models that give the replies in order.
fn spin(
    mut spiral: Spiral,
    primary: Vec<&str>,
    runtime: Vec<&str>,
) -> Result<Vec<MagiRound>, MagiError> {
    let mut primary = primary.into_iter();
    let mut runtime = runtime.into_iter();
    let mut step = spiral.begin().step;
    loop {
        step = match step {
            SpiralStep::Review(_) => spiral.on_review(primary.next().unwrap().into()).step,
            SpiralStep::Execute { scrutiny, max_steps } => {
                let run = execute_subtask("/tmp", "prd", &scrutiny, max_steps, "");
                match execute(run, vec![says(primary.next().unwrap())]) {
                    Ok(s) => spiral.on_execution(s).step,
                    Err(e) => spiral.on_failure(e).step,
                }
            }
            SpiralStep::Evaluate(_) => spiral.on_evaluation(runtime.next().unwrap()).step,
            SpiralStep::Wait(_) => spiral.request(),
            SpiralStep::NextRound => spiral.begin().step,
            SpiralStep::Done(rounds) => return Ok(rounds),
            SpiralStep::Failed(e) => return Err(e),
        };
    }
}

#[test]
fn test_parse_promotion_stop() {
    let raw = "STOP: true\nREASON: All requirements met\nQUALITY: 95\nFOCUS: None";
    let p = parse_promotion(raw).unwrap();
    assert!(p.should_stop);
    assert_eq!(p.stop_reason, "All requirements met");
    assert_eq!(p.quality_score, 95);
    assert_eq!(p.next_round_focus, "None");
}

#[test]
fn test_parse_promotion_continue() {
    let raw = "STOP: false\nREASON: Missing error handling\nQUALITY: 72\nFOCUS: Add error handling";
    let p = parse_promotion(raw).unwrap();
    assert!(!p.should_stop);
    assert_eq!(p.stop_reason, "Missing error handling");
    assert_eq!(p.quality_score, 72);
    assert_eq!(p.next_round_focus, "Add error handling");
}

#[test]
fn test_parse_promotion_with_colon_spacing() {
    let raw = "STOP:true\nREASON:Done\nQUALITY:100\nFOCUS:None";
    let p = parse_promotion(raw).unwrap();
    assert!(p.should_stop);
    assert_eq!(p.stop_reason, "Done");
    assert_eq!(p.quality_score, 100);
}

#[test]
fn test_parse_promotion_with_extra_text() {
    let raw = "Some preamble\nSTOP: false\nREASON: Needs more tests\nQUALITY: 68\nFOCUS: Write integration tests\nSome trailing text";
    let p = parse_promotion(raw).unwrap();
    assert!(!p.should_stop);
    assert_eq!(p.stop_reason, "Needs more tests");
    assert_eq!(p.quality_score, 68);
    assert_eq!(p.next_round_focus, "Write integration tests");
}

#[test]
fn test_parse_promotion_missing_quality_is_parse_error() {
    // A lone STOP:true has no quality evidence — must not be a verdict.
    assert!(parse_promotion("STOP: true").is_err());
    // A refusal is not a "continue" vote either.
    assert!(parse_promotion("I can't evaluate this.").is_err());
    assert!(parse_promotion("").is_err());
}

#[test]
fn test_parse_promotion_stop_without_quality_band_is_continue() {
    // STOP:true + low quality contradicts Melchior's own rules → continue.
    let p = parse_promotion("STOP: true\nREASON: looks done\nQUALITY: 40\nFOCUS: x").unwrap();
    assert!(!p.should_stop);
    assert_eq!(p.quality_score, 40);
}

#[test]
fn test_parse_promotion_markdown_and_variants() {
    let variants = [
        ("STOP: **true**\nQUALITY: **95**", true, 95),
        ("- STOP: TRUE (complete)\n- QUALITY: 92/100", true, 92),
        ("STOP: done\nQUALITY: 96", true, 96),
        ("STOP: true.\nQUALITY: 90 (good)", true, 90),
        ("STOP: no\nQUALITY: 88/100", false, 88),
        ("STOP: false\nQUALITY: 85%", false, 85),
        ("**STOP**: true\n**QUALITY**: 91", true, 91),
        ("1. STOP: true\n2. QUALITY: 94", true, 94),
    ];
    for (raw, want_stop, want_quality) in variants {
        let p = parse_promotion(raw).unwrap_or_else(|e| panic!("{raw:?} → {e:?}"));
        assert_eq!(p.should_stop, want_stop, "raw={raw:?}");
        assert_eq!(p.quality_score, want_quality, "raw={raw:?}");
    }
}

#[test]
fn test_parse_leading_int() {
    assert_eq!(leading_int("88/100"), Some(88));
    assert_eq!(leading_int(" 85 (good)"), Some(85));
    assert_eq!(leading_int("**88**"), Some(88));
    assert_eq!(leading_int("-50"), Some(-50));
    assert_eq!(leading_int("85%"), Some(85));
    assert_eq!(leading_int("n/a"), None);
    assert_eq!(leading_int("unknown"), None);
}

#[test]
fn test_parse_promotion_clamps_score() {
    let p = parse_promotion("STOP: false\nREASON: x\nQUALITY: 150\nFOCUS: y").unwrap();
    assert_eq!(p.quality_score, 100);

    let p = parse_promotion("STOP: false\nREASON: x\nQUALITY: -50\nFOCUS: y").unwrap();
    assert_eq!(p.quality_score, 0);
}

#[test]
fn test_promote_high_score() {
    let rows = promote(
        "Build a hello world",
        "Looks complete",
        "Implemented main.rs with hello world",
    );
    assert!(rows[1].content.as_text().unwrap().contains("Implemented main.rs with hello world"));
    let p = parse_promotion("STOP: true\nREASON: Perfect\nQUALITY: 98\nFOCUS: None").unwrap();
    assert!(p.should_stop);
    assert!(p.quality_score > 90);
}

#[test]
fn test_promote_low_score() {
    let rows =
        promote("Build a complex system", "Needs everything", "Created an empty file");
    assert!(rows[1].content.as_text().unwrap().contains("Needs everything"));
    let p =
        parse_promotion("STOP: false\nREASON: Barely started\nQUALITY: 15\nFOCUS: Start coding")
            .unwrap();
    assert!(!p.should_stop);
    assert!(p.quality_score < 50);
}

#[test]
fn test_execute_simple_text_response() {
    let run = execute_subtask(
        "/tmp",
        "PRD: Build a hello world",
        "Scrutiny: Looks fine",
        10,
        "",
    );
    let result = execute(run, vec![says("I implemented the feature.")]);
    assert!(result.is_ok());
    assert_eq!(result.unwrap(), "I implemented the feature.");
}

#[test]
fn test_execute_with_tool_calls() {
    let run =
        execute_subtask("/tmp", "PRD: Test echo tool", "Scrutiny: Verify echo works", 10, "");
    let result = execute(
        run,
        vec![
            calls("call_1", r#"{"message": "hello world"}"#),
            says("Done with the echo test."),
        ],
    );
    assert!(result.is_ok());
    assert!(result.unwrap().contains("Done"));
}

#[test]
fn test_execute_max_steps_exhausted() {
    // The model always asks for tools, so the run never ends by itself.
    let replies: Vec<ChatResponse> =
        (0..20).map(|i| calls(&format!("call_{}", i), r#"{"message": "loop"}"#)).collect();
    let run = execute_subtask("/tmp", "PRD: Loop forever", "Scrutiny: needs work", 3, "");
    let result = execute(run, replies);
    // Step-budget exhaustion is a failure, not a successful execution.
    assert!(result.is_err());
    let msg = result.unwrap_err().describe();
    assert!(msg.contains("step budget"), "expected step budget error, got: {msg}");
}

#[test]
fn test_build_execution_prompt() {
    let prompt = build_execution_prompt("Build API", "Add auth layer");
    assert!(prompt.contains("Build API"));
    assert!(prompt.contains("Add auth layer"));
    assert!(prompt.contains("Your Task"));
}

#[test]
fn test_spiral_single_round_stop() {
    let scheduler = MagiScheduler::new("/tmp").with_max_rounds(3);
    let result = spin(
        scheduler.run_spiral("Build a CLI tool"),
        vec!["Casper review: looks good, proceed.", "Balthasar executed: implemented main.rs"],
        vec!["STOP: true\nREASON: All requirements met\nQUALITY: 95\nFOCUS: None"],
    );
    assert!(result.is_ok());
    let rounds = result.unwrap();
    assert_eq!(rounds.len(), 1);
    assert_eq!(rounds[0].round_number, 1);
    assert!(rounds[0].promotion.should_stop);
    assert!(rounds[0].promotion.quality_score > 90);
}

#[test]
fn test_spiral_max_rounds_exhausted() {
    // The models always say something that makes the spiral go on.
    let scheduler = MagiScheduler::new("/tmp").with_max_rounds(2);
    let result = spin(
        scheduler.run_spiral("Build everything"),
        vec!["CONTINUE"; 30],
        vec!["CONTINUE"; 30],
    );
    assert!(result.is_err());
    match result.unwrap_err() {
        MagiError::MaxRounds(max, completed_rounds) => {
            assert_eq!(max, 2);
            assert!(!completed_rounds.is_empty()); // rounds should be preserved
        }
        e => panic!("expected MaxRounds(2, rounds), got {:?}", e),
    }
}

fn earlier(
    scrutiny: &str,
    execution: &str,
    quality_score: u32,
    stop_reason: &str,
    next_round_focus: &str,
) -> Vec<MagiRound> {
    vec![MagiRound {
        round_number: 1,
        scrutiny: scrutiny.into(),
        execution: execution.into(),
        promotion: Promotion {
            quality_score,
            should_stop: false,
            stop_reason: stop_reason.into(),
            next_round_focus: next_round_focus.into(),
        },
    }]
}

#[test]
fn test_scrutinize_first_round() {
    let rows = scrutinize("Build a login page", &[], "");
    assert_eq!(rows[0].role, Role::System);
    assert!(rows[1].content.as_text().unwrap().contains("Build a login page"));
    // What the model answers is the report.
    let mut spiral = MagiScheduler::new("/tmp").run_spiral("Build a login page");
    assert!(matches!(spiral.begin().step, SpiralStep::Review(_)));
    match spiral.on_review("All looks clear. Focus on the auth module.".into()).step {
        SpiralStep::Execute { scrutiny, .. } => assert!(scrutiny.contains("auth")),
        other => panic!("{:?}", other),
    }
}

#[test]
fn test_scrutinize_with_previous_rounds() {
    let previous = earlier(
        "Focus on core implementation",
        "Implemented basic structure",
        60,
        "Missing tests",
        "Add tests",
    );
    let rows = scrutinize("Build a CLI tool with tests", &previous, "");
    let asked = rows[1].content.as_text().unwrap();
    assert!(asked.contains("Missing tests"));
    assert!(asked.contains("Implemented basic structure"));
    // What the model answers is the report.
    let mut spiral = MagiScheduler::new("/tmp").run_spiral("Build a CLI tool with tests");
    assert!(matches!(spiral.begin().step, SpiralStep::Review(_)));
    let reply = "Round 1 left off with incomplete tests. Focus on testing.";
    match spiral.on_review(reply.into()).step {
        SpiralStep::Execute { scrutiny, .. } => assert!(scrutiny.contains("test")),
        other => panic!("{:?}", other),
    }
}

#[test]
fn test_build_scrutiny_prompt_first_round() {
    let prompt = build_scrutiny_prompt("Build a web server", &[], "");
    assert!(prompt.contains("Build a web server"));
    assert!(prompt.contains("First Round"));
}

#[test]
fn test_build_scrutiny_prompt_with_rounds() {
    let rounds = earlier("Check auth", "Added login", 70, "Need more", "Add dashboard");
    let prompt = build_scrutiny_prompt("Build app", &rounds, "last scrutiny");
    assert!(prompt.contains("Build app"));
    assert!(prompt.contains("Round 1"));
    assert!(prompt.contains("Check auth"));
    assert!(prompt.contains("last scrutiny"));
}

#[test]
fn a_phase_is_tried_three_times() {
    let mut spiral = MagiScheduler::new("/tmp").run_spiral("x");
    let _ = spiral.begin();
    assert!(matches!(spiral.on_failure(MagiError::Provider("a".into())).step, SpiralStep::Wait(1)));
    assert!(matches!(spiral.on_failure(MagiError::Provider("b".into())).step, SpiralStep::Wait(2)));
    match spiral.on_failure(MagiError::Provider("c".into())).step {
        SpiralStep::Failed(MagiError::Provider(s)) => assert_eq!(s, "c"),
        other => panic!("{:?}", other),
    }
    assert_eq!(retry_delay(3, 2), None);
    assert_eq!(retry_delay(2, 2), Some(2));
}

#[test]
fn empty_replies_are_asked_for_again() {
    let run = execute_subtask("/tmp", "prd", "scrutiny", 5, "agent");
    assert_eq!(execute(run, vec![says(""), says("done at last")]).unwrap(), "done at last");
}

#[test]
fn a_cancelled_execution_stops() {
    let mut run = execute_subtask("/tmp", "prd", "scrutiny", 5, "agent");
    assert!(matches!(
        run.begin(true).step,
        ExecutionStep::Failed(MagiError::Cancelled)
    ));
}

#[test]
fn bad_arguments_are_told_to_the_model() {
    let reply = calls("1", "{not json");
    let told = check_call(&reply.tool_calls[0]).unwrap();
    assert!(told.starts_with("Failed to parse arguments for tool 'do_echo': "), "{told}");
    assert!(check_call(&calls("1", "{}").tool_calls[0]).is_none());
}

#[test]
fn tool_results_are_read() {
    assert!(result_says_failed("error: no such file"));
    assert!(!result_says_failed("ok"));
    assert!(is_write_tool("do_file_write"));
    assert!(!is_write_tool("do_file_read"));
    assert_eq!(
        tool_reply_text("t", &ToolReply::TimedOut),
        "Tool 't' timed out after 90s"
    );
    let long = "y".repeat(100_000);
    let cut = tool_reply_text(
        "t",
        &ToolReply::Finished { success: true, output: long, error: None },
    );
    assert!(cut.ends_with("\n…[truncated]…"));
}

#[test]
fn errors_describe_themselves() {
    assert_eq!(MagiError::Cancelled.describe(), "cancelled");
    assert!(MagiError::MaxRounds(2, vec![]).describe().contains('2'));
    let events = MagiScheduler::new("/tmp").with_progress("a".into()).run_spiral("x").begin().events;
    assert!(events.iter().any(|e| matches!(e, StreamEvent::Token { .. })));
}
