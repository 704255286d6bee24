//! The command line.

use dscode_core::agent::stream::{StreamEvent, ToolStatus, UsageInfo};
use dscode_core::cli::{parse_args, Invocation, Shown, Transcript};

fn args(words: &[&str]) -> Vec<String> {
    words.iter().map(|w| w.to_string()).collect()
}

#[test]
fn arguments_make_a_message() {
    assert_eq!(parse_args(&args(&[])), Invocation::Usage);
    assert_eq!(parse_args(&args(&["dscode-cli"])), Invocation::Usage);
    assert_eq!(parse_args(&args(&["dscode-cli", " "])), Invocation::BlankMessage);
    assert_eq!(parse_args(&args(&["dscode-cli", "--teams"])), Invocation::BlankMessage);
    assert_eq!(
        parse_args(&args(&["dscode-cli", "fix", "it"])),
        Invocation::Run { teams: false, message: "fix it".into() }
    );
    assert_eq!(
        parse_args(&args(&["dscode-cli", "--teams", "fix", "--teams"])),
        Invocation::Run { teams: true, message: "fix --teams".into() }
    );
}

fn line(s: Shown) -> String {
    match s {
        Shown::Text(t) | Shown::Line(t) | Shown::Problem(t) => t,
        other => panic!("{:?}", other),
    }
}

#[test]
fn events_are_shown() {
    let mut t = Transcript::new();
    assert_eq!(line(t.on_event(&StreamEvent::Token { content: "a".into() })), "a");
    assert_eq!(line(t.on_event(&StreamEvent::Token { content: "b".into() })), "b");
    assert_eq!(t.assistant_content, "ab");
    assert_eq!(
        line(t.on_event(&StreamEvent::Thinking { content: "hm".into(), step: 1 })),
        "\u{1b}[90mhm\u{1b}[0m"
    );
    assert_eq!(
        line(t.on_event(&StreamEvent::ToolEnd {
            id: "1".into(),
            status: ToolStatus::Success,
            result: "é".into(),
        })),
        "  ✅ Done (2 bytes)"
    );
    assert_eq!(
        line(t.on_event(&StreamEvent::TeamComplete { completed: 2, failed: 1 })),
        "\n--- Teams: 2 done, 1 failed ---"
    );
    assert_eq!(
        line(t.on_event(&StreamEvent::TeamAgentStart {
            agent_id: "x".into(),
            task: "y".repeat(70),
        })),
        format!("  🔵 x started: {}", "y".repeat(60))
    );
    assert!(matches!(
        t.on_event(&StreamEvent::Complete { usage: Some(UsageInfo::default()) }),
        Shown::Used(_)
    ));
    assert!(matches!(t.on_event(&StreamEvent::Complete { usage: None }), Shown::Hidden));
    let end = t.ending(None);
    assert_eq!((end.last.as_str(), end.failed), ("\n✅ Done", false));
    let _ = t.on_event(&StreamEvent::Error { content: "bad".into() });
    let end = t.ending(None);
    assert_eq!((end.last.as_str(), end.failed), ("\n❌ Agent reported an error", true));
    let end = t.ending(Some("down"));
    assert_eq!((end.last.as_str(), end.failed), ("\n❌ Agent error: down", true));
}
