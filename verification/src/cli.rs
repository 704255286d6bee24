//! The command line: what an invocation asks for, and how events are shown.

use crate::agent::stream::{EventView, StreamEvent, ToolStatus, UsageInfo};
use crate::text;
use crate::text::{cat2, cat3, decimal, join, take_chars, trimmed};
use vstd::prelude::*;
use vstd::string::*;

verus! {

/// How the program is used.
pub const USAGE: &'static str = "Usage: dscode-cli [--teams] <message>";

/// What an invocation asks for.
#[derive(Debug, PartialEq, Eq)]
pub enum Invocation {
    /// Nothing was said: show how the program is used.
    Usage,
    /// The message is blank: say so too.
    BlankMessage,
    /// A message for the agent, or for the team.
    Run { teams: bool, message: String },
}

/// What an invocation asks for, as a value.
#[verifier::ext_equal]
pub ghost enum InvocationView {
    Usage,
    BlankMessage,
    Run { teams: bool, message: Seq<char> },
}

impl View for Invocation {
    type V = InvocationView;

    open spec fn view(&self) -> InvocationView {
        match self {
            Invocation::Usage => InvocationView::Usage,
            Invocation::BlankMessage => InvocationView::BlankMessage,
            Invocation::Run { teams, message } => InvocationView::Run {
                teams: *teams,
                message: message@,
            },
        }
    }
}

/// What the arguments, the program's name first, ask for.
pub open spec fn asked(args: Seq<Seq<char>>) -> InvocationView {
    if args.len() <= 1 {
        InvocationView::Usage
    } else {
        let teams = args[1] == "--teams"@;
        let message = text::joined(
            args.skip(if teams {
                2
            } else {
                1
            }),
            " "@,
        );
        if text::trim_of(message).len() == 0 {
            InvocationView::BlankMessage
        } else {
            InvocationView::Run { teams, message }
        }
    }
}

/// Reads the arguments, the program's name first.
pub fn parse_args(args: &Vec<String>) -> (r: Invocation)
    ensures
        r@ == asked(text::texts(args@)),
{
    let ghost all = text::texts(args@);
    let n: usize = args.len();
    if n <= 1 {
        return Invocation::Usage;
    }
    let teams = crate::text::same(args[1].as_str(), "--teams");
    let from: usize = if teams {
        2
    } else {
        1
    };
    let mut words: Vec<String> = Vec::new();
    assert(text::texts(words@) =~= all.subrange(from as int, from as int));
    for i in from..n
        invariant
            n == args@.len(),
            1 <= from <= n,
            all == text::texts(args@),
            text::texts(words@) == all.subrange(from as int, i as int),
    {
        let w = args[i].clone();
        proof {
            text::lemma_texts_push(words@, w);
            assert(all.subrange(from as int, i as int + 1) =~= all.subrange(
                from as int,
                i as int,
            ).push(all[i as int]));
        }
        words.push(w);
    }
    assert(all.subrange(from as int, n as int) =~= all.skip(from as int));
    let message = join(&words, " ");
    if trimmed(message.as_str()).as_str().is_empty() {
        Invocation::BlankMessage
    } else {
        Invocation::Run { teams, message }
    }
}

/// What to show of an event.
#[derive(Debug)]
pub enum Shown {
    /// A text, at once.
    Text(String),
    /// A line.
    Line(String),
    /// A line of the error output.
    Problem(String),
    /// What a turn used, in thousands of tokens.
    Used(UsageInfo),
    /// Nothing.
    Hidden,
}

/// What to show of an event, as a value.
#[verifier::ext_equal]
pub ghost enum ShownView {
    Text(Seq<char>),
    Line(Seq<char>),
    Problem(Seq<char>),
    Used(UsageInfo),
    Hidden,
}

impl View for Shown {
    type V = ShownView;

    open spec fn view(&self) -> ShownView {
        match self {
            Shown::Text(s) => ShownView::Text(s@),
            Shown::Line(s) => ShownView::Line(s@),
            Shown::Problem(s) => ShownView::Problem(s@),
            Shown::Used(u) => ShownView::Used(*u),
            Shown::Hidden => ShownView::Hidden,
        }
    }
}

/// The sign for how a tool call stands.
pub open spec fn status_sign(status: ToolStatus) -> Seq<char> {
    match status {
        ToolStatus::Success => "✅"@,
        ToolStatus::Error => "❌"@,
        ToolStatus::Running => "⏳"@,
    }
}

/// What is shown of an event.
pub open spec fn shown(e: EventView) -> ShownView {
    match e {
        EventView::Thinking { content, .. } => ShownView::Text(
            "\u{1b}[90m"@ + content + "\u{1b}[0m"@,
        ),
        EventView::Token { content } => ShownView::Text(content),
        EventView::ToolStart { name, .. } => ShownView::Line("\n  🔧 Running: "@ + name),
        EventView::ToolEnd { status, result, .. } => ShownView::Line(
            "  "@ + status_sign(status) + " Done ("@ + text::dec(
                vstd::utf8::encode_utf8(result).len(),
            ) + " bytes)"@,
        ),
        EventView::Fact { subject, predicate, object, .. } => ShownView::Line(
            "  🧠 Fact: "@ + subject + " "@ + predicate + " "@ + object,
        ),
        EventView::Error { content } => ShownView::Problem("\n❌ Error: "@ + content),
        EventView::Complete { usage } => match usage {
            Some(u) => ShownView::Used(u),
            None => ShownView::Hidden,
        },
        EventView::TeamAgentStart { agent_id, task } => ShownView::Line(
            "  🔵 "@ + agent_id + " started: "@ + text::first_chars(task, 60),
        ),
        EventView::TeamAgentOutput { agent_id, content } => ShownView::Text(
            "  ["@ + agent_id + "] "@ + content,
        ),
        EventView::TeamAgentEnd { agent_id, success, summary } => ShownView::Line(
            "\n  "@ + (if success {
                "✅"@
            } else {
                "❌"@
            }) + " "@ + agent_id + " done: "@ + summary,
        ),
        EventView::TeamComplete { completed, failed } => ShownView::Line(
            "\n--- Teams: "@ + text::dec(completed as nat) + " done, "@ + text::dec(failed as nat)
                + " failed ---"@,
        ),
        _ => ShownView::Hidden,
    }
}

/// What is kept while the events of a turn come in.
#[derive(Debug)]
pub struct Transcript {
    /// Whether an error was among them.
    pub had_error: bool,
    /// What the assistant said.
    pub assistant_content: String,
}

/// What the assistant has said when some events have come in.
pub open spec fn spoken(s: Seq<EventView>) -> Seq<char>
    decreases s.len(),
{
    if s.len() == 0 {
        ""@
    } else {
        match s.last() {
            EventView::Token { content } => spoken(s.drop_last()) + content,
            _ => spoken(s.drop_last()),
        }
    }
}

/// Whether an error is among some events.
pub open spec fn reported(s: Seq<EventView>) -> bool {
    exists|i: int| 0 <= i < s.len() && #[trigger] s[i] is Error
}

/// How the program ends.
#[derive(Debug)]
pub struct Ending {
    /// What to write last, on the error output where the program has failed.
    pub last: String,
    pub failed: bool,
}

proof fn lemma_one_more_event(
    before: Transcript,
    after: Transcript,
    s: Seq<EventView>,
    e: EventView,
)
    requires
        before.is_of(s),
        after.had_error == (before.had_error || e is Error),
        after.assistant_content@ == (match e {
            EventView::Token { content } => before.assistant_content@ + content,
            _ => before.assistant_content@,
        }),
    ensures
        after.is_of(s.push(e)),
{
    let t = s.push(e);
    assert(t.drop_last() =~= s);
    if reported(s) {
        let i = choose|i: int| 0 <= i < s.len() && #[trigger] s[i] is Error;
        assert(t[i] is Error);
    }
    if e is Error {
        assert(t[s.len() as int] is Error);
    }
    if reported(t) {
        let i = choose|i: int| 0 <= i < t.len() && #[trigger] t[i] is Error;
        if i < s.len() {
            assert(s[i] is Error);
        }
    }
}

impl Transcript {
    /// Whether this is what is kept of some events.
    pub open spec fn is_of(&self, s: Seq<EventView>) -> bool {
        self.had_error == reported(s) && self.assistant_content@ == spoken(s)
    }

    /// Nothing yet.
    pub fn new() -> (r: Self)
        ensures
            !r.had_error,
            r.assistant_content@ == ""@,
            r.is_of(Seq::empty()),
    {
        Transcript { had_error: false, assistant_content: "".to_string() }
    }

    /// Takes an event and says what to show of it. What is kept of some events becomes
    /// what is kept of those and this one.
    pub fn on_event(&mut self, event: &StreamEvent) -> (r: Shown)
        ensures
            r@ == shown(event@),
            final(self).had_error == (old(self).had_error || event@ is Error),
            final(self).assistant_content@ == (match event@ {
                EventView::Token { content } => old(self).assistant_content@ + content,
                _ => old(self).assistant_content@,
            }),
            forall|s: Seq<EventView>| #[trigger]
                old(self).is_of(s) ==> final(self).is_of(s.push(event@)),
    {
        let r = match event {
            StreamEvent::Thinking { content, .. } => Shown::Text(
                cat3("\u{1b}[90m", content.as_str(), "\u{1b}[0m"),
            ),
            StreamEvent::Token { content } => {
                self.assistant_content.append(content.as_str());
                Shown::Text(content.clone())
            },
            StreamEvent::ToolStart { name, .. } => Shown::Line(
                cat2("\n  🔧 Running: ", name.as_str()),
            ),
            StreamEvent::ToolEnd { status, result, .. } => {
                let sign = match status {
                    ToolStatus::Success => "✅",
                    ToolStatus::Error => "❌",
                    ToolStatus::Running => "⏳",
                };
                let bytes: usize = result.as_str().as_bytes().len();
                Shown::Line(
                    cat3("  ", sign, " Done (").concat(decimal(bytes as u64).as_str()).concat(
                        " bytes)",
                    ),
                )
            },
            StreamEvent::Fact { subject, predicate, object, .. } => Shown::Line(
                cat3("  🧠 Fact: ", subject.as_str(), " ").concat(predicate.as_str()).concat(
                    " ",
                ).concat(object.as_str()),
            ),
            StreamEvent::Error { content } => {
                self.had_error = true;
                Shown::Problem(cat2("\n❌ Error: ", content.as_str()))
            },
            StreamEvent::Complete { usage } => match usage {
                Some(u) => Shown::Used(*u),
                None => Shown::Hidden,
            },
            StreamEvent::TeamAgentStart { agent_id, task } => Shown::Line(
                cat3("  🔵 ", agent_id.as_str(), " started: ").concat(
                    take_chars(task.as_str(), 60).as_str(),
                ),
            ),
            StreamEvent::TeamAgentOutput { agent_id, content } => Shown::Text(
                cat3("  [", agent_id.as_str(), "] ").concat(content.as_str()),
            ),
            StreamEvent::TeamAgentEnd { agent_id, success, summary } => Shown::Line(
                cat3(
                    "\n  ",
                    if *success {
                        "✅"
                    } else {
                        "❌"
                    },
                    " ",
                ).concat(agent_id.as_str()).concat(" done: ").concat(summary.as_str()),
            ),
            StreamEvent::TeamComplete { completed, failed } => Shown::Line(
                cat3("\n--- Teams: ", decimal(*completed as u64).as_str(), " done, ").concat(
                    decimal(*failed as u64).as_str(),
                ).concat(" failed ---"),
            ),
            _ => Shown::Hidden,
        };
        proof {
            assert forall|s: Seq<EventView>| #[trigger] old(self).is_of(s) implies self.is_of(
                s.push(event@),
            ) by {
                lemma_one_more_event(*old(self), *self, s, event@);
            }
        }
        r
    }

    /// How the program ends, given the error of the turn if it had one. A turn
    /// that reported an error has failed, whatever it came back with.
    pub fn ending(&self, error: Option<&str>) -> (r: Ending)
        ensures
            r.failed == (error is Some || self.had_error),
            r.last@ == (match error {
                Some(e) => "\n❌ Agent error: "@ + e@,
                None => if self.had_error {
                    "\n❌ Agent reported an error"@
                } else {
                    "\n✅ Done"@
                },
            }),
    {
        match error {
            Some(e) => Ending { last: cat2("\n❌ Agent error: ", e), failed: true },
            None => if self.had_error {
                Ending { last: "\n❌ Agent reported an error".to_string(), failed: true }
            } else {
                Ending { last: "\n✅ Done".to_string(), failed: false }
            },
        }
    }
}

// ── Laws ────────────────────────────────────────────────────────────────────

/// What is said is all that was shown as said, in order, however the events are grouped.
pub proof fn law_spoken_in_parts(a: Seq<EventView>, b: Seq<EventView>)
    ensures
        spoken(a + b) == spoken(a) + spoken(b),
        reported(a + b) <==> reported(a) || reported(b),
    decreases b.len(),
{
    reveal_strlit("");
    if b.len() == 0 {
        assert(a + b =~= a);
        assert(spoken(a) + spoken(b) =~= spoken(a));
    } else {
        assert((a + b).drop_last() =~= a + b.drop_last());
        assert((a + b).last() == b.last());
        law_spoken_in_parts(a, b.drop_last());
        assert(spoken(a + b) =~= spoken(a) + spoken(b));
    }
    if reported(a) {
        let i = choose|i: int| 0 <= i < a.len() && #[trigger] a[i] is Error;
        assert((a + b)[i] is Error);
    }
    if reported(b) {
        let i = choose|i: int| 0 <= i < b.len() && #[trigger] b[i] is Error;
        assert((a + b)[a.len() + i] is Error);
    }
    if reported(a + b) {
        let i = choose|i: int| 0 <= i < (a + b).len() && #[trigger] (a + b)[i] is Error;
        if i < a.len() {
            assert(a[i] is Error);
        } else {
            assert(b[i - a.len()] is Error);
        }
    }
}

/// What the model says is shown as it is, and an error never goes unseen: it is told whole,
/// as a problem.
pub proof fn law_errors_are_seen(content: Seq<char>)
    ensures
        shown(EventView::Token { content }) == ShownView::Text(content),
        shown(EventView::Error { content }) matches ShownView::Problem(s) && text::ends(s, content),
{
    let none = Seq::<char>::empty();
    text::lemma_part_at("\n❌ Error: "@, content, none);
    assert("\n❌ Error: "@ + content + none =~= "\n❌ Error: "@ + content);
}

/// Every word that was typed reaches the agent, in order; the switch for the team is no word
/// of the message.
pub proof fn law_words_reach_the_agent(args: Seq<Seq<char>>, i: int)
    requires
        args.len() > 1,
    ensures
        args[1] != "--teams"@ && 1 <= i < args.len() ==> (asked(args) is BlankMessage || (asked(
            args,
        ) matches InvocationView::Run { teams, message } && !teams && text::has_part(
            message,
            args[i],
        ))),
        args[1] == "--teams"@ && 2 <= i < args.len() ==> (asked(args) is BlankMessage || (asked(
            args,
        ) matches InvocationView::Run { teams, message } && teams && text::has_part(
            message,
            args[i],
        ))),
        asked(args) is BlankMessage <==> text::is_blank(
            text::joined(
                args.skip(if args[1] == "--teams"@ {
                    2
                } else {
                    1
                }),
                " "@,
            ),
        ),
{
    let from = if args[1] == "--teams"@ {
        2
    } else {
        1int
    };
    let words = args.skip(from);
    text::law_blank_is_trimmed_away(text::joined(words, " "@));
    if from <= i < args.len() {
        text::lemma_joined_has(words, " "@, i - from);
        assert(words[i - from] == args[i]);
    }
}

} // verus!
