//! The events that the agent tells its user interface.

use crate::text;
use vstd::prelude::*;

pub use crate::providers::trait_def::UsageInfo;

verus! {

/// How a tool call stands.
#[derive(Debug, Clone, Copy, PartialEq, Eq, Structural)]
pub enum ToolStatus {
    Success,
    Error,
    Running,
}

/// What the agent tells while it works.
#[derive(Debug)]
pub enum StreamEvent {
    /// Thinking content of the model.
    Thinking { content: String, step: u32 },
    /// Text for display.
    Token { content: String },
    /// A tool call has started.
    ToolStart { id: String, name: String, description: String, arguments: String },
    /// Progress of a running tool.
    ToolProgress { id: String, chunk: String },
    /// A tool call has ended.
    ToolEnd { id: String, status: ToolStatus, result: String },
    /// A fact was taken from the conversation.
    Fact { id: String, subject: String, predicate: String, object: String },
    /// The context was compressed.
    ContextCompressed { before_tokens: u64, after_tokens: u64, window: u64 },
    /// An error occurred.
    Error { content: String },
    /// The agent has finished its turn.
    Complete { usage: Option<UsageInfo> },
    /// A sub-agent has started.
    TeamAgentStart { agent_id: String, task: String },
    /// Output of a sub-agent.
    TeamAgentOutput { agent_id: String, content: String },
    /// A sub-agent has ended.
    TeamAgentEnd { agent_id: String, success: bool, summary: String },
    /// All sub-agents have ended.
    TeamComplete { completed: usize, failed: usize },
    /// A question of a plan interview.
    PlanQuestion {
        phase: String,
        question: String,
        recommended: String,
        options: Vec<String>,
        remaining: u32,
        auto_notes: Vec<String>,
    },
}

/// An event as a value.
#[verifier::ext_equal]
pub enum EventView {
    Thinking { content: Seq<char>, step: u32 },
    Token { content: Seq<char> },
    ToolStart {
        id: Seq<char>,
        name: Seq<char>,
        description: Seq<char>,
        arguments: Seq<char>,
    },
    ToolProgress { id: Seq<char>, chunk: Seq<char> },
    ToolEnd { id: Seq<char>, status: ToolStatus, result: Seq<char> },
    Fact { id: Seq<char>, subject: Seq<char>, predicate: Seq<char>, object: Seq<char> },
    ContextCompressed { before_tokens: u64, after_tokens: u64, window: u64 },
    Error { content: Seq<char> },
    Complete { usage: Option<UsageInfo> },
    TeamAgentStart { agent_id: Seq<char>, task: Seq<char> },
    TeamAgentOutput { agent_id: Seq<char>, content: Seq<char> },
    TeamAgentEnd { agent_id: Seq<char>, success: bool, summary: Seq<char> },
    TeamComplete { completed: usize, failed: usize },
    PlanQuestion {
        phase: Seq<char>,
        question: Seq<char>,
        recommended: Seq<char>,
        options: Seq<Seq<char>>,
        remaining: u32,
        auto_notes: Seq<Seq<char>>,
    },
}

impl View for StreamEvent {
    type V = EventView;

    open spec fn view(&self) -> EventView {
        match self {
            StreamEvent::Thinking { content, step } => EventView::Thinking {
                content: content@,
                step: *step,
            },
            StreamEvent::Token { content } => EventView::Token { content: content@ },
            StreamEvent::ToolStart { id, name, description, arguments } => EventView::ToolStart {
                id: id@,
                name: name@,
                description: description@,
                arguments: arguments@,
            },
            StreamEvent::ToolProgress { id, chunk } => EventView::ToolProgress {
                id: id@,
                chunk: chunk@,
            },
            StreamEvent::ToolEnd { id, status, result } => EventView::ToolEnd {
                id: id@,
                status: *status,
                result: result@,
            },
            StreamEvent::Fact { id, subject, predicate, object } => EventView::Fact {
                id: id@,
                subject: subject@,
                predicate: predicate@,
                object: object@,
            },
            StreamEvent::ContextCompressed { before_tokens, after_tokens, window } => {
                EventView::ContextCompressed {
                    before_tokens: *before_tokens,
                    after_tokens: *after_tokens,
                    window: *window,
                }
            },
            StreamEvent::Error { content } => EventView::Error { content: content@ },
            StreamEvent::Complete { usage } => EventView::Complete { usage: *usage },
            StreamEvent::TeamAgentStart { agent_id, task } => EventView::TeamAgentStart {
                agent_id: agent_id@,
                task: task@,
            },
            StreamEvent::TeamAgentOutput { agent_id, content } => EventView::TeamAgentOutput {
                agent_id: agent_id@,
                content: content@,
            },
            StreamEvent::TeamAgentEnd { agent_id, success, summary } => EventView::TeamAgentEnd {
                agent_id: agent_id@,
                success: *success,
                summary: summary@,
            },
            StreamEvent::TeamComplete { completed, failed } => EventView::TeamComplete {
                completed: *completed,
                failed: *failed,
            },
            StreamEvent::PlanQuestion {
                phase,
                question,
                recommended,
                options,
                remaining,
                auto_notes,
            } => EventView::PlanQuestion {
                phase: phase@,
                question: question@,
                recommended: recommended@,
                options: text::texts(options@),
                remaining: *remaining,
                auto_notes: text::texts(auto_notes@),
            },
        }
    }
}

/// The values of a list of events.
pub open spec fn event_views(v: Seq<StreamEvent>) -> Seq<EventView> {
    v.map_values(|e: StreamEvent| e@)
}

/// Adding one event adds one value.
pub broadcast proof fn lemma_event_views_push(v: Seq<StreamEvent>, e: StreamEvent)
    ensures
        #[trigger] event_views(v.push(e)) == event_views(v).push(e@),
{
    assert(event_views(v.push(e)) =~= event_views(v).push(e@));
}

/// How many of the events say that the turn is complete.
pub open spec fn completions(s: Seq<EventView>) -> nat
    decreases s.len(),
{
    if s.len() == 0 {
        0
    } else {
        completions(s.drop_last()) + (if s.last() is Complete {
            1nat
        } else {
            0
        })
    }
}

/// The count of completions with one more event.
pub broadcast proof fn lemma_completions_push(s: Seq<EventView>, e: EventView)
    ensures
        #[trigger] completions(s.push(e)) == completions(s) + (if e is Complete {
            1nat
        } else {
            0
        }),
{
    assert(s.push(e).drop_last() =~= s);
}

} // verus!
