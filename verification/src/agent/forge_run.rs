//! One turn of the agent, decided step by step.
//!
//! [`ForgeRun`] holds the conversation of the turn. Each of its methods takes
//! what has just happened, changes the conversation, and says which events to
//! send and what to do next. The caller does that: it asks the model, runs the
//! tools, waits.
//!
//! Every turn ends with exactly one `Complete` event, but for a reply that broke
//! off: that one ends with an `Error` alone, since part of a reply must not be
//! reported as a finished turn. The laws at the end say so.

use crate::agent::compression;
use crate::agent::compression::{CompressionAction, CompressionPipeline, CompressionStep};
use crate::agent::context;
use crate::agent::context::conversation_tokens;
use crate::agent::error_withholding;
use crate::agent::error_withholding::ErrorWithholder;
use crate::agent::forge;
use crate::agent::forge::{action_label, finish_reason_note, ForgeError};
use crate::agent::stream;
use crate::agent::stream::{EventView, StreamEvent};
use crate::agent::stream_turn::{StreamedTurn, TurnView};
use crate::agent::tool_chain;
use crate::agent::tool_chain::{clean_orphaned_tool_calls, validate_tool_chain_for_provider};
use crate::agent::tool_loop;
use crate::agent::tool_loop::{latest_fingerprints, set_names, shift_window, window_loops};
use crate::config::settings::ContextConfig;
use crate::providers::trait_def;
use crate::providers::trait_def::{
    copy_messages, Message, MessageContent, MessageView, ProviderError, ProviderErrorView, Role,
    ToolCall, ToolCallView,
};
use crate::text;
use crate::text::{cat2, cat3, decimal, join, trimmed};
use vstd::prelude::*;
use vstd::string::*;

verus! {

// ── What a step leads to ────────────────────────────────────────────────────

/// A summary that the model is asked for before a call, with what the caller
/// hands back along with the reply.
#[derive(Debug)]
pub struct PendingSummary {
    pub prompt: String,
    pub before_tokens: u64,
    pub snipped: Option<CompressionAction>,
}

/// A summary that the model is asked for after it rejected a prompt as too long.
#[derive(Debug)]
pub struct PendingRescue {
    pub prompt: String,
    pub before_tokens: u64,
    pub error: ProviderError,
    pub error_text: String,
}

/// What to do next.
#[derive(Debug)]
pub enum ForgeStep {
    /// Ask the model for a summary, then go on with `on_summary`.
    Summarize(PendingSummary),
    /// Ask the model for a summary, then go on with `on_rescue`.
    Rescue(PendingRescue),
    /// Send the outgoing rows to the model, then go on with `on_turn` or
    /// `on_failure`.
    CallProvider,
    /// Run the tools, then go on with `on_tools` or `on_tools_cancelled`.
    RunTools(Vec<ToolCall>, Option<&'static str>),
    /// Wait the milliseconds, then go on with `begin`.
    Wait(u64),
    /// Go on with `begin`.
    Again,
    /// The turn is complete.
    Done,
    /// The turn has failed.
    Failed(ForgeError),
}

/// A failure of a turn as a value.
pub enum ForgeErrorView {
    Provider(ProviderErrorView),
    Tool(Seq<char>),
    MaxIterations(u32),
    EmptyResponse,
    Cancelled,
}

impl View for ForgeError {
    type V = ForgeErrorView;

    open spec fn view(&self) -> ForgeErrorView {
        match self {
            ForgeError::Provider(e) => ForgeErrorView::Provider(e@),
            ForgeError::Tool(s) => ForgeErrorView::Tool(s@),
            ForgeError::MaxIterations(n) => ForgeErrorView::MaxIterations(*n),
            ForgeError::EmptyResponse => ForgeErrorView::EmptyResponse,
            ForgeError::Cancelled => ForgeErrorView::Cancelled,
        }
    }
}

/// A step as a value.
#[verifier::ext_equal]
pub enum StepView {
    Summarize { prompt: Seq<char>, before_tokens: u64, snipped: Option<CompressionAction> },
    Rescue {
        prompt: Seq<char>,
        before_tokens: u64,
        error: ProviderErrorView,
        error_text: Seq<char>,
    },
    CallProvider,
    RunTools(Seq<ToolCallView>, Option<Seq<char>>),
    Wait(int),
    Again,
    Done,
    Failed(ForgeErrorView),
}

impl View for ForgeStep {
    type V = StepView;

    open spec fn view(&self) -> StepView {
        match self {
            ForgeStep::Summarize(p) => StepView::Summarize {
                prompt: p.prompt@,
                before_tokens: p.before_tokens,
                snipped: p.snipped,
            },
            ForgeStep::Rescue(p) => StepView::Rescue {
                prompt: p.prompt@,
                before_tokens: p.before_tokens,
                error: p.error@,
                error_text: p.error_text@,
            },
            ForgeStep::CallProvider => StepView::CallProvider,
            ForgeStep::RunTools(calls, note) => StepView::RunTools(
                trait_def::call_views(calls@),
                forge::opt_str(*note),
            ),
            ForgeStep::Wait(ms) => StepView::Wait(*ms as int),
            ForgeStep::Again => StepView::Again,
            ForgeStep::Done => StepView::Done,
            ForgeStep::Failed(e) => StepView::Failed(e@),
        }
    }
}

/// The events to send, and what to do next.
#[derive(Debug)]
pub struct Reaction {
    pub events: Vec<StreamEvent>,
    pub step: ForgeStep,
}

// ── The state of a turn ─────────────────────────────────────────────────────

/// A turn of the agent.
#[derive(Debug)]
pub struct ForgeRun {
    messages: Vec<Message>,
    outgoing: Vec<Message>,
    tool_tokens: u64,
    config: ContextConfig,
    max_iterations: u32,
    iteration: u32,
    initial_count: usize,
    compressed: bool,
    overflow_retries: u32,
    recent_sets: Vec<Vec<(String, u64)>>,
    withholder: ErrorWithholder,
}

/// A turn as a value.
#[verifier::ext_equal]
pub struct RunView {
    /// The conversation.
    pub messages: Seq<MessageView>,
    /// The rows that the model is sent.
    pub outgoing: Seq<MessageView>,
    /// Tokens of the tool definitions.
    pub tool_tokens: u64,
    pub config: ContextConfig,
    pub max_iterations: u32,
    /// How many times the model has been turned to.
    pub iteration: u32,
    /// How many rows the conversation had at the start.
    pub initial_count: usize,
    /// Whether the turn has been compressed before.
    pub compressed: bool,
    /// How often an over-window rejection was answered by compressing.
    pub overflow_retries: u32,
    /// The tool call sets of the last iterations.
    pub recent_sets: Seq<Seq<tool_loop::Print>>,
    pub withholder: ErrorWithholder,
}

impl RunView {
    /// What holds of every turn.
    pub open spec fn wf(self) -> bool {
        &&& self.iteration <= self.max_iterations
        &&& self.overflow_retries <= 1
        &&& self.recent_sets.len() <= 5
        &&& self.withholder.max_attempts == 3
        &&& self.withholder.base_delay_ms == 1000
        &&& self.withholder.consecutive_errors <= 3
    }
}

impl View for ForgeRun {
    type V = RunView;

    closed spec fn view(&self) -> RunView {
        RunView {
            messages: trait_def::views(self.messages@),
            outgoing: trait_def::views(self.outgoing@),
            tool_tokens: self.tool_tokens,
            config: self.config,
            max_iterations: self.max_iterations,
            iteration: self.iteration,
            initial_count: self.initial_count,
            compressed: self.compressed,
            overflow_retries: self.overflow_retries,
            recent_sets: tool_loop::print_sets(self.recent_sets@),
            withholder: self.withholder,
        }
    }
}

/// The turn, the events and the step after something happened.
#[verifier::ext_equal]
pub struct Outcome {
    pub run: RunView,
    pub events: Seq<EventView>,
    pub step: StepView,
}

// ── What the steps do ───────────────────────────────────────────────────────

/// The tokens of a prompt, at most what a `u64` holds.
pub open spec fn prompt_tokens(s: Seq<MessageView>, tool_tokens: u64) -> u64 {
    match context::fitting(context::message_tokens(s) + tool_tokens as nat) {
        Some(n) => n,
        None => u64::MAX,
    }
}

/// The events of a turn that ends with an error.
pub open spec fn ending(error: Seq<char>) -> Seq<EventView> {
    seq![EventView::Error { content: error }, EventView::Complete { usage: None }]
}

/// What is said when the turns are used up.
pub open spec fn stopped_text(max: u32) -> Seq<char> {
    "Agent stopped after "@ + text::dec(max as nat) + " iterations without a final answer."@
}

/// The turn with the notes of a coordinator as a user row.
pub open spec fn nudged(run: RunView, notes: Seq<Seq<char>>) -> RunView {
    if notes.len() == 0 {
        run
    } else {
        RunView {
            messages: run.messages.push(
                trait_def::text_message(
                    Role::User,
                    "(Coordinator nudge — follow this additional instruction now):\n"@
                        + text::joined(notes, "\n"@),
                ),
            ),
            ..run
        }
    }
}

/// What is shown of the notes of a coordinator.
pub open spec fn nudge_events(notes: Seq<Seq<char>>) -> Seq<EventView> {
    if notes.len() == 0 {
        Seq::empty()
    } else {
        seq![
            EventView::Token {
                content: "\n_📩 Nudge:_ "@ + text::joined(notes, "\n"@) + "\n"@,
            },
        ]
    }
}

/// What is said about a tool loop.
pub open spec fn loop_text(iteration: u32, names: Seq<Seq<char>>) -> Seq<char> {
    "\n\n**Tool loop detected** (iteration "@ + text::dec(iteration as nat)
        + "): repeated tools `"@ + text::joined(names, ", "@)
        + "`. Stop re-running the same tools; consolidate results and give a final answer now.\n"@
}

/// The row that tells the model about a tool loop.
pub open spec fn loop_row() -> MessageView {
    trait_def::text_message(
        Role::User,
        "(System: tool loop detected. Do NOT call the same tools again. Summarize what you have and finish with a concrete answer.)"@,
    )
}

/// The tool calls of the latest row of this turn.
pub open spec fn current_set(run: RunView) -> Seq<tool_loop::Print> {
    tool_loop::latest_set(
        run.outgoing,
        if run.initial_count <= run.outgoing.len() {
            run.initial_count as int
        } else {
            run.outgoing.len() as int
        },
    )
}

/// Looks for a tool loop, from the fifth iteration on, and turns to the model.
pub open spec fn watched(run: RunView, events: Seq<EventView>) -> Outcome {
    let set = current_set(run);
    let window = tool_loop::shifted(run.recent_sets, set);
    if run.iteration < 5 || set.len() == 0 {
        Outcome { run, events, step: StepView::CallProvider }
    } else if tool_loop::loops(window) {
        let messages = run.messages.push(loop_row());
        Outcome {
            run: RunView {
                messages,
                outgoing: tool_chain::validated(messages),
                recent_sets: Seq::empty(),
                ..run
            },
            events: events.push(
                EventView::Token { content: loop_text(run.iteration, tool_loop::names_of(set)) },
            ),
            step: StepView::CallProvider,
        }
    } else {
        Outcome {
            run: RunView { recent_sets: window, ..run },
            events,
            step: StepView::CallProvider,
        }
    }
}

/// Takes the outcome of a compression pass over the outgoing rows.
pub open spec fn settled(
    run: RunView,
    events: Seq<EventView>,
    before: u64,
    action: CompressionAction,
) -> Outcome {
    let after = prompt_tokens(run.outgoing, run.tool_tokens);
    if action != CompressionAction::Nothing || after != before {
        let rows = tool_chain::validated(run.outgoing);
        watched(
            RunView {
                outgoing: rows,
                messages: tool_chain::cleaned(rows),
                compressed: true,
                ..run
            },
            events.push(
                EventView::ContextCompressed {
                    before_tokens: before,
                    after_tokens: after,
                    window: run.config.window_tokens,
                },
            ),
        )
    } else {
        watched(RunView { messages: tool_chain::cleaned(run.messages), ..run }, events)
    }
}

/// Starts an iteration.
pub open spec fn begun(run: RunView, cancelled: bool, notes: Seq<Seq<char>>) -> Outcome {
    if run.iteration >= run.max_iterations {
        Outcome {
            run,
            events: ending(stopped_text(run.max_iterations)),
            step: StepView::Failed(ForgeErrorView::MaxIterations(run.max_iterations)),
        }
    } else {
        let next = RunView { iteration: (run.iteration + 1) as u32, ..run };
        if cancelled {
            Outcome {
                run: next,
                events: ending("Agent cancelled."@),
                step: StepView::Failed(ForgeErrorView::Cancelled),
            }
        } else {
            let told = nudged(next, notes);
            let events = nudge_events(notes);
            let rows = tool_chain::validated(told.messages);
            let before = prompt_tokens(rows, run.tool_tokens);
            let p = compression::pass(rows, run.config, run.compressed, run.tool_tokens);
            let out = RunView { outgoing: p.rows, ..told };
            match p.step {
                compression::StepView::Done(action) => settled(out, events, before, action),
                compression::StepView::Summarize(prompt, snipped) => Outcome {
                    run: out,
                    events,
                    step: StepView::Summarize { prompt, before_tokens: before, snipped },
                },
            }
        }
    }
}

/// Takes the reply to a request for a summary.
pub open spec fn summed_up(
    run: RunView,
    before: u64,
    snipped: Option<CompressionAction>,
    reply: Option<Seq<char>>,
) -> Outcome {
    let c = compression::finished(run.outgoing, snipped, reply);
    settled(RunView { outgoing: c.rows, ..run }, Seq::empty(), before, c.action)
}

/// What is said when the prompt stays too long.
pub open spec fn overflow_text(retries: u32, error: Seq<char>) -> Seq<char> {
    (if retries > 0 {
        "压缩后仍然超过模型的上下文上限"@
    } else {
        "上下文超过模型的上限,且已无可安全压缩的内容"@
    }) + ",provider 原文:"@ + error
        + "\n把设置里的上下文窗口(context.window_tokens)改成该模型的真实大小,或开一个新会话后重试。"@
}

/// The turn fails because the prompt stays too long.
pub open spec fn overflowed(run: RunView, error: ProviderErrorView, error_text: Seq<char>) -> Outcome {
    Outcome {
        run,
        events: ending(overflow_text(run.overflow_retries, error_text)),
        step: StepView::Failed(ForgeErrorView::Provider(error)),
    }
}

/// What is said about a compression that the model forced.
pub open spec fn rescue_text(action: CompressionAction, before: u64, after: u64) -> Seq<char> {
    "\n_⚠️ 模型报告上下文超过其上限,已强制压缩("@ + forge::label_of(action) + ":"@ + text::dec(
        before as nat,
    ) + " → "@ + text::dec(after as nat)
        + " tokens)并重试本回合。要根治请把设置里的上下文窗口改成该模型的真实大小。_\n"@
}

/// Takes the outcome of a forced compression of the outgoing rows.
pub open spec fn rescued(
    run: RunView,
    before: u64,
    action: CompressionAction,
    error: ProviderErrorView,
    error_text: Seq<char>,
) -> Outcome {
    if action == CompressionAction::Nothing {
        overflowed(run, error, error_text)
    } else {
        let after = prompt_tokens(run.outgoing, run.tool_tokens);
        Outcome {
            run: RunView {
                messages: tool_chain::validated(run.outgoing),
                compressed: true,
                overflow_retries: (run.overflow_retries + 1) as u32,
                ..run
            },
            events: seq![
                EventView::ContextCompressed {
                    before_tokens: before,
                    after_tokens: after,
                    window: run.config.window_tokens,
                },
                EventView::Token { content: rescue_text(action, before, after) },
            ],
            step: StepView::Again,
        }
    }
}

/// Takes the reply to a request for a summary after a rejection.
pub open spec fn rescue_summed_up(
    run: RunView,
    before: u64,
    error: ProviderErrorView,
    error_text: Seq<char>,
    reply: Option<Seq<char>>,
) -> Outcome {
    let c = compression::forced_finished(run.outgoing, reply);
    rescued(RunView { outgoing: c.rows, ..run }, before, c.action, error, error_text)
}

/// The number of an attempt, as it is shown.
pub open spec fn attempt_text(attempt: int, max: u32) -> Seq<char> {
    text::dec(attempt as nat) + "/"@ + text::dec(max as nat)
}

/// Takes a failure of the provider.
pub open spec fn failed(
    run: RunView,
    error: ProviderErrorView,
    error_text: Seq<char>,
    over_window: bool,
) -> Outcome {
    if over_window {
        if run.overflow_retries < 1 {
            let rows = tool_chain::validated(run.messages);
            let before = prompt_tokens(rows, run.tool_tokens);
            let p = compression::forced(rows);
            let out = RunView { outgoing: p.rows, ..run };
            match p.step {
                compression::StepView::Done(action) => rescued(
                    out,
                    before,
                    action,
                    error,
                    error_text,
                ),
                compression::StepView::Summarize(prompt, _) => Outcome {
                    run: out,
                    events: Seq::empty(),
                    step: StepView::Rescue { prompt, before_tokens: before, error, error_text },
                },
            }
        } else {
            overflowed(run, error, error_text)
        }
    } else if error_withholding::retryable(error) && run.withholder.consecutive_errors
        < run.withholder.max_attempts {
        let w = ErrorWithholder {
            consecutive_errors: (run.withholder.consecutive_errors + 1) as u32,
            ..run.withholder
        };
        Outcome {
            run: RunView { withholder: w, ..run },
            events: seq![
                EventView::Token {
                    content: "\n_Provider transient error, retrying ("@ + attempt_text(
                        w.consecutive_errors as int,
                        w.max_attempts,
                    ) + ")…_\n"@,
                },
            ],
            step: StepView::Wait(error_withholding::backoff(w)),
        }
    } else {
        Outcome {
            run: RunView {
                withholder: ErrorWithholder { consecutive_errors: 0, ..run.withholder },
                ..run
            },
            events: ending("Provider error: "@ + error_text),
            step: StepView::Failed(ForgeErrorView::Provider(error)),
        }
    }
}

/// What is said about a reply that broke off.
pub open spec fn broken_off_text(reason: Seq<char>) -> Seq<char> {
    "Response stream was interrupted ("@ + reason
        + "); the reply is incomplete and was not executed. Please retry the request."@
}

/// What is shown of a note about the reply.
pub open spec fn note_events(note: Option<Seq<char>>) -> Seq<EventView> {
    match note {
        Some(n) => seq![EventView::Token { content: "\n\n_⚠️ "@ + n + "_\n"@ }],
        None => Seq::empty(),
    }
}

/// The row of a reply with tool calls.
pub open spec fn reply_row(t: TurnView) -> MessageView {
    MessageView {
        tool_calls: Some(t.response.tool_calls),
        reasoning_content: t.response.reasoning_content,
        ..trait_def::text_message(Role::Assistant, t.response.content)
    }
}

/// Whether a reply has reasoning and nothing else.
pub open spec fn only_reasons(t: TurnView) -> bool {
    t.response.reasoning_content is Some && text::trim_of(t.response.reasoning_content->0).len() > 0
}

/// The row that asks the model to say something.
pub open spec fn empty_reply_row() -> MessageView {
    trait_def::text_message(
        Role::User,
        "(Your previous reply was empty. Continue the task: either call a tool or write a concrete answer. Do not reply with an empty message.)"@,
    )
}

/// Takes an empty reply.
pub open spec fn said_nothing(run: RunView, t: TurnView, events: Seq<EventView>) -> Outcome {
    let w = ErrorWithholder {
        consecutive_errors: error_withholding::next_count(
            run.withholder.consecutive_errors,
            run.withholder.max_attempts,
        ) as u32,
        ..run.withholder
    };
    if run.withholder.consecutive_errors < run.withholder.max_attempts {
        Outcome {
            run: RunView {
                withholder: w,
                messages: if w.consecutive_errors == 1 {
                    run.messages.push(empty_reply_row())
                } else {
                    run.messages
                },
                ..run
            },
            events: events.push(
                EventView::Token {
                    content: "\n_Empty model response"@ + (if only_reasons(t) {
                        " (reasoning only)"@
                    } else {
                        ""@
                    }) + ", retrying ("@ + attempt_text(w.consecutive_errors as int, w.max_attempts)
                        + ")…_\n"@,
                },
            ),
            step: StepView::Wait(error_withholding::backoff(w)),
        }
    } else {
        Outcome {
            run: RunView { withholder: w, ..run },
            events: events + ending(
                "Model returned an empty response (no content, no tool calls) after "@ + text::dec(
                    w.max_attempts as nat,
                ) + " retries."@,
            ),
            step: StepView::Failed(ForgeErrorView::EmptyResponse),
        }
    }
}

/// Takes a reply.
pub open spec fn replied(run: RunView, t: TurnView) -> Outcome {
    let note = forge::note_for(t.finish_reason);
    let events = note_events(note);
    let calm = RunView {
        withholder: ErrorWithholder { consecutive_errors: 0, ..run.withholder },
        ..run
    };
    if t.truncated is Some {
        let msg = broken_off_text(t.truncated->0);
        Outcome {
            run,
            events: seq![EventView::Error { content: msg }],
            step: StepView::Failed(
                ForgeErrorView::Provider(ProviderErrorView::StreamInterrupted(msg)),
            ),
        }
    } else if t.response.tool_calls.len() > 0 {
        Outcome {
            run: RunView { messages: run.messages.push(reply_row(t)), ..calm },
            events,
            step: StepView::RunTools(t.response.tool_calls, note),
        }
    } else if text::trim_of(t.response.content).len() > 0 {
        Outcome {
            run: calm,
            events: events.push(EventView::Complete { usage: t.response.usage }),
            step: StepView::Done,
        }
    } else {
        said_nothing(run, t, events)
    }
}

/// A tool row with a note about the reply that asked for it.
pub open spec fn annotated(m: MessageView, note: Option<Seq<char>>) -> MessageView {
    match note {
        Some(n) => MessageView {
            content: trait_def::ContentView::Text(
                m.content.text() + "\n\n[note: "@ + n + "]"@,
            ),
            ..m
        },
        None => m,
    }
}

/// Tool rows with a note about the reply that asked for them.
pub open spec fn all_annotated(s: Seq<MessageView>, note: Option<Seq<char>>) -> Seq<MessageView> {
    s.map_values(|m: MessageView| annotated(m, note))
}

/// Takes the results of the tools.
pub open spec fn tools_done(
    run: RunView,
    results: Seq<MessageView>,
    note: Option<Seq<char>>,
) -> Outcome {
    Outcome {
        run: RunView { messages: run.messages + all_annotated(results, note), ..run },
        events: Seq::empty(),
        step: StepView::Again,
    }
}

// ── Doing it ────────────────────────────────────────────────────────────────

pub(crate) fn count_prompt(rows: &Vec<Message>, tool_tokens: u64) -> (r: u64)
    ensures
        r == prompt_tokens(trait_def::views(rows@), tool_tokens),
{
    match conversation_tokens(rows.as_slice()) {
        Some(n) => match n.checked_add(tool_tokens) {
            Some(t) => t,
            None => u64::MAX,
        },
        None => u64::MAX,
    }
}

pub(crate) fn ending_events(error: String) -> (r: Vec<StreamEvent>)
    ensures
        stream::event_views(r@) == ending(error@),
{
    let mut events: Vec<StreamEvent> = Vec::new();
    let ghost e = error@;
    events.push(StreamEvent::Error { content: error });
    events.push(StreamEvent::Complete { usage: None });
    assert(stream::event_views(events@) =~= ending(e));
    events
}

fn attempt_label(attempt: u32, max: u32) -> (r: String)
    ensures
        r@ == attempt_text(attempt as int, max),
{
    cat3(decimal(attempt as u64).as_str(), "/", decimal(max as u64).as_str())
}

proof fn lemma_backoff_fits(w: ErrorWithholder)
    requires
        w.base_delay_ms == 1000,
        w.consecutive_errors <= 3,
    ensures
        w.base_delay_ms * vstd::arithmetic::power2::pow2(error_withholding::doublings(w))
            <= u64::MAX,
{
    vstd::arithmetic::power2::lemma2_to64();
    let d = error_withholding::doublings(w);
    assert(d == 0 || d == 1 || d == 2);
}

impl ForgeRun {
    /// A turn over the conversation `messages`, which ends with the user's
    /// message.
    pub fn new(messages: Vec<Message>, tool_tokens: u64, config: ContextConfig, max_iterations: u32) -> (r:
        Self)
        ensures
            r@ == (RunView {
                messages: trait_def::views(messages@),
                outgoing: Seq::empty(),
                tool_tokens,
                config,
                max_iterations,
                iteration: 0,
                initial_count: messages@.len() as usize,
                compressed: false,
                overflow_retries: 0,
                recent_sets: Seq::empty(),
                withholder: ErrorWithholder {
                    consecutive_errors: 0,
                    max_attempts: 3,
                    base_delay_ms: 1000,
                },
            }),
            r@.wf(),
    {
        let initial_count: usize = messages.len();
        let r = ForgeRun {
            messages,
            outgoing: Vec::new(),
            tool_tokens,
            config,
            max_iterations,
            iteration: 0,
            initial_count,
            compressed: false,
            overflow_retries: 0,
            recent_sets: Vec::new(),
            withholder: ErrorWithholder::new(),
        };
        assert(r@.outgoing =~= Seq::empty());
        assert(r@.recent_sets =~= Seq::empty());
        r
    }

    /// The rows that the model is sent.
    pub fn outgoing(&self) -> (r: &Vec<Message>)
        ensures
            trait_def::views(r@) == self@.outgoing,
    {
        &self.outgoing
    }

    /// The conversation so far.
    pub fn messages(&self) -> (r: &Vec<Message>)
        ensures
            trait_def::views(r@) == self@.messages,
    {
        &self.messages
    }

    /// The number of the current iteration.
    pub fn iteration(&self) -> (r: u32)
        ensures
            r == self@.iteration,
    {
        self.iteration
    }

    fn watch(&mut self, events: Vec<StreamEvent>) -> (r: Reaction)
        requires
            old(self)@.wf(),
        ensures
            (Outcome {
                run: final(self)@,
                events: stream::event_views(r.events@),
                step: r.step@,
            }) == watched(old(self)@, stream::event_views(events@)),
            final(self)@.wf(),
    {
        let ghost before = self@;
        let mut events = events;
        if self.iteration >= 5 {
            let total: usize = self.outgoing.len();
            let from: usize = if self.initial_count <= total {
                self.initial_count
            } else {
                total
            };
            let set = latest_fingerprints(&self.outgoing, from);
            assert(tool_loop::prints(set@) == current_set(before));
            if set.len() > 0 {
                assert(current_set(before).len() > 0);
                let names = set_names(&set);
                shift_window(&mut self.recent_sets, set);
                if window_loops(&self.recent_sets) {
                    let content = cat3(
                        "\n\n**Tool loop detected** (iteration ",
                        decimal(self.iteration as u64).as_str(),
                        "): repeated tools `",
                    ).concat(join(&names, ", ").as_str()).concat(
                        "`. Stop re-running the same tools; consolidate results and give a final answer now.\n",
                    );
                    let e = StreamEvent::Token { content };
                    proof {
                        stream::lemma_event_views_push(events@, e);
                    }
                    events.push(e);
                    let row = Message::from_text(
                        Role::User,
                        "(System: tool loop detected. Do NOT call the same tools again. Summarize what you have and finish with a concrete answer.)".to_string(),
                    );
                    proof {
                        trait_def::lemma_views_push(self.messages@, row);
                    }
                    self.messages.push(row);
                    self.recent_sets = Vec::new();
                    self.outgoing = validate_tool_chain_for_provider(
                        copy_messages(self.messages.as_slice()),
                    );
                    assert(self@.recent_sets =~= Seq::empty());
                }
            }
        }
        Reaction { events, step: ForgeStep::CallProvider }
    }

    fn settle(&mut self, events: Vec<StreamEvent>, before_tokens: u64, action: CompressionAction) -> (r:
        Reaction)
        requires
            old(self)@.wf(),
        ensures
            (Outcome {
                run: final(self)@,
                events: stream::event_views(r.events@),
                step: r.step@,
            }) == settled(old(self)@, stream::event_views(events@), before_tokens, action),
            final(self)@.wf(),
    {
        let mut events = events;
        let after_tokens: u64 = count_prompt(&self.outgoing, self.tool_tokens);
        if action != CompressionAction::Nothing || after_tokens != before_tokens {
            self.outgoing = validate_tool_chain_for_provider(
                copy_messages(self.outgoing.as_slice()),
            );
            self.messages = copy_messages(self.outgoing.as_slice());
            self.compressed = true;
            let e = StreamEvent::ContextCompressed {
                before_tokens,
                after_tokens,
                window: self.config.window_tokens,
            };
            proof {
                stream::lemma_event_views_push(events@, e);
            }
            events.push(e);
        }
        clean_orphaned_tool_calls(&mut self.messages);
        self.watch(events)
    }

    /// Starts an iteration. `cancelled` says whether the turn was cancelled;
    /// `notes` are instructions that came in meanwhile.
    pub fn begin(&mut self, cancelled: bool, notes: &Vec<String>) -> (r: Reaction)
        requires
            old(self)@.wf(),
        ensures
            (Outcome {
                run: final(self)@,
                events: stream::event_views(r.events@),
                step: r.step@,
            }) == begun(old(self)@, cancelled, text::texts(notes@)),
            final(self)@.wf(),
    {
        if self.iteration >= self.max_iterations {
            let error = cat3(
                "Agent stopped after ",
                decimal(self.max_iterations as u64).as_str(),
                " iterations without a final answer.",
            );
            return Reaction {
                events: ending_events(error),
                step: ForgeStep::Failed(ForgeError::MaxIterations(self.max_iterations)),
            };
        }
        self.iteration = self.iteration + 1;
        if cancelled {
            return Reaction {
                events: ending_events("Agent cancelled.".to_string()),
                step: ForgeStep::Failed(ForgeError::Cancelled),
            };
        }
        let mut events: Vec<StreamEvent> = Vec::new();
        let ghost texts = text::texts(notes@);
        if notes.len() > 0 {
            let joined = join(notes, "\n");
            events.push(
                StreamEvent::Token { content: cat3("\n_📩 Nudge:_ ", joined.as_str(), "\n") },
            );
            let row = Message::from_text(
                Role::User,
                cat2(
                    "(Coordinator nudge — follow this additional instruction now):\n",
                    joined.as_str(),
                ),
            );
            proof {
                trait_def::lemma_views_push(self.messages@, row);
            }
            self.messages.push(row);
        }
        assert(stream::event_views(events@) =~= nudge_events(texts));
        self.outgoing = validate_tool_chain_for_provider(copy_messages(self.messages.as_slice()));
        let before_tokens: u64 = count_prompt(&self.outgoing, self.tool_tokens);
        let mut pipeline = CompressionPipeline::new(self.config);
        pipeline.tool_tokens = self.tool_tokens;
        pipeline.cheap_only = self.compressed;
        match pipeline.apply(&mut self.outgoing) {
            CompressionStep::Done(action) => self.settle(events, before_tokens, action),
            CompressionStep::Summarize(request) => Reaction {
                events,
                step: ForgeStep::Summarize(
                    PendingSummary {
                        prompt: request.prompt,
                        before_tokens,
                        snipped: request.snipped,
                    },
                ),
            },
        }
    }

    /// Takes the model's reply to a request for a summary; `None` where the call
    /// failed.
    pub fn on_summary(&mut self, pending: PendingSummary, reply: Option<&str>) -> (r: Reaction)
        requires
            old(self)@.wf(),
        ensures
            (Outcome {
                run: final(self)@,
                events: stream::event_views(r.events@),
                step: r.step@,
            }) == summed_up(
                old(self)@,
                pending.before_tokens,
                pending.snipped,
                compression::reply_text(reply),
            ),
            final(self)@.wf(),
    {
        let mut pipeline = CompressionPipeline::new(self.config);
        let action = pipeline.finish_apply(&mut self.outgoing, pending.snipped, reply);
        let events: Vec<StreamEvent> = Vec::new();
        assert(stream::event_views(events@) =~= Seq::empty());
        self.settle(events, pending.before_tokens, action)
    }

    fn overflow(&mut self, error: ProviderError, error_text: &str) -> (r: Reaction)
        ensures
            *final(self) == *old(self),
            (Outcome {
                run: final(self)@,
                events: stream::event_views(r.events@),
                step: r.step@,
            }) == overflowed(old(self)@, error@, error_text@),
    {
        let what = if self.overflow_retries > 0 {
            "压缩后仍然超过模型的上下文上限"
        } else {
            "上下文超过模型的上限,且已无可安全压缩的内容"
        };
        let content = cat3(what, ",provider 原文:", error_text).concat(
            "\n把设置里的上下文窗口(context.window_tokens)改成该模型的真实大小,或开一个新会话后重试。",
        );
        Reaction {
            events: ending_events(content),
            step: ForgeStep::Failed(ForgeError::Provider(error)),
        }
    }

    fn rescue(
        &mut self,
        before_tokens: u64,
        action: CompressionAction,
        error: ProviderError,
        error_text: &str,
    ) -> (r: Reaction)
        requires
            old(self)@.wf(),
            old(self)@.overflow_retries < 1,
        ensures
            (Outcome {
                run: final(self)@,
                events: stream::event_views(r.events@),
                step: r.step@,
            }) == rescued(old(self)@, before_tokens, action, error@, error_text@),
            final(self)@.wf(),
    {
        if action == CompressionAction::Nothing {
            return self.overflow(error, error_text);
        }
        let after_tokens: u64 = count_prompt(&self.outgoing, self.tool_tokens);
        self.messages = validate_tool_chain_for_provider(copy_messages(self.outgoing.as_slice()));
        self.compressed = true;
        self.overflow_retries = self.overflow_retries + 1;
        let content = cat3(
            "\n_⚠️ 模型报告上下文超过其上限,已强制压缩(",
            action_label(&action),
            ":",
        ).concat(decimal(before_tokens).as_str()).concat(" → ").concat(
            decimal(after_tokens).as_str(),
        ).concat(
            " tokens)并重试本回合。要根治请把设置里的上下文窗口改成该模型的真实大小。_\n",
        );
        let mut events: Vec<StreamEvent> = Vec::new();
        events.push(
            StreamEvent::ContextCompressed {
                before_tokens,
                after_tokens,
                window: self.config.window_tokens,
            },
        );
        events.push(StreamEvent::Token { content });
        assert(stream::event_views(events@) =~= seq![
            EventView::ContextCompressed {
                before_tokens,
                after_tokens,
                window: self.config.window_tokens,
            },
            EventView::Token { content: content@ },
        ]);
        Reaction { events, step: ForgeStep::Again }
    }

    /// Takes a failure of the provider. `over_window` says whether the provider
    /// rejected the prompt as too long, `error_text` how the failure reads.
    pub fn on_failure(&mut self, error: ProviderError, error_text: &str, over_window: bool) -> (r:
        Reaction)
        requires
            old(self)@.wf(),
        ensures
            (Outcome {
                run: final(self)@,
                events: stream::event_views(r.events@),
                step: r.step@,
            }) == failed(old(self)@, error@, error_text@, over_window),
            final(self)@.wf(),
    {
        if over_window {
            if self.overflow_retries >= 1 {
                return self.overflow(error, error_text);
            }
            self.outgoing = validate_tool_chain_for_provider(
                copy_messages(self.messages.as_slice()),
            );
            let before_tokens: u64 = count_prompt(&self.outgoing, self.tool_tokens);
            let mut pipeline = CompressionPipeline::new(self.config);
            return match pipeline.force_apply(&mut self.outgoing) {
                CompressionStep::Done(action) => self.rescue(
                    before_tokens,
                    action,
                    error,
                    error_text,
                ),
                CompressionStep::Summarize(request) => {
                    let events: Vec<StreamEvent> = Vec::new();
                    assert(stream::event_views(events@) =~= Seq::empty());
                    Reaction {
                        events,
                        step: ForgeStep::Rescue(
                            PendingRescue {
                                prompt: request.prompt,
                                before_tokens,
                                error,
                                error_text: error_text.to_string(),
                            },
                        ),
                    }
                },
            };
        }
        match self.withholder.tolerate(error) {
            Ok(()) => {
                let content = cat3(
                    "\n_Provider transient error, retrying (",
                    attempt_label(
                        self.withholder.attempts_used(),
                        self.withholder.max_attempts,
                    ).as_str(),
                    ")…_\n",
                );
                let mut events: Vec<StreamEvent> = Vec::new();
                events.push(StreamEvent::Token { content });
                assert(stream::event_views(events@) =~= seq![
                    EventView::Token { content: content@ },
                ]);
                proof {
                    lemma_backoff_fits(self.withholder);
                }
                Reaction { events, step: ForgeStep::Wait(self.withholder.current_backoff()) }
            },
            Err(e) => Reaction {
                events: ending_events(cat2("Provider error: ", error_text)),
                step: ForgeStep::Failed(ForgeError::Provider(e)),
            },
        }
    }

    /// Takes the model's reply to a request for a summary after a rejection;
    /// `None` where the call failed.
    pub fn on_rescue(&mut self, pending: PendingRescue, reply: Option<&str>) -> (r: Reaction)
        requires
            old(self)@.wf(),
            old(self)@.overflow_retries < 1,
        ensures
            (Outcome {
                run: final(self)@,
                events: stream::event_views(r.events@),
                step: r.step@,
            }) == rescue_summed_up(
                old(self)@,
                pending.before_tokens,
                pending.error@,
                pending.error_text@,
                compression::reply_text(reply),
            ),
            final(self)@.wf(),
    {
        let mut pipeline = CompressionPipeline::new(self.config);
        let action = pipeline.finish_force(&mut self.outgoing, reply);
        self.rescue(pending.before_tokens, action, pending.error, pending.error_text.as_str())
    }

    fn empty_reply(&mut self, turn: &StreamedTurn, events: Vec<StreamEvent>) -> (r: Reaction)
        requires
            old(self)@.wf(),
        ensures
            (Outcome {
                run: final(self)@,
                events: stream::event_views(r.events@),
                step: r.step@,
            }) == said_nothing(old(self)@, turn@, stream::event_views(events@)),
            final(self)@.wf(),
    {
        let mut events = events;
        let reasons = match &turn.response.reasoning_content {
            Some(t) => !trimmed(t.as_str()).as_str().is_empty(),
            None => false,
        };
        let max: u32 = self.withholder.max_attempts;
        match self.withholder.tolerate_empty() {
            Ok(attempt) => {
                let content = cat3(
                    "\n_Empty model response",
                    if reasons {
                        " (reasoning only)"
                    } else {
                        ""
                    },
                    ", retrying (",
                ).concat(attempt_label(attempt, max).as_str()).concat(")…_\n");
                let e = StreamEvent::Token { content };
                proof {
                    stream::lemma_event_views_push(events@, e);
                }
                events.push(e);
                if attempt == 1 {
                    let row = Message::from_text(
                        Role::User,
                        "(Your previous reply was empty. Continue the task: either call a tool or write a concrete answer. Do not reply with an empty message.)".to_string(),
                    );
                    proof {
                        trait_def::lemma_views_push(self.messages@, row);
                    }
                    self.messages.push(row);
                }
                proof {
                    lemma_backoff_fits(self.withholder);
                }
                Reaction { events, step: ForgeStep::Wait(self.withholder.current_backoff()) }
            },
            Err(()) => {
                let error = cat3(
                    "Model returned an empty response (no content, no tool calls) after ",
                    decimal(max as u64).as_str(),
                    " retries.",
                );
                let ghost first = stream::event_views(events@);
                let mut last = ending_events(error);
                let ghost second = stream::event_views(last@);
                events.append(&mut last);
                assert(stream::event_views(events@) =~= first + second);
                Reaction { events, step: ForgeStep::Failed(ForgeError::EmptyResponse) }
            },
        }
    }

    /// Takes a reply of the model.
    pub fn on_turn(&mut self, turn: StreamedTurn) -> (r: Reaction)
        requires
            old(self)@.wf(),
        ensures
            (Outcome {
                run: final(self)@,
                events: stream::event_views(r.events@),
                step: r.step@,
            }) == replied(old(self)@, turn@),
            final(self)@.wf(),
    {
        if let Some(reason) = &turn.truncated {
            let msg = cat3(
                "Response stream was interrupted (",
                reason.as_str(),
                "); the reply is incomplete and was not executed. Please retry the request.",
            );
            let mut events: Vec<StreamEvent> = Vec::new();
            events.push(StreamEvent::Error { content: msg.clone() });
            assert(stream::event_views(events@) =~= seq![EventView::Error { content: msg@ }]);
            return Reaction {
                events,
                step: ForgeStep::Failed(
                    ForgeError::Provider(ProviderError::StreamInterrupted(msg)),
                ),
            };
        }
        let reason = match &turn.finish_reason {
            Some(s) => Some(s.as_str()),
            None => None,
        };
        let note = finish_reason_note(reason);
        let mut events: Vec<StreamEvent> = Vec::new();
        if let Some(n) = note {
            events.push(StreamEvent::Token { content: cat3("\n\n_⚠️ ", n, "_\n") });
        }
        assert(stream::event_views(events@) =~= note_events(forge::opt_str(note)));
        if turn.response.tool_calls.len() > 0 {
            self.withholder.reset();
            let calls = trait_def::copy_calls(&turn.response.tool_calls);
            let row = Message {
                role: Role::Assistant,
                content: MessageContent::Text(turn.response.content),
                name: None,
                tool_calls: Some(turn.response.tool_calls),
                tool_call_id: None,
                reasoning_content: turn.response.reasoning_content,
                created_at: 0,
            };
            proof {
                trait_def::lemma_views_push(self.messages@, row);
            }
            self.messages.push(row);
            return Reaction { events, step: ForgeStep::RunTools(calls, note) };
        }
        if !trimmed(turn.response.content.as_str()).as_str().is_empty() {
            self.withholder.reset();
            let e = StreamEvent::Complete { usage: turn.response.usage };
            proof {
                stream::lemma_event_views_push(events@, e);
            }
            events.push(e);
            return Reaction { events, step: ForgeStep::Done };
        }
        self.empty_reply(&turn, events)
    }

    /// Takes the results of the tools, in the order of the calls, with the note
    /// about the reply that asked for them.
    pub fn on_tools(&mut self, results: Vec<Message>, note: Option<&str>) -> (r: Reaction)
        requires
            old(self)@.wf(),
        ensures
            (Outcome {
                run: final(self)@,
                events: stream::event_views(r.events@),
                step: r.step@,
            }) == (Outcome {
                run: RunView {
                    messages: old(self)@.messages + all_annotated(
                        trait_def::views(results@),
                        forge::opt_str(note),
                    ),
                    ..old(self)@
                },
                events: Seq::empty(),
                step: StepView::Again,
            }),
            (Outcome {
                run: final(self)@,
                events: stream::event_views(r.events@),
                step: r.step@,
            }) == tools_done(old(self)@, trait_def::views(results@), forge::opt_str(note)),
            final(self)@.wf(),
    {
        let ghost start = self@;
        let ghost all = results@;
        let ghost n = forge::opt_str(note);
        let ghost t = all_annotated(trait_def::views(all), n);
        let mut rows: Vec<Message> = Vec::new();
        std::mem::swap(&mut rows, &mut self.messages);
        assert(trait_def::views(rows@) =~= start.messages + t.take(0));
        for m in it: results
            invariant
                it.seq() == all,
                n == forge::opt_str(note),
                t == all_annotated(trait_def::views(all), n),
                trait_def::views(rows@) == start.messages + t.take(it.index() as int),
        {
            let ghost mv = m@;
            let mut m = m;
            if let Some(x) = note {
                let text = cat3(m.content.text_or_empty(), "\n\n[note: ", x).concat("]");
                m.content = MessageContent::Text(text);
            }
            proof {
                assert(m@ == annotated(mv, n));
                trait_def::lemma_views_push(rows@, m);
                assert(t.take(it.index() + 1) =~= t.take(it.index() as int).push(
                    t[it.index() as int],
                ));
            }
            rows.push(m);
            assert(trait_def::views(rows@) =~= start.messages + t.take(it.index() + 1));
        }
        assert(t.take(t.len() as int) =~= t);
        self.messages = rows;
        let events: Vec<StreamEvent> = Vec::new();
        assert(stream::event_views(events@) =~= Seq::empty());
        Reaction { events, step: ForgeStep::Again }
    }

    /// The turn was cancelled while its tools were running.
    pub fn on_tools_cancelled(&self) -> (r: Reaction)
        ensures
            stream::event_views(r.events@) == ending("Agent cancelled."@),
            r.step@ == StepView::Failed(ForgeErrorView::Cancelled),
    {
        Reaction {
            events: ending_events("Agent cancelled.".to_string()),
            step: ForgeStep::Failed(ForgeError::Cancelled),
        }
    }
}

// ── Laws ────────────────────────────────────────────────────────────────────

/// Whether a step ends the turn.
pub open spec fn ends_turn(step: StepView) -> bool {
    step is Done || step is Failed
}

/// Whether the events of an outcome report the end of the turn as they should:
/// one `Complete`, and that the last event, where the turn ends; none where it
/// goes on.
pub open spec fn reports_end(o: Outcome) -> bool {
    if ends_turn(o.step) {
        stream::completions(o.events) == 1 && o.events.last() is Complete
    } else {
        stream::completions(o.events) == 0
    }
}

proof fn lemma_completions_small(a: EventView, b: EventView)
    ensures
        stream::completions(Seq::<EventView>::empty()) == 0,
        stream::completions(seq![a]) == (if a is Complete {
            1nat
        } else {
            0
        }),
        stream::completions(seq![a, b]) == (if a is Complete {
            1nat
        } else {
            0
        }) + (if b is Complete {
            1nat
        } else {
            0nat
        }),
{
    let e = Seq::<EventView>::empty();
    stream::lemma_completions_push(e, a);
    assert(seq![a] =~= e.push(a));
    stream::lemma_completions_push(seq![a], b);
    assert(seq![a, b] =~= seq![a].push(b));
}

proof fn lemma_completions_ending(events: Seq<EventView>, error: Seq<char>)
    requires
        stream::completions(events) == 0,
    ensures
        stream::completions(ending(error)) == 1,
        stream::completions(events + ending(error)) == 1,
{
    let a = EventView::Error { content: error };
    let b = EventView::Complete { usage: None };
    lemma_completions_small(a, b);
    stream::lemma_completions_push(events, a);
    stream::lemma_completions_push(events.push(a), b);
    assert(events + ending(error) =~= events.push(a).push(b));
}

proof fn lemma_settled_reports(
    run: RunView,
    events: Seq<EventView>,
    before: u64,
    action: CompressionAction,
)
    requires
        stream::completions(events) == 0,
    ensures
        reports_end(settled(run, events, before, action)),
{
    let o = settled(run, events, before, action);
    let after = prompt_tokens(run.outgoing, run.tool_tokens);
    let e = EventView::ContextCompressed {
        before_tokens: before,
        after_tokens: after,
        window: run.config.window_tokens,
    };
    stream::lemma_completions_push(events, e);
    if o.events.len() > 0 {
        stream::lemma_completions_push(o.events.drop_last(), o.events.last());
        assert(o.events.drop_last().push(o.events.last()) =~= o.events);
        assert(o.events.drop_last() =~= events || o.events.drop_last() =~= events.push(e)
            || o.events =~= events);
    }
}

proof fn lemma_rescued_reports(
    run: RunView,
    before: u64,
    action: CompressionAction,
    error: ProviderErrorView,
    error_text: Seq<char>,
)
    ensures
        reports_end(rescued(run, before, action, error, error_text)),
{
    let o = rescued(run, before, action, error, error_text);
    lemma_completions_small(o.events[0], o.events[1]);
    lemma_completions_ending(Seq::empty(), overflow_text(run.overflow_retries, error_text));
}

/// An iteration reports the end of the turn exactly where it ends: one
/// `Complete`, as the last event.
pub proof fn law_begin_reports_end(run: RunView, cancelled: bool, notes: Seq<Seq<char>>)
    ensures
        reports_end(begun(run, cancelled, notes)),
{
    let none = Seq::<EventView>::empty();
    lemma_completions_ending(none, "Agent cancelled."@);
    lemma_completions_ending(none, stopped_text(run.max_iterations));
    let events = nudge_events(notes);
    lemma_completions_small(events[0], events[0]);
    let next = RunView { iteration: (run.iteration + 1) as u32, ..run };
    let told = nudged(next, notes);
    let rows = tool_chain::validated(told.messages);
    let p = compression::pass(rows, run.config, run.compressed, run.tool_tokens);
    if let compression::StepView::Done(action) = p.step {
        lemma_settled_reports(
            RunView { outgoing: p.rows, ..told },
            events,
            prompt_tokens(rows, run.tool_tokens),
            action,
        );
    }
}

/// A summary does not end the turn, and reports no end.
pub proof fn law_summary_reports_end(
    run: RunView,
    before: u64,
    snipped: Option<CompressionAction>,
    reply: Option<Seq<char>>,
)
    ensures
        reports_end(summed_up(run, before, snipped, reply)),
{
    let c = compression::finished(run.outgoing, snipped, reply);
    lemma_settled_reports(
        RunView { outgoing: c.rows, ..run },
        Seq::<EventView>::empty(),
        before,
        c.action,
    );
}

/// A failure of the provider reports the end of the turn exactly where it ends
/// it: one `Complete`, as the last event.
pub proof fn law_failure_reports_end(
    run: RunView,
    error: ProviderErrorView,
    error_text: Seq<char>,
    over_window: bool,
)
    ensures
        reports_end(failed(run, error, error_text, over_window)),
{
    let none = Seq::<EventView>::empty();
    let o = failed(run, error, error_text, over_window);
    lemma_completions_ending(none, "Provider error: "@ + error_text);
    lemma_completions_ending(none, overflow_text(run.overflow_retries, error_text));
    lemma_completions_small(o.events[0], o.events[0]);
    let view = tool_chain::validated(run.messages);
    let f = compression::forced(view);
    if let compression::StepView::Done(action) = f.step {
        lemma_rescued_reports(
            RunView { outgoing: f.rows, ..run },
            prompt_tokens(view, run.tool_tokens),
            action,
            error,
            error_text,
        );
    }
}

/// A prompt that is too long is compressed and sent again at most once in a
/// turn: a rescue is counted, and after one the next rejection ends the turn.
pub proof fn law_overflow_is_rescued_once(
    run: RunView,
    before: u64,
    action: CompressionAction,
    error: ProviderErrorView,
    error_text: Seq<char>,
)
    requires
        run.wf(),
    ensures
        rescued(run, before, action, error, error_text).step is Again ==> rescued(
            run,
            before,
            action,
            error,
            error_text,
        ).run.overflow_retries == run.overflow_retries + 1,
        run.overflow_retries >= 1 ==> failed(run, error, error_text, true) == overflowed(
            run,
            error,
            error_text,
        ),
{
}

/// A rescue by summary reports the end of the turn exactly where it fails.
pub proof fn law_rescue_reports_end(
    run: RunView,
    before: u64,
    error: ProviderErrorView,
    error_text: Seq<char>,
    reply: Option<Seq<char>>,
)
    ensures
        reports_end(rescue_summed_up(run, before, error, error_text, reply)),
{
    let d = compression::forced_finished(run.outgoing, reply);
    lemma_rescued_reports(
        RunView { outgoing: d.rows, ..run },
        before,
        d.action,
        error,
        error_text,
    );
}

/// A reply reports the end of the turn exactly where it ends it: one `Complete`,
/// as the last event. The one exception is a reply that broke off: it ends the
/// turn with an `Error` and no `Complete`.
pub proof fn law_reply_reports_end(run: RunView, turn: TurnView)
    ensures
        turn.truncated is None ==> reports_end(replied(run, turn)),
        turn.truncated is Some ==> {
            &&& ends_turn(replied(run, turn).step)
            &&& stream::completions(replied(run, turn).events) == 0
            &&& replied(run, turn).events.last() is Error
        },
{
    let noted = note_events(forge::note_for(turn.finish_reason));
    lemma_completions_small(noted[0], noted[0]);
    if turn.truncated is Some {
        let e = replied(run, turn).events[0];
        lemma_completions_small(e, e);
    } else {
        stream::lemma_completions_push(noted, EventView::Complete { usage: turn.response.usage });
        let o = said_nothing(run, turn, noted);
        if run.withholder.consecutive_errors < run.withholder.max_attempts {
            stream::lemma_completions_push(noted, o.events.last());
            assert(o.events =~= noted.push(o.events.last()));
        } else {
            lemma_completions_ending(
                noted,
                "Model returned an empty response (no content, no tool calls) after "@
                    + text::dec(run.withholder.max_attempts as nat) + " retries."@,
            );
        }
    }
}

/// A turn that is cancelled while its tools run reports its end.
pub proof fn law_cancelled_tools_report_end()
    ensures
        stream::completions(ending("Agent cancelled."@)) == 1,
        ending("Agent cancelled."@).last() is Complete,
{
    lemma_completions_small(EventView::Complete { usage: None }, EventView::Complete { usage: None });
    lemma_completions_ending(Seq::<EventView>::empty(), "Agent cancelled."@);
}

/// Whether rows have intact tool chains.
#[verifier::opaque]
pub open spec fn intact(s: Seq<MessageView>) -> bool {
    &&& tool_chain::every_answer_is_asked_for(s)
    &&& tool_chain::every_call_is_answered(s)
    &&& tool_chain::call_lists_are_sound(s)
    &&& tool_chain::no_row_is_hollow(s)
}

proof fn lemma_validated_intact(s: Seq<MessageView>)
    ensures
        intact(tool_chain::validated(s)),
{
    reveal(intact);
    tool_chain::law_chain_intact(s);
}

proof fn lemma_watched_intact(run: RunView, events: Seq<EventView>)
    requires
        intact(run.outgoing),
    ensures
        intact(watched(run, events).run.outgoing),
{
    lemma_validated_intact(run.messages.push(loop_row()));
}

proof fn lemma_settled_intact(
    run: RunView,
    events: Seq<EventView>,
    before: u64,
    action: CompressionAction,
)
    requires
        action == CompressionAction::Nothing ==> intact(run.outgoing),
    ensures
        intact(settled(run, events, before, action).run.outgoing),
{
    let after = prompt_tokens(run.outgoing, run.tool_tokens);
    let rows = tool_chain::validated(run.outgoing);
    lemma_validated_intact(run.outgoing);
    if action != CompressionAction::Nothing || after != before {
        let next = RunView {
            outgoing: rows,
            messages: tool_chain::cleaned(rows),
            compressed: true,
            ..run
        };
        lemma_watched_intact(
            next,
            events.push(
                EventView::ContextCompressed {
                    before_tokens: before,
                    after_tokens: after,
                    window: run.config.window_tokens,
                },
            ),
        );
    } else {
        lemma_watched_intact(
            RunView { messages: tool_chain::cleaned(run.messages), ..run },
            events,
        );
    }
}

/// Whatever the model is sent has intact tool chains, whether or not the
/// conversation was compressed or a tool loop was found.
pub proof fn law_provider_sees_intact_chains(
    run: RunView,
    cancelled: bool,
    notes: Seq<Seq<char>>,
    reply: Option<Seq<char>>,
)
    ensures
        begun(run, cancelled, notes).step is CallProvider ==> intact(
            begun(run, cancelled, notes).run.outgoing,
        ),
        begun(run, cancelled, notes).step matches StepView::Summarize {
            prompt,
            before_tokens,
            snipped,
        } ==> intact(
            summed_up(begun(run, cancelled, notes).run, before_tokens, snipped, reply).run.outgoing,
        ),
{
    let next = RunView { iteration: (run.iteration + 1) as u32, ..run };
    let told = nudged(next, notes);
    let rows = tool_chain::validated(told.messages);
    let p = compression::pass(rows, run.config, run.compressed, run.tool_tokens);
    let out = RunView { outgoing: p.rows, ..told };
    lemma_validated_intact(told.messages);
    compression::law_nothing_means_unchanged(rows, run.config, run.compressed, run.tool_tokens);
    if run.iteration < run.max_iterations && !cancelled {
        match p.step {
            compression::StepView::Done(action) => {
                lemma_settled_intact(
                    out,
                    nudge_events(notes),
                    prompt_tokens(rows, run.tool_tokens),
                    action,
                );
            },
            compression::StepView::Summarize(prompt, snipped) => {
                let c = compression::finished(p.rows, snipped, reply);
                compression::law_finished_nothing(p.rows, snipped, reply);
                lemma_settled_intact(
                    RunView { outgoing: c.rows, ..out },
                    Seq::empty(),
                    prompt_tokens(rows, run.tool_tokens),
                    c.action,
                );
            },
        }
    }
}

/// Whether an outcome sends no `Complete`.
pub open spec fn stays_open(events: Seq<EventView>) -> bool {
    forall|i: int| 0 <= i < events.len() ==> !(#[trigger] events[i] is Complete)
}

/// A reply that did not break off and asks for tools has exactly these run,
/// whatever else it says: the turn goes on, no end is reported, and the
/// conversation grows by one row, which holds what the reply held.
pub proof fn law_calls_are_run(run: RunView, turn: TurnView)
    requires
        turn.truncated is None,
        turn.response.tool_calls.len() > 0,
    ensures
        ({
            let o = replied(run, turn);
            let row = o.run.messages.last();
            &&& o.step matches StepView::RunTools(calls, note)
            &&& calls == turn.response.tool_calls
            &&& note is Some <==> o.events.len() == 1
            &&& note is None <==> o.events.len() == 0
            &&& turn.finish_reason is None ==> note is None
            &&& stays_open(o.events)
            &&& o.run.messages.len() == run.messages.len() + 1
            &&& forall|i: int|
                0 <= i < run.messages.len() ==> #[trigger] o.run.messages[i] == run.messages[i]
            &&& row.role == Role::Assistant
            &&& row.content == trait_def::ContentView::Text(turn.response.content)
            &&& row.reasoning_content == turn.response.reasoning_content
            &&& row.tool_calls == Some(turn.response.tool_calls)
            &&& row.tool_call_id is None
            &&& o.run.iteration == run.iteration
            &&& o.run.withholder.consecutive_errors == 0
        }),
{
}

/// A turn is done exactly where a reply that did not break off asks for no tools
/// and says something, be it one character that is no whitespace. The end is
/// reported with the usage of that reply, and the conversation stays as it was.
pub proof fn law_answer_ends_the_turn(run: RunView, turn: TurnView)
    ensures
        ({
            let o = replied(run, turn);
            let says_something = exists|i: int|
                0 <= i < turn.response.content.len() && !text::is_ws(
                    #[trigger] turn.response.content[i],
                );
            &&& o.step is Done <==> turn.truncated is None && turn.response.tool_calls.len() == 0
                && says_something
            &&& o.step is Done ==> {
                &&& o.events.last() == (EventView::Complete { usage: turn.response.usage })
                &&& stays_open(o.events.drop_last())
                &&& o.run.messages == run.messages
                &&& o.run.withholder.consecutive_errors == 0
            }
        }),
{
    text::law_blank_is_trimmed_away(turn.response.content);
}

/// Nothing of a reply that broke off is carried out or kept: the turn fails with
/// the reason for it, and stays as it was.
pub proof fn law_broken_reply_is_not_carried_out(run: RunView, turn: TurnView)
    requires
        turn.truncated is Some,
    ensures
        ({
            let o = replied(run, turn);
            &&& o.run == run
            &&& o.step matches StepView::Failed(
                ForgeErrorView::Provider(ProviderErrorView::StreamInterrupted(said)),
            )
            &&& text::has_part(said, turn.truncated->0)
            &&& o.events == seq![EventView::Error { content: said }]
        }),
{
    let r = turn.truncated->0;
    let a = "Response stream was interrupted ("@;
    let b = "); the reply is incomplete and was not executed. Please retry the request."@;
    text::lemma_part_at(a, r, b);
}

/// A reply that neither asks for tools nor says anything is asked for again up to
/// three times in a row, and ends the turn as empty after that. Nothing that was
/// said before is lost, and the model is told so once.
pub proof fn law_empty_reply_is_tried_again(run: RunView, turn: TurnView)
    requires
        run.wf(),
        turn.truncated is None,
        turn.response.tool_calls.len() == 0,
        text::is_blank(turn.response.content),
    ensures
        ({
            let o = replied(run, turn);
            let errors = run.withholder.consecutive_errors;
            &&& errors < 3 ==> o.step is Wait && o.run.withholder.consecutive_errors == errors + 1
            &&& errors == 3 ==> o.step == StepView::Failed(ForgeErrorView::EmptyResponse)
            &&& o.run.messages.len() == run.messages.len() + (if errors == 0 {
                1int
            } else {
                0
            })
            &&& forall|i: int|
                0 <= i < run.messages.len() ==> #[trigger] o.run.messages[i] == run.messages[i]
            &&& errors == 0 ==> o.run.messages.last().role == Role::User
        }),
{
    text::law_blank_is_trimmed_away(turn.response.content);
}

/// Every result of the tools is kept in its place, for the call that it answers: a
/// note about the reply stands behind what the tool gave, and without a note the
/// results stay as they are.
pub proof fn law_results_are_kept(results: Seq<MessageView>, note: Option<Seq<char>>)
    ensures
        all_annotated(results, note).len() == results.len(),
        note is None ==> all_annotated(results, note) == results,
        forall|i: int|
            0 <= i < results.len() ==> {
                let row = #[trigger] all_annotated(results, note)[i];
                &&& row.role == results[i].role
                &&& row.name == results[i].name
                &&& row.tool_calls == results[i].tool_calls
                &&& row.tool_call_id == results[i].tool_call_id
                &&& row.reasoning_content == results[i].reasoning_content
                &&& text::starts(row.content.text(), results[i].content.text())
                &&& note matches Some(n) ==> text::has_part(
                    row.content.text().skip(results[i].content.text().len() as int),
                    n,
                )
            },
{
    if note is None {
        assert(all_annotated(results, note) =~= results);
    }
    assert forall|i: int| 0 <= i < results.len() implies {
        let row = #[trigger] all_annotated(results, note)[i];
        &&& text::starts(row.content.text(), results[i].content.text())
        &&& note matches Some(n) ==> text::has_part(
            row.content.text().skip(results[i].content.text().len() as int),
            n,
        )
    } by {
        let was = results[i].content.text();
        let now = all_annotated(results, note)[i].content.text();
        assert(now.subrange(0, was.len() as int) =~= was);
        if let Some(n) = note {
            let a = "\n\n[note: "@;
            let behind = now.skip(was.len() as int);
            text::lemma_part_at(a, n, "]"@);
            assert(behind =~= a + n + "]"@);
        }
    }
}

/// An iteration is begun exactly as long as the turns are not used up and nobody
/// cancelled; each one is counted, and then the model is turned to, for a summary
/// or for the reply.
pub proof fn law_turns_are_counted(run: RunView, cancelled: bool, notes: Seq<Seq<char>>)
    requires
        run.wf(),
    ensures
        ({
            let o = begun(run, cancelled, notes);
            let spent = run.iteration >= run.max_iterations;
            &&& spent ==> o.run == run && o.step == StepView::Failed(
                ForgeErrorView::MaxIterations(run.max_iterations),
            )
            &&& !spent ==> o.run.iteration == run.iteration + 1
            &&& !spent && cancelled ==> o.run.messages == run.messages && o.step
                == StepView::Failed(ForgeErrorView::Cancelled)
            &&& !spent && !cancelled ==> o.step is CallProvider || o.step is Summarize
        }),
{
}

/// A failure that may pass is tried again up to three times in a row, and any other
/// ends the turn with that failure; the conversation stays as it was.
pub proof fn law_failure_is_tried_again(
    run: RunView,
    error: ProviderErrorView,
    error_text: Seq<char>,
)
    requires
        run.wf(),
    ensures
        ({
            let o = failed(run, error, error_text, false);
            let errors = run.withholder.consecutive_errors;
            let again = error_withholding::retryable(error) && errors < 3;
            &&& again ==> o.step is Wait && o.run.withholder.consecutive_errors == errors + 1
            &&& !again ==> o.step == StepView::Failed(ForgeErrorView::Provider(error))
                && o.run.withholder.consecutive_errors == 0
            &&& o.run.messages == run.messages
            &&& o.run.outgoing == run.outgoing
            &&& o.run.iteration == run.iteration
        }),
{
}

/// What a coordinator says reaches the model: every note stands in one new user row
/// behind the conversation, in the order in which they came.
pub proof fn law_notes_reach_the_model(run: RunView, notes: Seq<Seq<char>>, i: int)
    requires
        0 <= i < notes.len(),
    ensures
        ({
            let told = nudged(run, notes);
            &&& told.messages.len() == run.messages.len() + 1
            &&& told.messages.drop_last() == run.messages
            &&& told.messages.last().role == Role::User
            &&& text::has_part(told.messages.last().content.text(), notes[i])
        }),
{
    let told = nudged(run, notes);
    assert(told.messages.drop_last() =~= run.messages);
    let a = "(Coordinator nudge — follow this additional instruction now):\n"@;
    let j = text::joined(notes, "\n"@);
    text::lemma_joined_has(notes, "\n"@, i);
    text::lemma_part_of_part(a, j, Seq::empty(), notes[i]);
    assert(a + j + Seq::empty() =~= a + j);
}

/// Looking for a loop never ends the turn and loses nothing: the conversation stays as it is,
/// or, from the fifth iteration on and where the same calls were made three times among the
/// last five, grows by one row that says so.
pub proof fn law_loop_is_told(run: RunView, events: Seq<EventView>)
    ensures
        ({
            let o = watched(run, events);
            let told = o.run.messages.len() > run.messages.len();
            let window = tool_loop::shifted(run.recent_sets, current_set(run));
            &&& o.step == StepView::CallProvider
            &&& o.run.iteration == run.iteration
            &&& told ==> o.run.messages.drop_last() == run.messages && o.run.messages.last().role
                == Role::User && o.events.len() == events.len() + 1 && o.run.recent_sets.len() == 0
            &&& !told ==> o.run.messages == run.messages && o.run.outgoing == run.outgoing
                && o.events == events
            &&& told <==> run.iteration >= 5 && current_set(run).len() > 0 && exists|
                i: int,
                j: int,
                k: int,
            |
                0 <= i < j < k < window.len() && #[trigger] window[i] == #[trigger] window[j]
                    && window[j] == #[trigger] window[k]
        }),
{
    let o = watched(run, events);
    tool_loop::law_three_times_is_a_loop(
        tool_loop::shifted(run.recent_sets, current_set(run)),
    );
    if o.run.messages.len() > run.messages.len() {
        assert(o.run.messages.drop_last() =~= run.messages);
    }
}

/// A conversation that is intact and takes no more than a tenth of the window reaches the
/// model as it is, with what a coordinator says behind it.
pub proof fn law_small_conversation_is_sent_whole(run: RunView, notes: Seq<Seq<char>>)
    requires
        run.wf(),
        run.iteration < run.max_iterations,
        run.iteration < 4,
        tool_chain::is_intact(nudged(run, notes).messages),
        run.config.window_tokens == 0 || (context::message_tokens(nudged(run, notes).messages)
            + run.tool_tokens) * 10 <= run.config.window_tokens,
    ensures
        begun(run, false, notes).step == StepView::CallProvider,
        begun(run, false, notes).run.outgoing == nudged(run, notes).messages,
        begun(run, false, notes).run.messages == nudged(run, notes).messages,
{
    let next = RunView { iteration: (run.iteration + 1) as u32, ..run };
    let told = nudged(next, notes);
    assert(told.messages == nudged(run, notes).messages);
    tool_chain::law_intact_history_is_unchanged(told.messages);
    tool_chain::law_intact_history_is_clean(told.messages);
    compression::law_small_prompt_is_left_alone(
        told.messages,
        run.config,
        run.compressed,
        run.tool_tokens,
    );
}

/// After a compression that did something, what is sent is what was compressed to, and the
/// conversation goes on from there; it is reported with the tokens before and after.
pub proof fn law_compressed_conversation_goes_on(
    run: RunView,
    events: Seq<EventView>,
    before: u64,
    action: CompressionAction,
)
    requires
        run.iteration < 5,
        action != CompressionAction::Nothing,
    ensures
        ({
            let o = settled(run, events, before, action);
            &&& o.run.outgoing == tool_chain::validated(run.outgoing)
            &&& o.run.messages == tool_chain::cleaned(tool_chain::validated(run.outgoing))
            &&& o.run.compressed
            &&& o.step == StepView::CallProvider
            &&& o.events.len() == events.len() + 1
            &&& o.events.last() matches EventView::ContextCompressed { before_tokens, .. }
                && before_tokens == before
        }),
{
}

/// A round of tools goes into the conversation as it went: behind what was there, the reply
/// that asked for the tools, and behind it what each tool gave, in the order of the calls and
/// for the calls; and then the model is asked again.
pub proof fn law_tool_round_is_recorded(run: RunView, turn: TurnView, results: Seq<MessageView>)
    requires
        turn.truncated is None,
        turn.finish_reason is None,
        turn.response.tool_calls.len() > 0,
        results.len() == turn.response.tool_calls.len(),
        forall|i: int|
            0 <= i < results.len() ==> (#[trigger] results[i]).role == Role::Tool
                && results[i].tool_call_id == Some(turn.response.tool_calls[i].id),
    ensures
        ({
            let asked = replied(run, turn);
            let n = run.messages.len() as int;
            asked.step matches StepView::RunTools(calls, note) && {
                let o = tools_done(asked.run, results, note);
                &&& o.step == StepView::Again
                &&& o.events.len() == 0
                &&& o.run.messages.len() == n + 1 + results.len()
                &&& o.run.messages.take(n) == run.messages
                &&& o.run.messages[n].role == Role::Assistant
                &&& o.run.messages[n].tool_calls == Some(turn.response.tool_calls)
                &&& forall|i: int|
                    0 <= i < results.len() ==> #[trigger] o.run.messages[n + 1 + i] == results[i]
            }
        }),
{
    law_calls_are_run(run, turn);
    law_results_are_kept(results, None);
    let asked = replied(run, turn);
    let n = run.messages.len() as int;
    let note = asked.step->RunTools_1;
    assert(note is None);
    let o = tools_done(asked.run, results, note);
    assert(o.run.messages =~= asked.run.messages + results);
    assert(o.run.messages.take(n) =~= run.messages);
}

/// A prompt that the model rejects as too long is compressed, the first time, from what may be
/// sent of the conversation; where that did something the conversation goes on from there, and
/// where it did not the turn fails with the rejection.
pub proof fn law_rejected_prompt_is_compressed(
    run: RunView,
    error: ProviderErrorView,
    error_text: Seq<char>,
)
    requires
        run.wf(),
        run.overflow_retries == 0,
    ensures
        ({
            let o = failed(run, error, error_text, true);
            let p = compression::forced(tool_chain::validated(run.messages));
            &&& o.run.outgoing == p.rows
            &&& p.step matches compression::StepView::Summarize(asked, _) ==> (
            o.step matches StepView::Rescue { prompt, .. } && prompt == asked && o.run.messages
                == run.messages)
            &&& p.step matches compression::StepView::Done(action) ==> {
                &&& action != CompressionAction::Nothing ==> o.step == StepView::Again
                    && o.run.messages == tool_chain::validated(p.rows) && o.run.compressed
                    && o.run.overflow_retries == 1
                &&& action == CompressionAction::Nothing ==> o.step == StepView::Failed(
                    ForgeErrorView::Provider(error),
                ) && o.run.messages == run.messages
            }
        }),
{
}

} // verus!
