//! Executing a task with tools.
//!
//! [`ExecutionRun`] holds the conversation of the executing model. Each of its
//! methods takes what has just happened and says which events to send and what to
//! do next; the caller asks the model, runs the tools and waits. Running out of
//! steps is a failure, never a result.

use crate::agent::stream;
use crate::agent::stream::{EventView, StreamEvent, ToolStatus};
use crate::agent::tool_chain;
use crate::agent::tool_chain::validate_tool_chain_for_provider;
use crate::json;
use crate::json::json_error;
use crate::magi::scheduler::{MagiError, MagiErrorView};
use crate::providers::trait_def;
use crate::providers::trait_def::{
    copy_calls, ChatResponse, ChatResponseView, Message, MessageContent, MessageView, Role,
    ToolCall, ToolCallView,
};
use crate::text;
use crate::text::{cat2, cat3, decimal, same, str_starts_with, take_chars};
use vstd::prelude::*;
use vstd::string::*;

verus! {

/// How many characters of a tool's result the model is sent.
pub const MAX_TOOL_RESULT_CHARS: usize = 24_000;

/// How many seconds a call of the model may take.
pub const CHAT_TIMEOUT_SECS: u64 = 120;

/// How many seconds a tool may take.
pub const TOOL_TIMEOUT_SECS: u64 = 90;

/// What the executing model is told.
pub const BALTHASAR_SYSTEM_PROMPT: &'static str = r#"You are Balthasar, the execution brain of the MAGI system.
Your job is to implement code changes based on:

1. The PRD (Product Requirements Document)
2. Casper's scrutiny report with specific focus areas

Use the available tools to read, write, edit, and execute code.
Focus on the areas highlighted by Casper's review.
Produce clean, well-tested, working code.

Be efficient: prefer concrete file edits over long analysis. Do not re-scan the whole monorepo.

After completing your work, provide a summary of:
- What you changed or created
- What files were modified
- What still needs attention (if anything)"#;

// ── The prompt ──────────────────────────────────────────────────────────────

/// What the executing model is asked.
pub open spec fn execution_text(prd: Seq<char>, scrutiny: Seq<char>) -> Seq<char> {
    "## PRD (Product Requirements Document)\n\n"@ + prd + "\n\n## Casper's Scrutiny Report\n\n"@
        + scrutiny
        + "\n\n## Your Task\n\nImplement the changes highlighted in Casper's review. Use the available tools to read files, write code, run tests, and execute commands. Focus on the gaps and action items identified above.\n\nWhen you are finished, provide a clear summary of what you accomplished."@
}

/// Builds what the executing model is asked.
pub fn build_execution_prompt(prd: &str, scrutiny: &str) -> (r: String)
    ensures
        r@ == execution_text(prd@, scrutiny@),
{
    cat3(
        "## PRD (Product Requirements Document)\n\n",
        prd,
        "\n\n## Casper's Scrutiny Report\n\n",
    ).concat(scrutiny).concat(
        "\n\n## Your Task\n\nImplement the changes highlighted in Casper's review. Use the available tools to read files, write code, run tests, and execute commands. Focus on the gaps and action items identified above.\n\nWhen you are finished, provide a clear summary of what you accomplished.",
    )
}

// ── Tools ───────────────────────────────────────────────────────────────────

/// Tools that are known to change nothing.
pub open spec fn only_reads(name: Seq<char>) -> bool {
    ||| name == "do_file_read"@
    ||| name == "do_web_fetch"@
    ||| name == "do_web_search"@
    ||| name == "do_deep_search"@
    ||| name == "do_rss_read"@
    ||| name == "do_skill_list"@
    ||| name == "do_task_status"@
}

/// Whether a tool may write. A tool that is not known to only read counts as one
/// that writes.
pub fn is_write_tool(name: &str) -> (b: bool)
    ensures
        b == !only_reads(name@),
{
    !(same(name, "do_file_read") || same(name, "do_web_fetch") || same(name, "do_web_search")
        || same(name, "do_deep_search") || same(name, "do_rss_read") || same(name, "do_skill_list")
        || same(name, "do_task_status"))
}

/// How a tool came back.
#[derive(Debug)]
pub enum ToolReply {
    /// It ran to its end.
    Finished { success: bool, output: String, error: Option<String> },
    /// It could not be run.
    Failed(String),
    /// It panicked.
    Panicked,
    /// It did not come back in time.
    TimedOut,
}

/// A tool's result, cut where it is too long for the model.
pub open spec fn capped(raw: Seq<char>) -> Seq<char> {
    if raw.len() > MAX_TOOL_RESULT_CHARS {
        raw.take(MAX_TOOL_RESULT_CHARS - 60) + "\n…[truncated]…"@
    } else {
        raw
    }
}

/// What the model is told of a tool that came back.
pub open spec fn reply_text(name: Seq<char>, reply: ToolReply) -> Seq<char> {
    match reply {
        ToolReply::Finished { success, output, error } => capped(
            match error {
                Some(e) => if success {
                    output@
                } else {
                    e@
                },
                None => output@,
            },
        ),
        ToolReply::Failed(e) => e@,
        ToolReply::Panicked => "Tool '"@ + name + "' panicked while executing"@,
        ToolReply::TimedOut => "Tool '"@ + name + "' timed out after 90s"@,
    }
}

/// What the model is told of arguments that are no JSON.
pub open spec fn bad_arguments_text(name: Seq<char>, error: Seq<char>) -> Seq<char> {
    "Failed to parse arguments for tool '"@ + name + "': "@ + error
}

fn cap(raw: &str) -> (r: String)
    ensures
        r@ == capped(raw@),
{
    let n: usize = raw.unicode_len();
    if n > MAX_TOOL_RESULT_CHARS {
        let head = take_chars(raw, MAX_TOOL_RESULT_CHARS - 60);
        cat2(head.as_str(), "\n…[truncated]…")
    } else {
        raw.to_string()
    }
}

/// What the model is told of a tool that came back.
pub fn tool_reply_text(name: &str, reply: &ToolReply) -> (r: String)
    ensures
        r@ == reply_text(name@, *reply),
{
    match reply {
        ToolReply::Finished { success, output, error } => match error {
            Some(e) => if *success {
                cap(output.as_str())
            } else {
                cap(e.as_str())
            },
            None => cap(output.as_str()),
        },
        ToolReply::Failed(e) => e.clone(),
        ToolReply::Panicked => cat3("Tool '", name, "' panicked while executing"),
        ToolReply::TimedOut => cat3("Tool '", name, "' timed out after 90s"),
    }
}

/// What the model is told of arguments in which `error` was found; nothing where
/// none was.
pub fn refuse_arguments(name: &str, error: &Option<String>) -> (r: Option<String>)
    ensures
        match error {
            Some(e) => r matches Some(t) && t@ == bad_arguments_text(name@, e@),
            None => r is None,
        },
{
    match error {
        Some(e) => Some(
            cat3("Failed to parse arguments for tool '", name, "': ").concat(e.as_str()),
        ),
        None => None,
    }
}

/// What the model is told where the arguments of a call are no JSON; nothing
/// where they are, and the tool can be run.
pub fn check_call(tc: &ToolCall) -> (r: Option<String>)
    ensures
        match json::json_error_of(tc@.arguments) {
            Some(e) => r matches Some(t) && t@ == bad_arguments_text(tc@.name, e),
            None => r is None,
        },
{
    let error = json_error(tc.function.arguments.as_str());
    refuse_arguments(tc.function.name.as_str(), &error)
}

// ── A run ───────────────────────────────────────────────────────────────────

/// What to do next.
#[derive(Debug)]
pub enum ExecutionStep {
    /// Send the rows to the model, then go on with `on_reply` or `on_timeout`.
    CallProvider,
    /// Run the tools, report each with `on_tool`, then go on with `begin`.
    RunTools(Vec<ToolCall>),
    /// Wait the milliseconds, then go on with `begin`.
    Wait(u64),
    /// The model has answered.
    Done(String),
    /// The run has failed.
    Failed(MagiError),
}

/// A step as a value.
#[verifier::ext_equal]
pub enum ExecutionStepView {
    CallProvider,
    RunTools(Seq<ToolCallView>),
    Wait(int),
    Done(Seq<char>),
    Failed(MagiErrorView),
}

impl View for ExecutionStep {
    type V = ExecutionStepView;

    open spec fn view(&self) -> ExecutionStepView {
        match self {
            ExecutionStep::CallProvider => ExecutionStepView::CallProvider,
            ExecutionStep::RunTools(calls) => ExecutionStepView::RunTools(
                trait_def::call_views(calls@),
            ),
            ExecutionStep::Wait(ms) => ExecutionStepView::Wait(*ms as int),
            ExecutionStep::Done(s) => ExecutionStepView::Done(s@),
            ExecutionStep::Failed(e) => ExecutionStepView::Failed(e@),
        }
    }
}

/// The events to send, and what to do next.
#[derive(Debug)]
pub struct ExecutionReaction {
    pub events: Vec<StreamEvent>,
    pub step: ExecutionStep,
}

/// A run of the executing model on one task.
#[derive(Debug)]
pub struct ExecutionRun {
    messages: Vec<Message>,
    output: String,
    empty_responses: u32,
    step: u32,
    max_steps: u32,
    agent_id: String,
}

/// A run as a value.
#[verifier::ext_equal]
pub struct ExecutionView {
    pub messages: Seq<MessageView>,
    /// What the model has written so far.
    pub output: Seq<char>,
    /// How many replies were empty.
    pub empty_responses: u32,
    pub step: u32,
    pub max_steps: u32,
    /// The agent that the events are shown under.
    pub agent_id: Seq<char>,
}

impl ExecutionView {
    /// What holds of every run.
    pub open spec fn wf(self) -> bool {
        &&& self.empty_responses <= self.step <= self.max_steps
        &&& self.max_steps >= 1
    }

    /// Whether the model has been called in the present step.
    pub open spec fn called(self) -> bool {
        self.wf() && self.empty_responses < self.step
    }
}

impl View for ExecutionRun {
    type V = ExecutionView;

    closed spec fn view(&self) -> ExecutionView {
        ExecutionView {
            messages: trait_def::views(self.messages@),
            output: self.output@,
            empty_responses: self.empty_responses,
            step: self.step,
            max_steps: self.max_steps,
            agent_id: self.agent_id@,
        }
    }
}

/// The run, the events and the step after something happened.
#[verifier::ext_equal]
pub struct ExecutionOutcome {
    pub run: ExecutionView,
    pub events: Seq<EventView>,
    pub step: ExecutionStepView,
}

/// The events of a sign of life.
pub open spec fn heartbeat_events(agent_id: Seq<char>, line: Seq<char>) -> Seq<EventView> {
    seq![
        EventView::TeamAgentOutput { agent_id, content: line + "\n"@ },
        EventView::Token { content: "_"@ + line + "_\n"@ },
    ]
}

/// Why a run that used up its steps has failed.
pub open spec fn budget_text(output: Seq<char>, max: u32) -> Seq<char> {
    if output.len() == 0 {
        "no output within the step budget ("@ + text::dec(max as nat) + " steps)"@
    } else {
        "no final answer within the step budget ("@ + text::dec(max as nat)
            + " steps); partial output: "@ + text::first_chars(output, 300)
    }
}

/// Begins a step.
pub open spec fn started(run: ExecutionView, cancelled: bool) -> ExecutionOutcome {
    if run.step >= run.max_steps {
        ExecutionOutcome {
            run,
            events: heartbeat_events(
                run.agent_id,
                "Auto hit step budget ("@ + text::dec(run.max_steps as nat) + ")"@,
            ),
            step: ExecutionStepView::Failed(
                MagiErrorView::Parse(budget_text(run.output, run.max_steps)),
            ),
        }
    } else if cancelled {
        ExecutionOutcome {
            run,
            events: Seq::empty(),
            step: ExecutionStepView::Failed(MagiErrorView::Cancelled),
        }
    } else {
        let next = ExecutionView {
            step: (run.step + 1) as u32,
            messages: tool_chain::validated(run.messages),
            ..run
        };
        ExecutionOutcome {
            run: next,
            events: heartbeat_events(
                run.agent_id,
                "Auto step "@ + text::dec(next.step as nat) + "/"@ + text::dec(
                    run.max_steps as nat,
                ) + " — thinking…"@,
            ),
            step: ExecutionStepView::CallProvider,
        }
    }
}

/// What the model is told after an empty reply.
pub open spec fn empty_nudge() -> Seq<char> {
    "(Your previous reply was empty. Either call a tool to make progress, or write a concrete summary of the work. Do not reply with an empty message.)"@
}

/// What the model has written with one more reply.
pub open spec fn with_output(output: Seq<char>, content: Seq<char>) -> Seq<char> {
    if content.len() == 0 {
        output
    } else if output.len() == 0 {
        content
    } else {
        output + "\n"@ + content
    }
}

/// The row of a reply.
pub open spec fn reply_row(reply: ChatResponseView) -> MessageView {
    MessageView {
        tool_calls: if reply.tool_calls.len() > 0 {
            Some(reply.tool_calls)
        } else {
            None
        },
        reasoning_content: reply.reasoning_content,
        ..trait_def::text_message(Role::Assistant, reply.content)
    }
}

/// Takes a reply of the model.
pub open spec fn answered(run: ExecutionView, reply: ChatResponseView) -> ExecutionOutcome {
    let shown: Seq<EventView> = if reply.content.len() > 0 {
        seq![
            EventView::TeamAgentOutput {
                agent_id: run.agent_id,
                content: text::first_chars(reply.content, 200) + "\n"@,
            },
        ]
    } else {
        Seq::empty()
    };
    let next = ExecutionView {
        output: with_output(run.output, reply.content),
        messages: run.messages.push(reply_row(reply)),
        ..run
    };
    if reply.tool_calls.len() > 0 {
        ExecutionOutcome {
            run: next,
            events: shown,
            step: ExecutionStepView::RunTools(reply.tool_calls),
        }
    } else if reply.content.len() > 0 {
        ExecutionOutcome {
            run: next,
            events: shown + heartbeat_events(
                run.agent_id,
                "Auto finished at step "@ + text::dec(run.step as nat),
            ),
            step: ExecutionStepView::Done(next.output),
        }
    } else {
        let empty = (run.empty_responses + 1) as u32;
        ExecutionOutcome {
            run: ExecutionView {
                empty_responses: empty,
                messages: next.messages.push(trait_def::text_message(Role::User, empty_nudge())),
                ..next
            },
            events: heartbeat_events(
                run.agent_id,
                "Auto step "@ + text::dec(run.step as nat) + ": empty response — retrying"@,
            ),
            step: ExecutionStepView::Wait(
                500 * (if empty < 4 {
                    empty as int
                } else {
                    4
                }),
            ),
        }
    }
}

/// The model did not answer in time.
pub open spec fn unanswered(run: ExecutionView) -> ExecutionOutcome {
    ExecutionOutcome {
        run,
        events: heartbeat_events(
            run.agent_id,
            "Auto step "@ + text::dec(run.step as nat) + ": LLM call timed out after 120s"@,
        ),
        step: ExecutionStepView::Failed(
            MagiErrorView::Parse(
                "Auto LLM call timed out after 120s (step "@ + text::dec(run.step as nat) + ")"@,
            ),
        ),
    }
}

/// The events of a tool that is started.
pub open spec fn tool_start_events(agent_id: Seq<char>, tc: ToolCallView) -> Seq<EventView> {
    heartbeat_events(agent_id, "tool `"@ + tc.name + "`…"@).push(
        EventView::ToolStart {
            id: tc.id,
            name: tc.name,
            description: "auto / "@ + tc.name,
            arguments: tc.arguments,
        },
    )
}

/// Whether the text of a result says that the tool failed.
pub open spec fn says_failed(result: Seq<char>) -> bool {
    ||| text::starts(result, "Failed"@)
    ||| text::starts(result, "Tool error"@)
    ||| text::starts(result, "error:"@)
}

/// The events of a tool that has come back.
pub open spec fn tool_end_events(
    agent_id: Seq<char>,
    tc: ToolCallView,
    result: Seq<char>,
) -> Seq<EventView> {
    let preview = text::first_chars(result, 300);
    seq![
        EventView::ToolEnd {
            id: tc.id,
            status: if says_failed(result) {
                ToolStatus::Error
            } else {
                ToolStatus::Success
            },
            result: preview,
        },
        EventView::TeamAgentOutput {
            agent_id,
            content: "`"@ + tc.name + "` → "@ + preview + "\n"@,
        },
    ]
}

/// The events of a sign of life.
pub fn heartbeat(agent_id: &str, line: &str) -> (r: Vec<StreamEvent>)
    ensures
        stream::event_views(r@) == heartbeat_events(agent_id@, line@),
{
    let mut r: Vec<StreamEvent> = Vec::new();
    r.push(
        StreamEvent::TeamAgentOutput { agent_id: agent_id.to_string(), content: cat2(line, "\n") },
    );
    r.push(StreamEvent::Token { content: cat3("_", line, "_\n") });
    assert(stream::event_views(r@) =~= heartbeat_events(agent_id@, line@));
    r
}

/// Whether a tool's result says that it failed.
pub fn result_says_failed(result: &str) -> (b: bool)
    ensures
        b == says_failed(result@),
{
    str_starts_with(result, "Failed") || str_starts_with(result, "Tool error") || str_starts_with(
        result,
        "error:",
    )
}

/// Begins a run on a task. A budget of no steps counts as one step.
pub fn execute_subtask(
    working_dir: &str,
    prd: &str,
    scrutiny: &str,
    max_steps: u32,
    agent_id: &str,
) -> (r: ExecutionRun)
    ensures
        r@ == (ExecutionView {
            messages: seq![
                trait_def::text_message(
                    Role::System,
                    BALTHASAR_SYSTEM_PROMPT@ + "\n\nCurrent working directory: "@
                        + working_dir@,
                ),
                trait_def::text_message(Role::User, execution_text(prd@, scrutiny@)),
            ],
            output: Seq::empty(),
            empty_responses: 0,
            step: 0,
            max_steps: if max_steps == 0 {
                1
            } else {
                max_steps
            },
            agent_id: agent_id@,
        }),
        r@.wf(),
{
    let mut messages: Vec<Message> = Vec::new();
    messages.push(
        Message::from_text(
            Role::System,
            cat3(BALTHASAR_SYSTEM_PROMPT, "\n\nCurrent working directory: ", working_dir),
        ),
    );
    messages.push(Message::from_text(Role::User, build_execution_prompt(prd, scrutiny)));
    assert(trait_def::views(messages@) =~= seq![
        trait_def::text_message(
            Role::System,
            BALTHASAR_SYSTEM_PROMPT@ + "\n\nCurrent working directory: "@ + working_dir@,
        ),
        trait_def::text_message(Role::User, execution_text(prd@, scrutiny@)),
    ]);
    ExecutionRun {
        messages,
        output: String::new(),
        empty_responses: 0,
        step: 0,
        max_steps: if max_steps == 0 {
            1
        } else {
            max_steps
        },
        agent_id: agent_id.to_string(),
    }
}

impl ExecutionRun {
    /// The rows to send to the model.
    pub fn messages(&self) -> (r: &Vec<Message>)
        ensures
            trait_def::views(r@) == self@.messages,
    {
        &self.messages
    }

    /// Begins a step.
    pub fn begin(&mut self, cancelled: bool) -> (r: ExecutionReaction)
        requires
            old(self)@.wf(),
        ensures
            (ExecutionOutcome {
                run: final(self)@,
                events: stream::event_views(r.events@),
                step: r.step@,
            }) == started(old(self)@, cancelled),
            final(self)@.wf(),
            r.step is CallProvider ==> final(self)@.called(),
    {
        if self.step >= self.max_steps {
            let max = decimal(self.max_steps as u64);
            let line = cat3("Auto hit step budget (", max.as_str(), ")");
            let why = if self.output.as_str().is_empty() {
                cat3("no output within the step budget (", max.as_str(), " steps)")
            } else {
                cat3(
                    "no final answer within the step budget (",
                    max.as_str(),
                    " steps); partial output: ",
                ).concat(take_chars(self.output.as_str(), 300).as_str())
            };
            return ExecutionReaction {
                events: heartbeat(self.agent_id.as_str(), line.as_str()),
                step: ExecutionStep::Failed(MagiError::Parse(why)),
            };
        }
        if cancelled {
            let events: Vec<StreamEvent> = Vec::new();
            assert(stream::event_views(events@) =~= Seq::empty());
            return ExecutionReaction { events, step: ExecutionStep::Failed(MagiError::Cancelled) };
        }
        self.step = self.step + 1;
        let mut rows: Vec<Message> = Vec::new();
        std::mem::swap(&mut rows, &mut self.messages);
        self.messages = validate_tool_chain_for_provider(rows);
        let line = cat3(
            "Auto step ",
            decimal(self.step as u64).as_str(),
            "/",
        ).concat(decimal(self.max_steps as u64).as_str()).concat(" — thinking…");
        ExecutionReaction {
            events: heartbeat(self.agent_id.as_str(), line.as_str()),
            step: ExecutionStep::CallProvider,
        }
    }

    /// The model did not answer in time.
    pub fn on_timeout(&self) -> (r: ExecutionReaction)
        ensures
            (ExecutionOutcome {
                run: self@,
                events: stream::event_views(r.events@),
                step: r.step@,
            }) == unanswered(self@),
    {
        let step = decimal(self.step as u64);
        let line = cat3("Auto step ", step.as_str(), ": LLM call timed out after 120s");
        ExecutionReaction {
            events: heartbeat(self.agent_id.as_str(), line.as_str()),
            step: ExecutionStep::Failed(
                MagiError::Parse(
                    cat3("Auto LLM call timed out after 120s (step ", step.as_str(), ")"),
                ),
            ),
        }
    }

    /// Takes a reply of the model.
    pub fn on_reply(&mut self, reply: ChatResponse) -> (r: ExecutionReaction)
        requires
            old(self)@.called(),
        ensures
            (ExecutionOutcome {
                run: final(self)@,
                events: stream::event_views(r.events@),
                step: r.step@,
            }) == answered(old(self)@, reply@),
            final(self)@.wf(),
    {
        let ghost run = self@;
        let said = !reply.content.as_str().is_empty();
        let asks = reply.tool_calls.len() > 0;
        let mut events: Vec<StreamEvent> = Vec::new();
        if said {
            if !self.output.as_str().is_empty() {
                self.output.append("\n");
            }
            self.output.append(reply.content.as_str());
            assert(self.output@ =~= with_output(run.output, reply.content@));
            let shown = cat2(take_chars(reply.content.as_str(), 200).as_str(), "\n");
            events.push(
                StreamEvent::TeamAgentOutput { agent_id: self.agent_id.clone(), content: shown },
            );
        }
        let ghost shown = stream::event_views(events@);
        let calls = copy_calls(&reply.tool_calls);
        let row = Message {
            role: Role::Assistant,
            content: MessageContent::Text(reply.content),
            name: None,
            tool_calls: if asks {
                Some(reply.tool_calls)
            } else {
                None
            },
            tool_call_id: None,
            reasoning_content: reply.reasoning_content,
            created_at: 0,
        };
        proof {
            assert(row@ =~= reply_row(reply@));
            trait_def::lemma_views_push(self.messages@, row);
            assert(said ==> shown =~= seq![
                EventView::TeamAgentOutput {
                    agent_id: run.agent_id,
                    content: text::first_chars(reply.content@, 200) + "\n"@,
                },
            ]);
            assert(!said ==> shown =~= Seq::empty());
        }
        self.messages.push(row);
        if asks {
            return ExecutionReaction { events, step: ExecutionStep::RunTools(calls) };
        }
        if said {
            let line = cat2("Auto finished at step ", decimal(self.step as u64).as_str());
            let mut beat = heartbeat(self.agent_id.as_str(), line.as_str());
            let ghost b = beat@;
            events.append(&mut beat);
            assert(stream::event_views(events@) =~= shown + stream::event_views(b));
            return ExecutionReaction { events, step: ExecutionStep::Done(self.output.clone()) };
        }
        self.empty_responses = self.empty_responses + 1;
        let nudge = Message::from_text(
            Role::User,
            "(Your previous reply was empty. Either call a tool to make progress, or write a concrete summary of the work. Do not reply with an empty message.)".to_string(),
        );
        proof {
            trait_def::lemma_views_push(self.messages@, nudge);
        }
        self.messages.push(nudge);
        let line = cat3(
            "Auto step ",
            decimal(self.step as u64).as_str(),
            ": empty response — retrying",
        );
        let times: u64 = if self.empty_responses < 4 {
            self.empty_responses as u64
        } else {
            4
        };
        ExecutionReaction {
            events: heartbeat(self.agent_id.as_str(), line.as_str()),
            step: ExecutionStep::Wait(500 * times),
        }
    }

    /// The events of a tool that is started.
    pub fn tool_started(&self, tc: &ToolCall) -> (r: Vec<StreamEvent>)
        ensures
            stream::event_views(r@) == tool_start_events(self@.agent_id, tc@),
    {
        let name = tc.function.name.as_str();
        let mut r = heartbeat(self.agent_id.as_str(), cat3("tool `", name, "`…").as_str());
        let e = StreamEvent::ToolStart {
            id: tc.id.clone(),
            name: tc.function.name.clone(),
            description: cat2("auto / ", name),
            arguments: tc.function.arguments.clone(),
        };
        proof {
            stream::lemma_event_views_push(r@, e);
        }
        r.push(e);
        r
    }

    /// Records the result of a tool.
    pub fn on_tool(&mut self, tc: &ToolCall, result: String) -> (r: Vec<StreamEvent>)
        ensures
            stream::event_views(r@) == tool_end_events(old(self)@.agent_id, tc@, result@),
            final(self)@ == (ExecutionView {
                messages: old(self)@.messages.push(trait_def::tool_message(tc@.id, result@)),
                ..old(self)@
            }),
            final(self)@ == tool_done(old(self)@, tc@, result@),
    {
        let preview = take_chars(result.as_str(), 300);
        let status = if result_says_failed(result.as_str()) {
            ToolStatus::Error
        } else {
            ToolStatus::Success
        };
        let content = cat3("`", tc.function.name.as_str(), "` → ").concat(
            preview.as_str(),
        ).concat("\n");
        let mut r: Vec<StreamEvent> = Vec::new();
        r.push(StreamEvent::ToolEnd { id: tc.id.clone(), status, result: preview });
        r.push(StreamEvent::TeamAgentOutput { agent_id: self.agent_id.clone(), content });
        let row = Message::tool_answer(tc.id.clone(), result);
        proof {
            trait_def::lemma_views_push(self.messages@, row);
            assert(stream::event_views(r@) =~= tool_end_events(self@.agent_id, tc@, result@));
        }
        self.messages.push(row);
        r
    }
}

// ── Laws ────────────────────────────────────────────────────────────────────

/// A run that is done has written something: no run is done without an answer,
/// and none that used up its steps is done at all.
pub proof fn law_done_is_answered(run: ExecutionView, reply: ChatResponseView, cancelled: bool)
    ensures
        answered(run, reply).step matches ExecutionStepView::Done(s) ==> s.len() > 0,
        started(run, cancelled).step !is Done,
        run.step >= run.max_steps ==> started(run, cancelled).step is Failed,
{
}

/// A run calls the model at most as often as it has steps: each call takes one.
pub proof fn law_steps_are_bounded(run: ExecutionView, cancelled: bool)
    requires
        run.wf(),
    ensures
        started(run, cancelled).run.wf(),
        started(run, cancelled).step is CallProvider ==> started(run, cancelled).run.step == run.step
            + 1 <= run.max_steps,
{
}

/// Whatever the model is sent has intact tool chains.
pub proof fn law_executor_sees_intact_chains(run: ExecutionView, cancelled: bool)
    ensures
        started(run, cancelled).step is CallProvider ==> {
            let rows = started(run, cancelled).run.messages;
            &&& tool_chain::every_answer_is_asked_for(rows)
            &&& tool_chain::every_call_is_answered(rows)
            &&& tool_chain::call_lists_are_sound(rows)
            &&& tool_chain::no_row_is_hollow(rows)
        },
{
    tool_chain::law_chain_intact(run.messages);
}

/// The executing model is told the task and the review, each whole and directly behind
/// its heading.
pub proof fn law_executor_sees_the_review(prd: Seq<char>, scrutiny: Seq<char>)
    ensures
        text::starts(
            execution_text(prd, scrutiny),
            "## PRD (Product Requirements Document)\n\n"@ + prd,
        ),
        exists|i: int|
            ("## PRD (Product Requirements Document)\n\n"@ + prd).len() <= i && #[trigger] text::at(
                execution_text(prd, scrutiny),
                "## Casper's Scrutiny Report\n\n"@ + scrutiny,
                i,
            ),
{
    let t = execution_text(prd, scrutiny);
    let none = Seq::<char>::empty();
    let nl = "\n\n"@;
    let a = "## PRD (Product Requirements Document)\n\n"@ + prd;
    let b = "## Casper's Scrutiny Report\n\n"@ + scrutiny;
    let z = "\n\n## Your Task\n\nImplement the changes highlighted in Casper's review. Use the available tools to read files, write code, run tests, and execute commands. Focus on the gaps and action items identified above.\n\nWhen you are finished, provide a clear summary of what you accomplished."@;
    assert("\n\n## Casper's Scrutiny Report\n\n"@ =~= nl + "## Casper's Scrutiny Report\n\n"@) by {
        reveal_strlit("\n\n");
        reveal_strlit("\n\n## Casper's Scrutiny Report\n\n");
        reveal_strlit("## Casper's Scrutiny Report\n\n");
    }
    assert(t =~= a + nl + b + z);
    text::lemma_part_at(none, a, nl + b + z);
    assert(t =~= none + a + (nl + b + z));
    text::lemma_part_at(a + nl, b, z);
}

/// A reply that asks for tools has exactly these run, whatever else it says; one that
/// asks for none and says something ends the execution with all that was said. What the
/// model said is kept: the conversation grows by a row that holds it, and the output by
/// its text.
pub proof fn law_reply_is_carried_out(run: ExecutionView, reply: ChatResponseView)
    requires
        run.called(),
    ensures
        ({
            let o = answered(run, reply);
            let row = o.run.messages[run.messages.len() as int];
            &&& reply.tool_calls.len() > 0 <==> o.step is RunTools
            &&& o.step matches ExecutionStepView::RunTools(calls) ==> calls == reply.tool_calls
            &&& reply.tool_calls.len() == 0 && reply.content.len() > 0 <==> o.step is Done
            &&& o.step matches ExecutionStepView::Done(output) ==> output == o.run.output
            &&& reply.tool_calls.len() == 0 && reply.content.len() == 0 <==> o.step is Wait
            &&& o.step is Wait ==> o.run.empty_responses == run.empty_responses + 1
                && o.run.messages.len() == run.messages.len() + 2 && o.run.messages.last().role
                == Role::User
            &&& !(o.step is Wait) ==> o.run.messages.len() == run.messages.len() + 1
            &&& forall|i: int|
                0 <= i < run.messages.len() ==> #[trigger] o.run.messages[i] == run.messages[i]
            &&& row.role == Role::Assistant
            &&& row.content == trait_def::ContentView::Text(reply.content)
            &&& row.reasoning_content == reply.reasoning_content
            &&& reply.tool_calls.len() > 0 ==> row.tool_calls == Some(reply.tool_calls)
            &&& text::starts(o.run.output, run.output)
            &&& text::ends(o.run.output, reply.content)
            &&& o.run.step == run.step
        }),
{
    let none = Seq::<char>::empty();
    let a = run.output;
    let c = reply.content;
    let o = answered(run, reply).run.output;
    let m = if a.len() > 0 && c.len() > 0 {
        "\n"@
    } else {
        none
    };
    assert(o =~= a + m + c);
    text::lemma_part_at(none, a, m + c);
    assert(none + a + (m + c) =~= o);
    text::lemma_part_at(a + m, c, none);
    assert(a + m + c + none =~= o);
}

/// What a tool gave reaches the model: its output where it succeeded, its error where it
/// failed with one, and either way at most as much as a result may hold. What is short
/// enough is left as it is.
pub proof fn law_tool_result_reaches_the_model(
    name: Seq<char>,
    success: bool,
    output: String,
    error: Option<String>,
)
    ensures
        ({
            let told = reply_text(name, ToolReply::Finished { success, output, error });
            let said = if !success && error is Some {
                (error->0)@
            } else {
                output@
            };
            &&& said.len() <= MAX_TOOL_RESULT_CHARS ==> told == said
            &&& said.len() > MAX_TOOL_RESULT_CHARS ==> text::starts(
                told,
                said.take(MAX_TOOL_RESULT_CHARS - 60),
            )
            &&& told.len() <= MAX_TOOL_RESULT_CHARS
        }),
{
    let said = if !success && error is Some {
        (error->0)@
    } else {
        output@
    };
    reveal_strlit("\n…[truncated]…");
    if said.len() > MAX_TOOL_RESULT_CHARS {
        let none = Seq::<char>::empty();
        let a = said.take(MAX_TOOL_RESULT_CHARS - 60);
        text::lemma_part_at(none, a, "\n…[truncated]…"@);
        assert(none + a + "\n…[truncated]…"@ =~= capped(said));
    }
}

/// Takes the result of a tool.
pub open spec fn tool_done(run: ExecutionView, tc: ToolCallView, result: Seq<char>) -> ExecutionView {
    ExecutionView { messages: run.messages.push(trait_def::tool_message(tc.id, result)), ..run }
}

/// The result of a tool goes into the conversation whole, as the answer to its call, behind
/// what was there; and its end is shown as that of the call.
pub proof fn law_tool_result_is_recorded(run: ExecutionView, tc: ToolCallView, result: Seq<char>)
    ensures
        ({
            let now = tool_done(run, tc, result);
            &&& now.messages.len() == run.messages.len() + 1
            &&& now.messages.drop_last() == run.messages
            &&& now.messages.last().role == Role::Tool
            &&& now.messages.last().tool_call_id == Some(tc.id)
            &&& now.messages.last().content == trait_def::ContentView::Text(result)
            &&& now.output == run.output
            &&& now.step == run.step
            &&& tool_end_events(run.agent_id, tc, result)[0] matches EventView::ToolEnd { id, .. }
                && id == tc.id
        }),
{
    let now = tool_done(run, tc, result);
    assert(now.messages.drop_last() =~= run.messages);
}

/// The wait after an empty reply grows with each, by half a second and up to two seconds.
pub proof fn law_wait_after_empty_reply_grows(run: ExecutionView, reply: ChatResponseView)
    requires
        run.called(),
        reply.tool_calls.len() == 0,
        reply.content.len() == 0,
    ensures
        answered(run, reply).step matches ExecutionStepView::Wait(ms) && {
            &&& run.empty_responses < 4 ==> ms == 500 * (run.empty_responses + 1)
            &&& run.empty_responses >= 4 ==> ms == 2000
        },
{
}

} // verus!
