//! The agent loop.
//!
//! A turn starts with the user's input: [`route_input`] says what it asks for.
//! A chat goes through [`ForgeRun`](super::forge_run::ForgeRun), which decides
//! each step; the caller talks to the provider, runs the tools and sends the
//! events.

use crate::agent::compression::CompressionAction;
use crate::agent::stream::{StreamEvent, ToolStatus};
use crate::agent::stream;
use crate::json;
use crate::json::json_error;
use crate::providers::trait_def;
use crate::providers::trait_def::{
    Message, MessageView, ProviderError, Role, ToolCall, ToolCallView,
};
use crate::text;
use crate::text::{
    ascii_lowercase, cat3, chars_of, decimal, drop_leading, is_whitespace, same,
    same_ignoring_case, stands_at, str_starts_with, take_chars, text_of, trim, trimmed,
};
use std::collections::hash_map::DefaultHasher;
use std::hash::Hasher;
use vstd::prelude::*;
use vstd::std_specs::hash::DefaultHasherAdditionalSpecFns;
use vstd::string::*;

pub use crate::agent::forge_turn::Forge;

verus! {

/// The default system prompt injected at the start of every conversation.
pub const DEFAULT_SYSTEM_PROMPT: &'static str = r#"You are a coding agent with tools: shell, files, background tasks, web fetch/search, skills, and optional MCP tools.

Background vs foreground shell:
- do_bash — short commands that must finish before you continue (ls, git, tests, builds that exit).
- do_background — long-running processes that must NOT block: vite, npm run dev, next dev, cargo watch, docker compose up, servers.
  Returns a task_id immediately. Use do_task_status(task_id) for logs, do_task_kill(task_id) to stop.
  NEVER run dev servers with do_bash (it will hang "running" forever). NEVER use `cmd &` inside do_bash for servers.

Web (built-in, no API key):
- do_web_search — public web search (title / URL / snippet). Use when you need links and have no URL yet.
- do_web_fetch — GET public page(s) as text. Pass `url` or concurrent `urls` (up to 4).
  HTML results include **Candidate links** ranked for same-site/docs — for the user task, deep-fetch
  the best related links (official docs, API ref, next chapter). Prefer better known official URLs
  over random mirrors when you know them. Optional use_proxy. Never fetch localhost / private IPs.

Skills (Agent Skills / skills.sh ecosystem):
- Local packages live under ~/.dscode/skills (also reads ~/.agents/skills and the skills of other agents, per user and per project).
- Matching skills auto-activate from the user message (triggers / name).
- do_skill_list — see installed skills + scripts.
- do_skill_install — install third-party packages from GitHub (e.g. vercel-labs/agent-skills, mattpocock/skills/grill-me). Catalog: https://www.skills.sh/
- Only install when the user asks, or when a missing capability clearly blocks the task — then state what you will install and why.
- Bundled scripts under a skill should be run via do_bash with the absolute path shown when the skill activates.

MCP (Model Context Protocol):
- Tools named `mcp_<server>_<tool>` come from configured MCP servers (Settings → MCP).
- Prefer MCP tools when they match the task (docs lookup, browser, external APIs, etc.).
- If an MCP tool is listed in your available tools, you can and should call it — it is already connected.

Think step by step, use tools when needed, write clean code."#;

/// Maximum number of model turns per user message.
pub const DEFAULT_MAX_ITERATIONS: u32 = 120;

/// Maximum number of history messages in the context.
pub const DEFAULT_MAX_HISTORY_MESSAGES: usize = 1000;

/// Cap on the characters of a tool result in the conversation.
pub const MAX_TOOL_RESULT_CHARS: usize = 24_000;

/// The iteration from which repeated tool calls are looked for.
pub const LOOP_DETECT_FROM_ITERATION: u32 = 5;

/// How often a turn may answer an over-window rejection by compressing.
pub const MAX_CONTEXT_OVERFLOW_RETRIES: u32 = 1;

/// Overall budget of one streamed reply, in seconds.
pub const STREAM_TOTAL_BUDGET_SECS: u64 = 300;

/// How long a stream may stay silent, in seconds.
pub const STREAM_IDLE_TIMEOUT_SECS: u64 = 90;

/// Why a turn failed.
#[derive(Debug)]
pub enum ForgeError {
    /// The provider failed.
    Provider(ProviderError),
    /// A tool failed.
    Tool(String),
    /// The turns were used up without a final answer.
    MaxIterations(u32),
    /// The model said nothing.
    EmptyResponse,
    /// The turn was cancelled.
    Cancelled,
}

// ── Tool call fingerprints ──────────────────────────────────────────────────

/// The bytes of a text and an end mark, as they are hashed.
pub open spec fn hashed_text(s: Seq<char>) -> Seq<Seq<u8>> {
    seq![vstd::utf8::encode_utf8(s), seq![0xffu8]]
}

/// What tells tool calls apart: the name, and a hash of name and arguments.
pub open spec fn fingerprint(c: ToolCallView) -> (Seq<char>, u64) {
    (c.name, DefaultHasher::spec_finish(hashed_text(c.name) + hashed_text(c.arguments)))
}

/// The name of the called tool, and a hash of name and arguments.
///
/// Calls of one tool with different arguments are no loop, so the name alone
/// does not tell.
pub fn tool_fingerprint(tc: &ToolCall) -> (r: (String, u64))
    ensures
        (r.0@, r.1) == fingerprint(tc@),
{
    let mut h = DefaultHasher::new();
    let end: [u8; 1] = [0xff];
    h.write(tc.function.name.as_str().as_bytes());
    h.write(end.as_slice());
    h.write(tc.function.arguments.as_str().as_bytes());
    h.write(end.as_slice());
    proof {
        assert(end@ =~= seq![0xffu8]);
        assert(h@ =~= hashed_text(tc@.name) + hashed_text(tc@.arguments));
    }
    (tc.function.name.clone(), h.finish())
}

// ── Commands ────────────────────────────────────────────────────────────────

/// Whether the input invokes the command: it is the command, or the command and
/// then whitespace or a colon.
pub open spec fn invokes(input: Seq<char>, cmd: Seq<char>) -> bool {
    &&& text::starts(input, cmd)
    &&& (input.len() == cmd.len() || text::is_ws(input[cmd.len() as int]) || input[cmd.len() as int]
        == ':')
}

/// Whether `input` invokes the built-in command `cmd`: `/compact` is not
/// invoked by `/compacter`.
pub fn invokes_command(input: &str, cmd: &str) -> (b: bool)
    ensures
        b == invokes(input@, cmd@),
{
    let a = chars_of(input);
    let b = chars_of(cmd);
    let n: usize = b.len();
    if !stands_at(a.as_slice(), b.as_slice(), 0) {
        return false;
    }
    a.len() == n || is_whitespace(a[n]) || a[n] == ':'
}

/// What follows a command: the rest without more copies of the command, without
/// leading colons, and trimmed.
pub open spec fn argument_of(input: Seq<char>, cmd: Seq<char>) -> Seq<char> {
    text::trim_of(
        text::without_leading(text::trim_of(text::without_leading(input, cmd)), ":"@),
    )
}

fn command_argument(input: &str, cmd: &str) -> (r: String)
    ensures
        r@ == argument_of(input@, cmd@),
{
    let a = chars_of(input);
    let c = chars_of(cmd);
    let colon = chars_of(":");
    text_of(trim(drop_leading(trim(drop_leading(a.as_slice(), c.as_slice())), colon.as_slice())))
}

/// What an input asks for.
#[derive(Debug)]
pub enum Route {
    /// Cancel the plan interview.
    CancelPlan,
    /// Compress the context now.
    Compact,
    /// An answer in the running plan interview.
    AnswerPlan(String),
    /// Start a plan interview about a goal.
    StartPlan(String),
    /// `/auto` without a task: say how it is used.
    AutoUsage,
    /// Run a task on its own.
    Auto(String),
    /// Hand a task to the team.
    Teams(String),
    /// A turn with the model, with teams mode switched first where asked for.
    Chat(Option<bool>),
}

/// A route as a value.
pub enum RouteView {
    CancelPlan,
    Compact,
    AnswerPlan(Seq<char>),
    StartPlan(Seq<char>),
    AutoUsage,
    Auto(Seq<char>),
    Teams(Seq<char>),
    Chat(Option<bool>),
}

impl View for Route {
    type V = RouteView;

    open spec fn view(&self) -> RouteView {
        match self {
            Route::CancelPlan => RouteView::CancelPlan,
            Route::Compact => RouteView::Compact,
            Route::AnswerPlan(s) => RouteView::AnswerPlan(s@),
            Route::StartPlan(s) => RouteView::StartPlan(s@),
            Route::AutoUsage => RouteView::AutoUsage,
            Route::Auto(s) => RouteView::Auto(s@),
            Route::Teams(s) => RouteView::Teams(s@),
            Route::Chat(b) => RouteView::Chat(*b),
        }
    }
}

/// Whether `a` is `b`, but for the case of ASCII letters.
pub open spec fn is_word(a: Seq<char>, b: Seq<char>) -> bool {
    text::ascii_lowered(a) == text::ascii_lowered(b)
}

/// The text of the last user row, empty where there is none.
pub open spec fn last_user_text(s: Seq<MessageView>) -> Seq<char>
    decreases s.len(),
{
    if s.len() == 0 {
        Seq::empty()
    } else if s.last().role == Role::User {
        s.last().content.text()
    } else {
        last_user_text(s.drop_last())
    }
}

/// How an input switches teams mode, if it does.
pub open spec fn teams_switch(t: Seq<char>) -> Option<bool> {
    if is_word(t, "/teams"@) || is_word(t, "/teams on"@) {
        Some(true)
    } else if is_word(t, "/teams off"@) || is_word(t, "/teams stop"@) {
        Some(false)
    } else {
        None
    }
}

/// What the trimmed input `t` asks for.
pub open spec fn route(
    t: Seq<char>,
    plan_active: bool,
    teams_mode: bool,
    history: Seq<MessageView>,
) -> RouteView {
    if is_word(t, "/plan cancel"@) || is_word(t, "/cancel"@) {
        RouteView::CancelPlan
    } else if invokes(t, "/compact"@) {
        RouteView::Compact
    } else if plan_active && !text::starts(t, "/plan"@) && !text::starts(t, "/auto"@)
        && !text::starts(t, "/teams"@) {
        RouteView::AnswerPlan(t)
    } else if text::starts(t, "/plan"@) {
        RouteView::StartPlan(argument_of(t, "/plan"@))
    } else if text::starts(t, "/auto"@) {
        let task = if argument_of(t, "/auto"@).len() > 0 {
            argument_of(t, "/auto"@)
        } else {
            last_user_text(history)
        };
        if task.len() == 0 {
            RouteView::AutoUsage
        } else {
            RouteView::Auto(task)
        }
    } else if teams_switch(t) is Some {
        RouteView::Chat(teams_switch(t))
    } else if teams_mode {
        RouteView::Teams(t)
    } else {
        RouteView::Chat(None)
    }
}

/// `/compact` compresses, whatever else is going on: it is never taken for an
/// answer in a plan interview, nor for a task of a team.
pub proof fn law_compact_compresses(
    t: Seq<char>,
    plan_active: bool,
    teams_mode: bool,
    history: Seq<MessageView>,
)
    requires
        invokes(t, "/compact"@),
    ensures
        route(t, plan_active, teams_mode, history) is Compact,
{
    reveal_strlit("/compact");
    reveal_strlit("/plan cancel");
    reveal_strlit("/cancel");
    assert(t.subrange(0, 8)[2] == t[2]);
    assert(text::ascii_lowered(t)[2] == 'o');
    assert(text::ascii_lowered("/plan cancel"@)[2] == 'l');
    assert(text::ascii_lowered("/cancel"@)[2] == 'a');
}

fn find_last_user_text(history: &[Message]) -> (r: String)
    ensures
        r@ == last_user_text(trait_def::views(history@)),
{
    let ghost s = trait_def::views(history@);
    let mut n: usize = history.len();
    assert(s.take(n as int) =~= s);
    while n > 0
        invariant
            n <= history@.len(),
            s == trait_def::views(history@),
            last_user_text(s) == last_user_text(s.take(n as int)),
        decreases n,
    {
        assert(s.take(n as int).drop_last() =~= s.take(n - 1));
        if history[n - 1].role == Role::User {
            return history[n - 1].content.text_or_empty().to_string();
        }
        n = n - 1;
    }
    String::new()
}

/// Says what a user input asks for.
///
/// A running plan interview takes every input that is no command as its answer.
/// With teams mode on, every other input goes to the team.
pub fn route_input(user_message: &str, plan_active: bool, teams_mode: bool, history: &[Message]) -> (r:
    Route)
    ensures
        r@ == route(
            text::trim_of(user_message@),
            plan_active,
            teams_mode,
            trait_def::views(history@),
        ),
{
    let input = trimmed(user_message);
    let t = input.as_str();
    if same_ignoring_case(t, "/plan cancel") || same_ignoring_case(t, "/cancel") {
        return Route::CancelPlan;
    }
    if invokes_command(t, "/compact") {
        return Route::Compact;
    }
    let plan = str_starts_with(t, "/plan");
    let auto = str_starts_with(t, "/auto");
    if plan_active && !plan && !auto && !str_starts_with(t, "/teams") {
        return Route::AnswerPlan(input);
    }
    if plan {
        return Route::StartPlan(command_argument(t, "/plan"));
    }
    if auto {
        let given = command_argument(t, "/auto");
        let task = if given.as_str().is_empty() {
            find_last_user_text(history)
        } else {
            given
        };
        if task.as_str().is_empty() {
            return Route::AutoUsage;
        }
        return Route::Auto(task);
    }
    if same_ignoring_case(t, "/teams") || same_ignoring_case(t, "/teams on") {
        return Route::Chat(Some(true));
    }
    if same_ignoring_case(t, "/teams off") || same_ignoring_case(t, "/teams stop") {
        return Route::Chat(Some(false));
    }
    if teams_mode {
        Route::Teams(input)
    } else {
        Route::Chat(None)
    }
}

// ── The system prompt of a turn ─────────────────────────────────────────────

/// What a switch of teams mode adds to the system prompt.
pub open spec fn switch_prompt(switch: Option<bool>) -> Seq<char> {
    match switch {
        Some(true) => "\n\nTeams mode ON. Every message will be executed by concurrent sub-agents.\nType /teams off to disable."@,
        Some(false) => "\n\nTeams mode OFF. Back to single-agent operation."@,
        None => ""@,
    }
}

/// The system prompt of a turn: the base prompt, the mode, the working
/// directory, and the prompts of the skills that match.
pub open spec fn turn_prompt(
    base: Seq<char>,
    switch: Option<bool>,
    working_dir: Seq<char>,
    skills: Seq<char>,
) -> Seq<char> {
    let system = base + switch_prompt(switch) + "\n\nCurrent working directory: "@ + working_dir;
    if skills.len() == 0 {
        system
    } else {
        system + "\n"@ + skills
            + "\n---\nFollow the above skill instructions when applicable."@
    }
}

/// Builds the system prompt of a turn.
pub fn enriched_system_prompt(
    system_prompt: &str,
    switch: Option<bool>,
    working_dir: &str,
    skill_prompt: &str,
) -> (r: String)
    ensures
        r@ == turn_prompt(system_prompt@, switch, working_dir@, skill_prompt@),
{
    let mode = match switch {
        Some(true) => "\n\nTeams mode ON. Every message will be executed by concurrent sub-agents.\nType /teams off to disable.",
        Some(false) => "\n\nTeams mode OFF. Back to single-agent operation.",
        None => "",
    };
    let system = cat3(system_prompt, mode, "\n\nCurrent working directory: ").concat(working_dir);
    if skill_prompt.is_empty() {
        system
    } else {
        cat3(system.as_str(), "\n", skill_prompt).concat(
            "\n---\nFollow the above skill instructions when applicable.",
        )
    }
}

// ── Notes ───────────────────────────────────────────────────────────────────

/// The user-facing name of the level that an action came from.
pub open spec fn label_of(action: CompressionAction) -> Seq<char> {
    match action {
        CompressionAction::Nothing => "无"@,
        CompressionAction::Snipped { .. } => "L0 工具输出剪裁"@,
        CompressionAction::Truncated { .. } => "L1 截断"@,
        CompressionAction::TagCompressed { .. } => "L2 工具输出压缩"@,
        CompressionAction::LlmSummarized { .. } => "L3 LLM 摘要"@,
        CompressionAction::Chunked { .. } => "L4 分块"@,
    }
}

/// Short user-facing name of the level that a compression action came from.
pub fn action_label(action: &CompressionAction) -> (r: &'static str)
    ensures
        r@ == label_of(*action),
{
    match action {
        CompressionAction::Nothing => "无",
        CompressionAction::Snipped { .. } => "L0 工具输出剪裁",
        CompressionAction::Truncated { .. } => "L1 截断",
        CompressionAction::TagCompressed { .. } => "L2 工具输出压缩",
        CompressionAction::LlmSummarized { .. } => "L3 LLM 摘要",
        CompressionAction::Chunked { .. } => "L4 分块",
    }
}

/// What to say about an abnormal reason to stop; nothing about a normal one.
pub open spec fn note_for(reason: Option<Seq<char>>) -> Option<Seq<char>> {
    match reason {
        Some(s) => {
            let r = text::ascii_lowered(text::trim_of(s));
            if r == "length"@ || r == "max_tokens"@ {
                Some(
                    "the model hit its max_tokens limit — the reply was cut off and any tool arguments may be incomplete; re-issue the call split into smaller pieces"@,
                )
            } else if r == "content_filter"@ {
                Some(
                    "the provider filtered part of the reply (content_filter); treat the result as incomplete"@,
                )
            } else {
                None
            }
        },
        None => None,
    }
}

/// The text of an optional string slice.
pub open spec fn opt_str(o: Option<&str>) -> Option<Seq<char>> {
    match o {
        Some(s) => Some(s@),
        None => None,
    }
}

/// Turns an abnormal reason to stop into a note for the user.
pub fn finish_reason_note(finish_reason: Option<&str>) -> (r: Option<&'static str>)
    ensures
        opt_str(r) == note_for(opt_str(finish_reason)),
{
    match finish_reason {
        Some(s) => {
            let r = ascii_lowercase(trimmed(s).as_str());
            if same(r.as_str(), "length") || same(r.as_str(), "max_tokens") {
                Some(
                    "the model hit its max_tokens limit — the reply was cut off and any tool arguments may be incomplete; re-issue the call split into smaller pieces",
                )
            } else if same(r.as_str(), "content_filter") {
                Some(
                    "the provider filtered part of the reply (content_filter); treat the result as incomplete",
                )
            } else {
                None
            }
        },
        None => None,
    }
}

// ── Tools ───────────────────────────────────────────────────────────────────

/// A tool output of at most about `max` characters.
pub open spec fn cut_output(s: Seq<char>, max: nat) -> Seq<char> {
    if s.len() <= max {
        s
    } else {
        text::first_chars(
            s,
            if max < 80 {
                0
            } else {
                (max - 80) as nat
            },
        ) + "\n\n…[tool output truncated at "@ + text::dec(max)
            + " chars; re-read file/path if more is needed]…"@
    }
}

/// Cuts a tool output before it goes into the conversation.
pub fn truncate_tool_result(s: &str, max_chars: usize) -> (r: String)
    ensures
        r@ == cut_output(s@, max_chars as nat),
{
    if s.unicode_len() <= max_chars {
        return s.to_string();
    }
    let head: usize = if max_chars < 80 {
        0
    } else {
        max_chars - 80
    };
    cat3(
        take_chars(s, head).as_str(),
        "\n\n…[tool output truncated at ",
        decimal(max_chars as u64).as_str(),
    ).concat(" chars; re-read file/path if more is needed]…")
}

/// What a tool came back with.
#[derive(Debug)]
pub struct ToolOutcome {
    pub success: bool,
    pub output: String,
    pub error: Option<String>,
}

/// The event and the row that end a tool call.
pub struct ToolEndView {
    pub event: stream::EventView,
    pub row: MessageView,
}

/// A tool call that ends with a text.
pub open spec fn tool_end(c: ToolCallView, status: ToolStatus, result: Seq<char>) -> ToolEndView {
    ToolEndView {
        event: stream::EventView::ToolEnd { id: c.id, status, result },
        row: trait_def::tool_message(c.id, result),
    }
}

/// What is said of arguments that are no JSON document.
pub open spec fn bad_arguments(c: ToolCallView, error: Seq<char>) -> Seq<char> {
    "Failed to parse arguments for tool '"@ + c.name + "': "@ + error
}

/// The text that a tool's outcome is answered with.
pub open spec fn outcome_text(success: bool, output: Seq<char>, error: Option<Seq<char>>) -> Seq<
    char,
> {
    cut_output(
        if success {
            output
        } else {
            match error {
                Some(e) => e,
                None => output,
            }
        },
        24_000,
    )
}

/// The event that starts a tool call.
fn tool_start_event(tc: &ToolCall, description: &str) -> (e: StreamEvent)
    ensures
        e@ == (stream::EventView::ToolStart {
            id: tc@.id,
            name: tc@.name,
            description: description@,
            arguments: tc@.arguments,
        }),
{
    StreamEvent::ToolStart {
        id: tc.id.clone(),
        name: tc.function.name.clone(),
        description: description.to_string(),
        arguments: tc.function.arguments.clone(),
    }
}

fn end_tool(tc: &ToolCall, status: ToolStatus, result: String) -> (r: (StreamEvent, Message))
    ensures
        (ToolEndView { event: r.0@, row: r.1@ }) == tool_end(tc@, status, result@),
{
    let event = StreamEvent::ToolEnd { id: tc.id.clone(), status, result: result.clone() };
    (event, Message::tool_answer(tc.id.clone(), result))
}

/// Ends a tool call whose arguments are no JSON document.
pub fn reject_arguments(tc: &ToolCall, error: &str) -> (r: (StreamEvent, Message))
    ensures
        (ToolEndView { event: r.0@, row: r.1@ }) == tool_end(
            tc@,
            ToolStatus::Error,
            bad_arguments(tc@, error@),
        ),
{
    let text = cat3(
        "Failed to parse arguments for tool '",
        tc.function.name.as_str(),
        "': ",
    ).concat(error);
    end_tool(tc, ToolStatus::Error, text)
}

/// Looks at the arguments of a tool call before the tool runs: the end of the
/// call where they are no JSON document, nothing where the tool is to run.
fn check_arguments(tc: &ToolCall) -> (r: Option<(StreamEvent, Message)>)
    ensures
        match json::json_error_of(tc@.arguments) {
            Some(e) => r matches Some(end) && (ToolEndView { event: end.0@, row: end.1@ })
                == tool_end(tc@, ToolStatus::Error, bad_arguments(tc@, e)),
            None => r is None,
        },
{
    match json_error(tc.function.arguments.as_str()) {
        Some(e) => Some(reject_arguments(tc, e.as_str())),
        None => None,
    }
}

/// Opens a tool call: the event that starts it, and its end where its arguments are
/// no JSON document. Without an end the tool is to run, and [`finish_tool`] or
/// [`fail_tool`] ends the call.
pub fn execute_one_tool(tc: &ToolCall, description: &str) -> (r: (
    StreamEvent,
    Option<(StreamEvent, Message)>,
))
    ensures
        r.0@ == (stream::EventView::ToolStart {
            id: tc@.id,
            name: tc@.name,
            description: description@,
            arguments: tc@.arguments,
        }),
        match json::json_error_of(tc@.arguments) {
            Some(e) => r.1 matches Some(end) && (ToolEndView { event: end.0@, row: end.1@ })
                == tool_end(tc@, ToolStatus::Error, bad_arguments(tc@, e)),
            None => r.1 is None,
        },
{
    (tool_start_event(tc, description), check_arguments(tc))
}

/// Ends a tool call that ran.
pub fn finish_tool(tc: &ToolCall, outcome: &ToolOutcome) -> (r: (StreamEvent, Message))
    ensures
        (ToolEndView { event: r.0@, row: r.1@ }) == tool_end(
            tc@,
            if outcome.success {
                ToolStatus::Success
            } else {
                ToolStatus::Error
            },
            outcome_text(outcome.success, outcome.output@, text::opt_text(outcome.error)),
        ),
{
    let raw = if outcome.success {
        outcome.output.as_str()
    } else {
        match &outcome.error {
            Some(e) => e.as_str(),
            None => outcome.output.as_str(),
        }
    };
    let status = if outcome.success {
        ToolStatus::Success
    } else {
        ToolStatus::Error
    };
    end_tool(tc, status, truncate_tool_result(raw, MAX_TOOL_RESULT_CHARS))
}

/// Ends a tool call that could not be run.
pub fn fail_tool(tc: &ToolCall, error: &str) -> (r: (StreamEvent, Message))
    ensures
        (ToolEndView { event: r.0@, row: r.1@ }) == tool_end(tc@, ToolStatus::Error, error@),
{
    end_tool(tc, ToolStatus::Error, error.to_string())
}

/// However a tool call ends, the event and the row that end it name it and hold the
/// same text.
pub proof fn law_tool_end_names_its_call(c: ToolCallView, status: ToolStatus, result: Seq<char>)
    ensures
        tool_end(c, status, result).row == trait_def::tool_message(c.id, result),
        tool_end(c, status, result).event == (stream::EventView::ToolEnd {
            id: c.id,
            status,
            result,
        }),
        tool_end(c, status, result).row.tool_call_id == Some(c.id),
{
}

proof fn lemma_no_command(t: Seq<char>, cmd: Seq<char>)
    requires
        t.len() == 0 || t[0] != '/',
        cmd.len() > 0,
        cmd[0] == '/',
    ensures
        !text::starts(t, cmd),
        !is_word(t, cmd),
{
    if text::starts(t, cmd) {
        assert(t.subrange(0, cmd.len() as int)[0] == t[0]);
    }
    if is_word(t, cmd) {
        assert(text::ascii_lowered(t).len() == t.len());
        assert(text::ascii_lowered(t)[0] == text::ascii_lower(t[0]));
        assert(text::ascii_lowered(cmd)[0] == '/');
    }
}

/// What starts with no slash is no command: it answers the plan interview where one is
/// active, goes to the team in teams mode, and is talk otherwise, always as it was typed.
pub proof fn law_plain_input_is_no_command(
    t: Seq<char>,
    plan_active: bool,
    teams_mode: bool,
    history: Seq<MessageView>,
)
    requires
        t.len() == 0 || t[0] != '/',
    ensures
        route(t, plan_active, teams_mode, history) == (if plan_active {
            RouteView::AnswerPlan(t)
        } else if teams_mode {
            RouteView::Teams(t)
        } else {
            RouteView::Chat(None)
        }),
{
    reveal_strlit("/plan cancel");
    reveal_strlit("/cancel");
    reveal_strlit("/compact");
    reveal_strlit("/plan");
    reveal_strlit("/auto");
    reveal_strlit("/teams");
    reveal_strlit("/teams on");
    reveal_strlit("/teams off");
    reveal_strlit("/teams stop");
    lemma_no_command(t, "/plan cancel"@);
    lemma_no_command(t, "/cancel"@);
    lemma_no_command(t, "/compact"@);
    lemma_no_command(t, "/plan"@);
    lemma_no_command(t, "/auto"@);
    lemma_no_command(t, "/teams"@);
    lemma_no_command(t, "/teams on"@);
    lemma_no_command(t, "/teams off"@);
    lemma_no_command(t, "/teams stop"@);
}

/// What stands behind a command is its argument, whole and without the whitespace around
/// it, whether a space, a colon or both stand between.
#[verifier::rlimit(40)]
pub proof fn law_argument_is_what_was_typed(cmd: Seq<char>, x: Seq<char>, between: Seq<char>)
    requires
        cmd.len() > 0,
        cmd[0] == '/',
        x.len() > 0,
        text::is_tight(x),
        x[0] != ':',
        between == " "@ || between == ":"@ || between == ": "@,
    ensures
        argument_of(cmd + between + x, cmd) == x,
{
    let none = Seq::<char>::empty();
    let t = cmd + between + x;
    let rest = between + x;
    reveal_strlit(" ");
    reveal_strlit(":");
    reveal_strlit(": ");
    assert(t.subrange(0, cmd.len() as int) =~= cmd);
    assert(text::starts(t, cmd));
    assert(t.skip(cmd.len() as int) =~= rest);
    if text::starts(rest, cmd) {
        assert(rest.subrange(0, cmd.len() as int)[0] == rest[0]);
    }
    assert(text::without_leading(rest, cmd) == rest);
    assert(text::without_leading(t, cmd) == rest);
    assert(text::is_blank(none));
    assert(text::is_blank(seq![' ']));
    if between == " "@ {
        text::law_trim_takes_whitespace(seq![' '], x, none);
        assert(seq![' '] + x + none =~= rest);
        if text::starts(x, ":"@) {
            assert(x.subrange(0, 1)[0] == x[0]);
        }
        assert(text::without_leading(x, ":"@) == x);
        text::law_trim_takes_whitespace(none, x, none);
        assert(none + x + none =~= x);
    } else {
        let y = rest.skip(1);
        assert(rest[0] == ':');
        assert(rest.last() == x.last());
        text::law_trim_takes_whitespace(none, rest, none);
        assert(none + rest + none =~= rest);
        assert(rest.subrange(0, 1) =~= ":"@);
        assert(text::starts(rest, ":"@));
        assert(rest.skip(":"@.len() as int) =~= y);
        assert(y[0] != ':');
        if text::starts(y, ":"@) {
            assert(y.subrange(0, 1)[0] == y[0]);
        }
        assert(text::without_leading(y, ":"@) == y);
        if between == ":"@ {
            assert(y =~= none + x + none);
            text::law_trim_takes_whitespace(none, x, none);
        } else {
            assert(y =~= seq![' '] + x + none);
            text::law_trim_takes_whitespace(seq![' '], x, none);
        }
    }
}

/// A task that is given to `/auto` is the one that is worked on, whatever mode is on, and
/// what is given to `/plan` is what is planned.
#[verifier::rlimit(40)]
pub proof fn law_task_is_what_was_typed(
    x: Seq<char>,
    plan_active: bool,
    teams_mode: bool,
    history: Seq<MessageView>,
)
    requires
        x.len() > 0,
        text::is_tight(x),
        x[0] != ':',
    ensures
        route("/auto "@ + x, plan_active, teams_mode, history) == RouteView::Auto(x),
        !is_word("/plan "@ + x, "/plan cancel"@) ==> route(
            "/plan "@ + x,
            plan_active,
            teams_mode,
            history,
        ) == RouteView::StartPlan(x),
{
    reveal_strlit("/auto ");
    reveal_strlit("/plan ");
    reveal_strlit("/auto");
    reveal_strlit("/plan");
    reveal_strlit("/teams");
    reveal_strlit("/compact");
    reveal_strlit("/cancel");
    reveal_strlit("/plan cancel");
    reveal_strlit(" ");
    law_argument_is_what_was_typed("/auto"@, x, " "@);
    law_argument_is_what_was_typed("/plan"@, x, " "@);
    assert("/auto "@ =~= "/auto"@ + " "@);
    assert("/plan "@ =~= "/plan"@ + " "@);
    let a = "/auto "@ + x;
    let p = "/plan "@ + x;
    assert(a.subrange(0, 5) =~= "/auto"@);
    assert(p.subrange(0, 5) =~= "/plan"@);
    assert(a[1] == 'a' && p[1] == 'p');
    if text::starts(a, "/plan"@) {
        assert(a.subrange(0, 5)[1] == 'a');
    }
    if text::starts(a, "/compact"@) {
        assert(a.subrange(0, 8)[1] == 'a');
    }
    if text::starts(p, "/compact"@) {
        assert(p.subrange(0, 8)[1] == 'p');
    }
    lemma_other_word(a, "/plan cancel"@);
    lemma_other_word(a, "/cancel"@);
    lemma_other_word(p, "/cancel"@);
}

proof fn lemma_other_word(t: Seq<char>, w: Seq<char>)
    requires
        t.len() > 1,
        w.len() > 1,
        text::ascii_lower(t[1]) != text::ascii_lower(w[1]),
    ensures
        !is_word(t, w),
{
    if is_word(t, w) {
        assert(text::ascii_lowered(t)[1] == text::ascii_lower(t[1]));
        assert(text::ascii_lowered(w)[1] == text::ascii_lower(w[1]));
    }
}

/// A tool's output is left as it is where it is short enough; a longer one keeps its start,
/// and says that it was cut.
#[verifier::rlimit(40)]
pub proof fn law_cut_output_keeps_its_start(s: Seq<char>, max: nat)
    ensures
        s.len() <= max ==> cut_output(s, max) == s,
        s.len() > max && max >= 80 ==> text::starts(cut_output(s, max), s.take(max - 80)),
        s.len() > max ==> text::has_part(cut_output(s, max), "[tool output truncated at "@ + text::dec(max)),
{
    let none = Seq::<char>::empty();
    if s.len() > max {
        let a = text::first_chars(
            s,
            if max < 80 {
                0
            } else {
                (max - 80) as nat
            },
        );
        let n = text::dec(max);
        let m = "[tool output truncated at "@;
        let b = "\n\n…[tool output truncated at "@;
        let z = " chars; re-read file/path if more is needed]…"@;
        text::lemma_part_at(none, a, b + n + z);
        assert(none + a + (b + n + z) =~= cut_output(s, max));
        let nl = "\n\n…"@;
        assert(b =~= nl + m) by {
            reveal_strlit("\n\n…[tool output truncated at ");
            reveal_strlit("\n\n…");
            reveal_strlit("[tool output truncated at ");
        }
        text::lemma_part_at(a + nl, m + n, z);
        assert(a + nl + (m + n) + z =~= cut_output(s, max));
    }
}

/// The model is told what a tool gave: its output where it succeeded, its error where it
/// failed with one.
pub proof fn law_outcome_is_told(success: bool, output: Seq<char>, error: Option<Seq<char>>)
    ensures
        ({
            let said = if !success && error is Some {
                error->0
            } else {
                output
            };
            &&& said.len() <= 24_000 ==> outcome_text(success, output, error) == said
            &&& said.len() > 24_000 ==> text::starts(
                outcome_text(success, output, error),
                said.take(24_000 - 80),
            )
        }),
{
    let said = if !success && error is Some {
        error->0
    } else {
        output
    };
    law_cut_output_keeps_its_start(said, 24_000);
}

/// The model is told its instructions first, where it works, and every skill that applies.
#[verifier::rlimit(40)]
pub proof fn law_prompt_tells_all(
    base: Seq<char>,
    switch: Option<bool>,
    working_dir: Seq<char>,
    skills: Seq<char>,
)
    ensures
        text::starts(turn_prompt(base, switch, working_dir, skills), base),
        text::has_part(
            turn_prompt(base, switch, working_dir, skills),
            "Current working directory: "@ + working_dir,
        ),
        text::has_part(turn_prompt(base, switch, working_dir, skills), skills),
{
    let none = Seq::<char>::empty();
    let t = turn_prompt(base, switch, working_dir, skills);
    let w = "Current working directory: "@ + working_dir;
    let nl = "\n\n"@;
    assert("\n\nCurrent working directory: "@ =~= nl + "Current working directory: "@) by {
        reveal_strlit("\n\n");
        reveal_strlit("\n\nCurrent working directory: ");
        reveal_strlit("Current working directory: ");
    }
    let z = if skills.len() == 0 {
        none
    } else {
        "\n"@ + skills + "\n---\nFollow the above skill instructions when applicable."@
    };
    let s = switch_prompt(switch);
    assert(t =~= base + s + nl + w + z);
    text::lemma_part_at(none, base, s + nl + w + z);
    assert(none + base + (s + nl + w + z) =~= t);
    text::lemma_part_at(base + s + nl, w, z);
    if skills.len() == 0 {
        assert(skills =~= none);
        text::lemma_part_at(t, none, none);
        assert(t + none + none =~= t);
    } else {
        text::lemma_part_at(
            base + s + nl + w + "\n"@,
            skills,
            "\n---\nFollow the above skill instructions when applicable."@,
        );
        assert(base + s + nl + w + "\n"@ + skills
            + "\n---\nFollow the above skill instructions when applicable."@ =~= t);
    }
}

/// Calls of different tools are told apart, and the same call is known again.
pub proof fn law_fingerprint_tells_tools_apart(c: ToolCallView, d: ToolCallView)
    ensures
        c.name != d.name ==> fingerprint(c) != fingerprint(d),
        c.name == d.name && c.arguments == d.arguments ==> fingerprint(c) == fingerprint(d),
{
}

} // verus!
