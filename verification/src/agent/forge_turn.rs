//! The agent and the commands of its user.
//!
//! [`Forge::execute`] says what an input leads to. Most inputs open a turn with
//! the model; a few are answered at once, and some lead to an interview, to a
//! team or to a run of their own.

use crate::agent::compression;
use crate::agent::compression::{CompressionAction, CompressionPipeline, CompressionStep};
use crate::agent::context;
use crate::agent::context::{build_context, count_tool_def_tokens};
use crate::agent::forge;
use crate::agent::forge::{
    action_label, enriched_system_prompt, route_input, ForgeError, Route, DEFAULT_MAX_HISTORY_MESSAGES,
    DEFAULT_MAX_ITERATIONS, DEFAULT_SYSTEM_PROMPT,
};
use crate::agent::forge_run;
use crate::agent::forge_run::{count_prompt, ending_events, ForgeRun};
use crate::agent::stream;
use crate::agent::stream::{EventView, StreamEvent};
use crate::agent::tool_chain;
use crate::agent::tool_chain::validate_tool_chain_for_provider;
use crate::auto::runner;
use crate::auto::runner::{AutoRunner, Subtask, SubtaskStatus};
use crate::auto::subtask;
use crate::config::settings::ContextConfig;
use crate::extensions::skills;
use crate::extensions::skills::Skill;
use crate::providers::trait_def;
use crate::providers::trait_def::{Message, MessageView, Role, ToolDef};
use crate::text;
use crate::text::{cat2, cat3, chars_of, copy_range, decimal, text_of};
use vstd::prelude::*;
use vstd::string::*;

verus! {

// ── The agent ───────────────────────────────────────────────────────────────

/// The settings of an agent.
#[derive(Debug)]
pub struct Forge {
    /// How many model turns an input may take.
    pub max_iterations: u32,
    pub working_dir: String,
    pub system_prompt: String,
    /// How many rows of the past go into the context.
    pub max_history_messages: usize,
    pub context_config: ContextConfig,
    /// Whether inputs go to the team.
    pub teams_mode: bool,
    /// How long a question for permission stands, in seconds.
    pub permission_timeout_secs: u64,
}

impl Forge {
    /// An agent in a working directory, as nobody changed it.
    pub fn new(working_dir: &str) -> (r: Self)
        ensures
            r.max_iterations == 120,
            r.working_dir@ == working_dir@,
            r.system_prompt@ == DEFAULT_SYSTEM_PROMPT@,
            r.max_history_messages == 1000,
            r.context_config == (ContextConfig {
                window_tokens: 1_000_000,
                compress_threshold: 800_000,
                max_agent_iterations: 120,
            }),
            !r.teams_mode,
            r.permission_timeout_secs == 120,
    {
        Forge {
            max_iterations: DEFAULT_MAX_ITERATIONS,
            working_dir: working_dir.to_string(),
            system_prompt: DEFAULT_SYSTEM_PROMPT.to_string(),
            max_history_messages: DEFAULT_MAX_HISTORY_MESSAGES,
            context_config: ContextConfig::default(),
            teams_mode: false,
            permission_timeout_secs: 120,
        }
    }

    /// Sets how many seconds a question for permission stands, at least ten.
    pub fn with_permission_timeout(self, secs: u64) -> (r: Self)
        ensures
            r == (Forge {
                permission_timeout_secs: if secs < 10 {
                    10
                } else {
                    secs
                },
                ..self
            }),
    {
        Forge {
            permission_timeout_secs: if secs < 10 {
                10
            } else {
                secs
            },
            ..self
        }
    }

    /// Sets the system prompt.
    pub fn with_system_prompt(self, prompt: String) -> (r: Self)
        ensures
            r == (Forge { system_prompt: prompt, ..self }),
    {
        Forge { system_prompt: prompt, ..self }
    }

    /// Sets how many model turns an input may take.
    pub fn with_max_iterations(self, n: u32) -> (r: Self)
        ensures
            r == (Forge { max_iterations: n, ..self }),
    {
        Forge { max_iterations: n, ..self }
    }

    /// Sets how many rows of the past go into the context.
    pub fn with_max_history_messages(self, n: usize) -> (r: Self)
        ensures
            r == (Forge { max_history_messages: n, ..self }),
    {
        Forge { max_history_messages: n, ..self }
    }

    /// Sets whether inputs go to the team.
    pub fn with_teams_mode(self, on: bool) -> (r: Self)
        ensures
            r == (Forge { teams_mode: on, ..self }),
    {
        Forge { teams_mode: on, ..self }
    }

    /// Sets the context window, and with it how many model turns an input may
    /// take where it says so.
    pub fn with_context_config(self, cfg: ContextConfig) -> (r: Self)
        ensures
            r == (Forge {
                context_config: cfg,
                max_iterations: if cfg.max_agent_iterations > 0 {
                    cfg.max_agent_iterations
                } else {
                    self.max_iterations
                },
                ..self
            }),
    {
        Forge {
            context_config: cfg,
            max_iterations: if cfg.max_agent_iterations > 0 {
                cfg.max_agent_iterations
            } else {
                self.max_iterations
            },
            ..self
        }
    }
}

/// What an error says, given what the provider says of its own.
pub open spec fn forge_error_text(e: ForgeError, provider: Seq<char>) -> Seq<char> {
    match e {
        ForgeError::Provider(_) => "provider error: "@ + provider,
        ForgeError::Tool(s) => "tool error: "@ + s@,
        ForgeError::MaxIterations(n) => "max iterations ("@ + text::dec(n as nat)
            + ") reached without a final response"@,
        ForgeError::EmptyResponse => "model returned an empty response (no content, no tool calls)"@,
        ForgeError::Cancelled => "cancelled"@,
    }
}

impl ForgeError {
    /// What the error says. `provider` is what the provider says of its own.
    pub fn describe(&self, provider: &str) -> (r: String)
        ensures
            r@ == forge_error_text(*self, provider@),
    {
        match self {
            ForgeError::Provider(_) => cat2("provider error: ", provider),
            ForgeError::Tool(s) => cat2("tool error: ", s.as_str()),
            ForgeError::MaxIterations(n) => cat3(
                "max iterations (",
                decimal(*n as u64).as_str(),
                ") reached without a final response",
            ),
            ForgeError::EmptyResponse => {
                "model returned an empty response (no content, no tool calls)".to_string()
            },
            ForgeError::Cancelled => "cancelled".to_string(),
        }
    }
}

// ── What an input leads to ──────────────────────────────────────────────────

/// What an input leads to.
#[derive(Debug)]
pub enum Opening {
    /// The input is answered: send the events, and the turn is over.
    Answered(Vec<StreamEvent>),
    /// The context is to be compressed: see [`CompactRun`].
    Compact,
    /// An answer in the running interview.
    AnswerPlan(String),
    /// An interview about a goal starts.
    StartPlan(String),
    /// A run of its own: see [`crate::auto::runner`].
    Auto(String),
    /// A task for the team.
    Teams(String),
    /// A turn with the model.
    Chat(ForgeRun),
}

/// A text and the end of the turn.
pub open spec fn answer(s: Seq<char>) -> Seq<EventView> {
    seq![EventView::Token { content: s }, EventView::Complete { usage: None }]
}

/// What is said when the interview is cancelled.
pub open spec fn cancelled_text(plan_active: bool) -> Seq<char> {
    if plan_active {
        "Plan interview cancelled.\n"@
    } else {
        "No active plan interview.\n"@
    }
}

/// How `/auto` is used.
pub open spec fn auto_usage() -> Seq<char> {
    "Usage: `/auto <task or PRD>` — runs auto spiral until done.\n"@
}

/// How `/plan` is used.
pub open spec fn plan_usage() -> Seq<char> {
    "Usage: `/plan <what you want to build>`\n\nStarts an **LLM-driven** 5-phase grill-me interview (Scope → Requirements → Design → Risks → Quality).\nEach turn asks one high-leverage clarifying question (dynamic, not a fixed bank), using your project snapshot for context.\nClick an option button, enter a custom answer, or `yes`/`推荐` for the recommendation. `/plan cancel` aborts.\n"@
}

/// What the model is told of the skills that are called for.
pub open spec fn told_skills(s: Seq<skills::SkillView>) -> Seq<char>
    decreases s.len(),
{
    if s.len() == 0 {
        Seq::empty()
    } else {
        told_skills(s.drop_last()) + skills::prompt_of(s.last()) + "\n"@
    }
}

/// The rows of a turn: the system prompt, what is kept of the past, and the
/// input.
pub open spec fn turn_rows(
    f: Forge,
    switch: Option<bool>,
    skill_prompt: Seq<char>,
    history: Seq<MessageView>,
    input: Seq<char>,
) -> Seq<MessageView> {
    (seq![
        trait_def::text_message(
            Role::System,
            forge::turn_prompt(f.system_prompt@, switch, f.working_dir@, skill_prompt),
        ),
    ] + context::recent(history, f.max_history_messages as nat)).push(
        trait_def::text_message(Role::User, input),
    )
}

fn answer_events(s: &str) -> (r: Vec<StreamEvent>)
    ensures
        stream::event_views(r@) == answer(s@),
{
    let mut events: Vec<StreamEvent> = Vec::new();
    events.push(StreamEvent::Token { content: s.to_string() });
    events.push(StreamEvent::Complete { usage: None });
    assert(stream::event_views(events@) =~= answer(s@));
    events
}

/// What the model is told of the skills that are called for.
pub fn skill_prompts(matches: &Vec<&Skill>) -> (r: String)
    ensures
        r@ == told_skills(skills::borrowed_views(matches@)),
{
    let ghost s = skills::borrowed_views(matches@);
    let mut out = String::new();
    let n: usize = matches.len();
    assert(out@ =~= told_skills(s.take(0)));
    for i in 0..n
        invariant
            n == matches@.len(),
            s == skills::borrowed_views(matches@),
            out@ == told_skills(s.take(i as int)),
    {
        assert(s.take(i as int + 1).drop_last() =~= s.take(i as int));
        out.append(matches[i].to_agent_prompt().as_str());
        out.append("\n");
        assert(out@ =~= told_skills(s.take(i as int + 1)));
    }
    assert(s.take(n as int) =~= s);
    out
}

impl Forge {
    /// Says what an input leads to, and opens a turn with the model where it is
    /// for the model. A switch of teams mode is made first.
    ///
    /// `skill_prompt` is what the model is told of the skills that the input
    /// calls for: see [`skill_prompts`].
    pub fn execute(
        &mut self,
        user_message: &str,
        plan_active: bool,
        history: &[Message],
        tools: &[ToolDef],
        skill_prompt: &str,
    ) -> (r: Opening)
        ensures
            match forge::route(
                text::trim_of(user_message@),
                plan_active,
                old(self).teams_mode,
                trait_def::views(history@),
            ) {
                forge::RouteView::CancelPlan => *final(self) == *old(self) && (r matches Opening::Answered(
                    e,
                ) && stream::event_views(e@) == answer(cancelled_text(plan_active))),
                forge::RouteView::Compact => *final(self) == *old(self) && r is Compact,
                forge::RouteView::AnswerPlan(s) => *final(self) == *old(self) && (
                r matches Opening::AnswerPlan(a) && a@ == s),
                forge::RouteView::StartPlan(goal) => *final(self) == *old(self) && if goal.len() == 0 {
                    r matches Opening::Answered(e) && stream::event_views(e@) == answer(plan_usage())
                } else {
                    r matches Opening::StartPlan(g) && g@ == goal
                },
                forge::RouteView::AutoUsage => *final(self) == *old(self) && (
                r matches Opening::Answered(e) && stream::event_views(e@) == answer(auto_usage())),
                forge::RouteView::Auto(task) => *final(self) == *old(self) && (
                r matches Opening::Auto(t) && t@ == task),
                forge::RouteView::Teams(task) => *final(self) == *old(self) && (
                r matches Opening::Teams(t) && t@ == task),
                forge::RouteView::Chat(switch) => {
                    &&& *final(self) == (Forge {
                        teams_mode: match switch {
                            Some(on) => on,
                            None => old(self).teams_mode,
                        },
                        ..*old(self)
                    })
                    &&& r matches Opening::Chat(run) && run@.wf() && run@ == fresh_run(
                        turn_rows(
                            *old(self),
                            switch,
                            skill_prompt@,
                            trait_def::views(history@),
                            user_message@,
                        ),
                        context::tool_tokens(trait_def::tool_views(tools@)) as u64,
                        old(self).context_config,
                        old(self).max_iterations,
                    )
                },
            },
    {
        match route_input(user_message, plan_active, self.teams_mode, history) {
            Route::CancelPlan => Opening::Answered(
                answer_events(
                    if plan_active {
                        "Plan interview cancelled.\n"
                    } else {
                        "No active plan interview.\n"
                    },
                ),
            ),
            Route::Compact => Opening::Compact,
            Route::AnswerPlan(s) => Opening::AnswerPlan(s),
            Route::StartPlan(goal) => if goal.as_str().is_empty() {
                Opening::Answered(
                    answer_events(
                        "Usage: `/plan <what you want to build>`\n\nStarts an **LLM-driven** 5-phase grill-me interview (Scope → Requirements → Design → Risks → Quality).\nEach turn asks one high-leverage clarifying question (dynamic, not a fixed bank), using your project snapshot for context.\nClick an option button, enter a custom answer, or `yes`/`推荐` for the recommendation. `/plan cancel` aborts.\n",
                    ),
                )
            } else {
                Opening::StartPlan(goal)
            },
            Route::AutoUsage => Opening::Answered(
                answer_events("Usage: `/auto <task or PRD>` — runs auto spiral until done.\n"),
            ),
            Route::Auto(task) => Opening::Auto(task),
            Route::Teams(task) => Opening::Teams(task),
            Route::Chat(switch) => {
                if let Some(on) = switch {
                    self.teams_mode = on;
                }
                let prompt = enriched_system_prompt(
                    self.system_prompt.as_str(),
                    switch,
                    self.working_dir.as_str(),
                    skill_prompt,
                );
                let packet = build_context(
                    history,
                    prompt.as_str(),
                    tools,
                    self.max_history_messages,
                );
                let mut messages = packet.messages;
                let ghost before = messages@;
                messages.push(Message::from_text(Role::User, user_message.to_string()));
                proof {
                    trait_def::lemma_views_push(before, messages@.last());
                    assert(messages@ == before.push(messages@.last()));
                }
                let tool_tokens = count_tool_def_tokens(tools);
                Opening::Chat(
                    ForgeRun::new(messages, tool_tokens, self.context_config, self.max_iterations),
                )
            },
        }
    }
}

/// A turn before its first step.
pub open spec fn fresh_run(
    rows: Seq<MessageView>,
    tool_tokens: u64,
    config: ContextConfig,
    max_iterations: u32,
) -> forge_run::RunView {
    forge_run::RunView {
        messages: rows,
        outgoing: Seq::empty(),
        tool_tokens,
        config,
        max_iterations,
        iteration: 0,
        initial_count: rows.len() as usize,
        compressed: false,
        overflow_retries: 0,
        recent_sets: Seq::empty(),
        withholder: crate::agent::error_withholding::ErrorWithholder {
            consecutive_errors: 0,
            max_attempts: 3,
            base_delay_ms: 1000,
        },
    }
}

// ── Compressing on demand ───────────────────────────────────────────────────

/// A compression that the user asked for.
#[derive(Debug)]
pub struct CompactRun {
    pub rows: Vec<Message>,
    pub pipeline: CompressionPipeline,
    pub before_tokens: u64,
}

/// What is said of a compression that changed something, given the share of the
/// window as text.
pub open spec fn compacted_text(
    action: CompressionAction,
    before: u64,
    after: u64,
    window: u64,
    share: Seq<char>,
) -> Seq<char> {
    "已压缩("@ + forge::label_of(action) + "):"@ + text::dec(before as nat) + " → "@ + text::dec(
        after as nat,
    ) + " tokens(窗口 "@ + text::dec(window as nat) + ",约占 "@ + share + "%)。\n"@
}

/// What is said of a compression that changed nothing.
pub open spec fn nothing_to_compact_text(before: u64, window: u64) -> Seq<char> {
    "当前上下文无需压缩:"@ + text::dec(before as nat) + " tokens(窗口 "@ + text::dec(window as nat)
        + "),已无可安全压缩的内容。\n"@
}

/// The events of a compression that the user asked for.
pub open spec fn compact_events(
    action: CompressionAction,
    before: u64,
    after: u64,
    window: u64,
    share: Seq<char>,
) -> Seq<EventView> {
    seq![
        EventView::ContextCompressed { before_tokens: before, after_tokens: after, window },
        EventView::Token {
            content: if action != CompressionAction::Nothing || after < before {
                compacted_text(action, before, after, window, share)
            } else {
                nothing_to_compact_text(before, window)
            },
        },
        EventView::Complete { usage: None },
    ]
}

impl CompactRun {
    /// Starts the compression of a conversation. Where the step asks for a
    /// summary, its reply goes to [`CompactRun::on_summary`].
    pub fn compact_now(history: Vec<Message>, tools: &[ToolDef], config: ContextConfig) -> (r: (
        CompactRun,
        CompressionStep,
    ))
        ensures
            ({
                let rows = tool_chain::validated(trait_def::views(history@));
                let tool_tokens = context::tool_tokens(trait_def::tool_views(tools@)) as u64;
                &&& (compression::Pass { rows: trait_def::views(r.0.rows@), step: r.1@ })
                    == compression::forced(rows)
                &&& r.0.before_tokens == forge_run::prompt_tokens(rows, tool_tokens)
                &&& r.0.pipeline.tool_tokens == tool_tokens
                &&& r.0.pipeline.context_config == config
            }),
    {
        let mut rows = validate_tool_chain_for_provider(history);
        let mut pipeline = CompressionPipeline::new(config).with_tools(tools);
        let before_tokens = count_prompt(&rows, pipeline.tool_tokens);
        let step = pipeline.force_apply(&mut rows);
        (CompactRun { rows, pipeline, before_tokens }, step)
    }

    /// Takes the model's reply to the summary; `None` where the call failed.
    pub fn on_summary(&mut self, reply: Option<&str>) -> (r: CompressionAction)
        ensures
            (compression::Compressed { rows: trait_def::views(final(self).rows@), action: r })
                == compression::forced_finished(
                trait_def::views(old(self).rows@),
                compression::reply_text(reply),
            ),
            final(self).before_tokens == old(self).before_tokens,
            final(self).pipeline == old(self).pipeline.after(r),
    {
        self.pipeline.finish_force(&mut self.rows, reply)
    }

    /// The tokens of the conversation as it is now.
    pub fn after_tokens(&self) -> (r: u64)
        ensures
            r == forge_run::prompt_tokens(trait_def::views(self.rows@), self.pipeline.tool_tokens),
    {
        count_prompt(&self.rows, self.pipeline.tool_tokens)
    }

    /// The events that end the compression, given the share of the window that
    /// is now used, in percent, as text.
    pub fn report(&self, action: CompressionAction, share: &str) -> (r: Vec<StreamEvent>)
        ensures
            stream::event_views(r@) == compact_events(
                action,
                self.before_tokens,
                forge_run::prompt_tokens(trait_def::views(self.rows@), self.pipeline.tool_tokens),
                self.pipeline.context_config.window_tokens,
                share@,
            ),
    {
        let before = self.before_tokens;
        let after = self.after_tokens();
        let window = self.pipeline.context_config.window_tokens;
        let said = if action != CompressionAction::Nothing || after < before {
            cat3("已压缩(", action_label(&action), "):").concat(decimal(before).as_str()).concat(
                " → ",
            ).concat(decimal(after).as_str()).concat(" tokens(窗口 ").concat(
                decimal(window).as_str(),
            ).concat(",约占 ").concat(share).concat("%)。\n")
        } else {
            cat3("当前上下文无需压缩:", decimal(before).as_str(), " tokens(窗口 ").concat(
                decimal(window).as_str(),
            ).concat("),已无可安全压缩的内容。\n")
        };
        let mut events: Vec<StreamEvent> = Vec::new();
        events.push(
            StreamEvent::ContextCompressed { before_tokens: before, after_tokens: after, window },
        );
        events.push(StreamEvent::Token { content: said });
        events.push(StreamEvent::Complete { usage: None });
        assert(stream::event_views(events@) =~= compact_events(action, before, after, window, share@));
        events
    }
}

// ── The interview ───────────────────────────────────────────────────────────

/// How many characters of an interview's text are shown at a time.
pub const PLAN_CHUNK_CHARS: usize = 48;

/// A text in pieces of 48 characters, as events.
pub open spec fn pieces(s: Seq<char>) -> Seq<EventView>
    decreases s.len(),
{
    if s.len() == 0 {
        Seq::empty()
    } else if s.len() <= 48 {
        seq![EventView::Token { content: s }]
    } else {
        seq![EventView::Token { content: s.take(48) }] + pieces(s.skip(48))
    }
}

/// The events of a turn of the interview.
pub open spec fn plan_turn(md: Seq<char>, question: Option<EventView>) -> Seq<EventView> {
    pieces(md) + (match question {
        Some(q) => seq![q],
        None => Seq::empty(),
    }) + seq![EventView::Complete { usage: None }]
}

/// The texts that some events show, one after another.
pub open spec fn shown(s: Seq<EventView>) -> Seq<char>
    decreases s.len(),
{
    if s.len() == 0 {
        Seq::empty()
    } else {
        (match s[0] {
            EventView::Token { content } => content,
            _ => Seq::empty(),
        }) + shown(s.drop_first())
    }
}

/// The value of an optional event.
pub open spec fn opt_event(o: Option<StreamEvent>) -> Option<EventView> {
    match o {
        Some(e) => Some(e@),
        None => None,
    }
}

/// Shows a turn of the interview: its text, piece by piece, its question, and the
/// end of the turn.
pub fn emit_plan_turn(md: &str, question: Option<StreamEvent>) -> (r: Vec<StreamEvent>)
    ensures
        stream::event_views(r@) == plan_turn(md@, opt_event(question)),
{
    let chars = chars_of(md);
    let n: usize = chars.len();
    let mut events: Vec<StreamEvent> = Vec::new();
    let mut i: usize = 0;
    assert(md@.skip(0) =~= md@);
    assert(stream::event_views(events@) + pieces(md@) =~= pieces(md@));
    while i < n
        invariant
            chars@ == md@,
            n == md@.len(),
            i <= n,
            stream::event_views(events@) + pieces(md@.skip(i as int)) == pieces(md@),
        decreases n - i,
    {
        let end: usize = if n - i < PLAN_CHUNK_CHARS {
            n
        } else {
            i + PLAN_CHUNK_CHARS
        };
        let piece = copy_range(chars.as_slice(), i, end);
        let ghost before = events@;
        let ghost rest = md@.skip(i as int);
        let e = StreamEvent::Token { content: text_of(piece.as_slice()) };
        events.push(e);
        proof {
            stream::lemma_event_views_push(before, events@.last());
            if rest.len() <= 48 {
                assert(piece@ =~= rest);
                assert(md@.skip(end as int) =~= Seq::<char>::empty());
            } else {
                assert(piece@ =~= rest.take(48));
                assert(md@.skip(end as int) =~= rest.skip(48));
            }
            assert(stream::event_views(events@) + pieces(md@.skip(end as int))
                =~= stream::event_views(before) + pieces(rest));
        }
        i = end;
    }
    assert(md@.skip(n as int) =~= Seq::<char>::empty());
    assert(stream::event_views(events@) =~= pieces(md@));
    let ghost asked = opt_event(question);
    if let Some(q) = question {
        events.push(q);
    }
    events.push(StreamEvent::Complete { usage: None });
    assert(stream::event_views(events@) =~= plan_turn(md@, asked));
    events
}

proof fn lemma_shown_apart(a: Seq<EventView>, b: Seq<EventView>)
    ensures
        shown(a + b) == shown(a) + shown(b),
    decreases a.len(),
{
    if a.len() == 0 {
        assert(a + b =~= b);
        assert(shown(a) + shown(b) =~= shown(b));
    } else {
        assert((a + b).drop_first() =~= a.drop_first() + b);
        lemma_shown_apart(a.drop_first(), b);
        assert(shown(a + b) =~= shown(a) + shown(b));
    }
}

/// The pieces of an interview's text make up the text.
pub proof fn law_pieces_make_the_text(md: Seq<char>)
    ensures
        shown(pieces(md)) == md,
    decreases md.len(),
{
    if md.len() == 0 {
        assert(shown(pieces(md)) =~= md);
    } else {
        let first = if md.len() <= 48 {
            md
        } else {
            md.take(48)
        };
        let rest = md.skip(first.len() as int);
        law_pieces_make_the_text(rest);
        let one = seq![EventView::Token { content: first }];
        assert(one.drop_first() =~= Seq::<EventView>::empty());
        reveal_with_fuel(shown, 2);
        assert(shown(one) =~= first);
        lemma_shown_apart(one, pieces(rest));
        assert(pieces(md) =~= one + pieces(rest));
        assert(first + rest =~= md);
    }
}

/// Ends a turn in which an interview could not start.
pub fn plan_start_failed(error: &str) -> (r: Vec<StreamEvent>)
    ensures
        stream::event_views(r@) == forge_run::ending("Failed to start plan: "@ + error@),
{
    ending_events(cat2("Failed to start plan: ", error))
}

/// Ends a turn in which an interview failed.
pub fn plan_failed(error: &str) -> (r: Vec<StreamEvent>)
    ensures
        stream::event_views(r@) == forge_run::ending("Plan error: "@ + error@),
{
    ending_events(cat2("Plan error: ", error))
}

/// Ends a turn with an answer for an interview that is gone.
pub fn plan_missing() -> (r: Vec<StreamEvent>)
    ensures
        stream::event_views(r@) == answer("No active plan. Start with `/plan <goal>`.\n"@),
{
    answer_events("No active plan. Start with `/plan <goal>`.\n")
}

// ── A run of its own ────────────────────────────────────────────────────────

/// What is said before a run whose subtasks go side by side.
pub open spec fn parallel_notice(teams: bool) -> Option<Seq<char>> {
    if teams {
        Some("_Teams + /auto: independent subtasks will run auto spirals in parallel._\n\n"@)
    } else {
        None
    }
}

/// What is said of a run that ended, given the average quality as text.
pub open spec fn auto_finished_text(
    teams: bool,
    done: nat,
    total: nat,
    average: Seq<char>,
) -> Seq<char> {
    "\n**"@ + (if teams {
        "Auto+Teams"@
    } else {
        "Auto"@
    }) + " finished.** "@ + text::dec(done) + "/"@ + text::dec(total) + " subtasks done, avg quality "@
        + average + "/100.\n"@
}

impl Forge {
    /// The settings of a run of its own.
    pub fn auto_runner(&self) -> (r: AutoRunner)
        ensures
            r.working_dir@ == self.working_dir@,
            r.permission_timeout_secs == (if self.permission_timeout_secs < 10 {
                10
            } else {
                self.permission_timeout_secs
            }),
            r.magi_max_rounds == 3,
            r.magi_max_steps == 12,
            r.teams_parallel == self.teams_mode,
            r.max_parallel == 4,
            r.max_recompose_cycles == runner::DEFAULT_MAX_REDECOMPOSE_CYCLES,
            r.stall_rounds == runner::DEFAULT_STALL_ROUNDS,
    {
        AutoRunner::new(self.working_dir.as_str()).with_permission_timeout(
            self.permission_timeout_secs,
        ).with_magi_max_rounds(3).with_magi_max_steps(12).with_teams_parallel(
            self.teams_mode,
        ).with_max_parallel(4)
    }

    /// What to say before a run of its own.
    pub fn auto_notice(&self) -> (r: Option<StreamEvent>)
        ensures
            opt_event(r) == (match parallel_notice(self.teams_mode) {
                Some(s) => Some(EventView::Token { content: s }),
                None => None,
            }),
    {
        if self.teams_mode {
            Some(
                StreamEvent::Token {
                    content: "_Teams + /auto: independent subtasks will run auto spirals in parallel._\n\n".to_string(),
                },
            )
        } else {
            None
        }
    }

    /// The events after a run of its own, given the average quality as text.
    pub fn auto_finished(&self, subtasks: &Vec<Subtask>, average: &str) -> (r: Vec<StreamEvent>)
        ensures
            stream::event_views(r@) == answer(
                auto_finished_text(
                    self.teams_mode,
                    runner::count_done(subtask::task_views(subtasks@), subtasks@.len() as int),
                    subtasks@.len(),
                    average@,
                ),
            ),
    {
        let ghost s = subtask::task_views(subtasks@);
        let n: usize = subtasks.len();
        let mut done: usize = 0;
        for i in 0..n
            invariant
                n == subtasks@.len(),
                s == subtask::task_views(subtasks@),
                done == runner::count_done(s, i as int),
                done <= i,
        {
            assert(s[i as int] == subtasks@[i as int]@);
            if let SubtaskStatus::Done = &subtasks[i].status {
                done = done + 1;
            }
        }
        let mode = if self.teams_mode {
            "Auto+Teams"
        } else {
            "Auto"
        };
        let said = cat3("\n**", mode, " finished.** ").concat(
            decimal(done as u64).as_str(),
        ).concat("/").concat(decimal(n as u64).as_str()).concat(
            " subtasks done, avg quality ",
        ).concat(average).concat("/100.\n");
        answer_events(said.as_str())
    }
}

/// Ends a turn in which a run of its own failed.
pub fn auto_failed(error: &str) -> (r: Vec<StreamEvent>)
    ensures
        stream::event_views(r@) == forge_run::ending("/auto failed: "@ + error@),
{
    ending_events(cat2("/auto failed: ", error))
}

// ── Laws ────────────────────────────────────────────────────────────────────

proof fn lemma_completions_apart(a: Seq<EventView>, b: Seq<EventView>)
    ensures
        stream::completions(a + b) == stream::completions(a) + stream::completions(b),
    decreases b.len(),
{
    if b.len() == 0 {
        assert(a + b =~= a);
    } else {
        assert((a + b).drop_last() =~= a + b.drop_last());
        lemma_completions_apart(a, b.drop_last());
    }
}

proof fn lemma_one_event(e: EventView)
    ensures
        stream::completions(seq![e]) == (if e is Complete {
            1nat
        } else {
            0
        }),
{
    stream::lemma_completions_push(Seq::<EventView>::empty(), e);
    assert(seq![e] =~= Seq::<EventView>::empty().push(e));
}

proof fn lemma_pieces_complete_nothing(s: Seq<char>)
    ensures
        stream::completions(pieces(s)) == 0,
    decreases s.len(),
{
    if 0 < s.len() <= 48 {
        lemma_one_event(EventView::Token { content: s });
    } else if s.len() > 48 {
        lemma_pieces_complete_nothing(s.skip(48));
        lemma_one_event(EventView::Token { content: s.take(48) });
        lemma_completions_apart(
            seq![EventView::Token { content: s.take(48) }],
            pieces(s.skip(48)),
        );
    }
}

/// Whether some events report the end of a turn: one `Complete`, as the last.
pub open spec fn end_a_turn(s: Seq<EventView>) -> bool {
    s.len() > 0 && s.last() is Complete && stream::completions(s) == 1
}

/// Every turn that needs no conversation with the model reports its end with one
/// `Complete`, as its last event: an input that is answered at once, a failure, a
/// compression, and a turn of the interview, whose question is no `Complete`.
pub proof fn law_short_turns_report_end(
    said: Seq<char>,
    action: CompressionAction,
    before: u64,
    after: u64,
    window: u64,
    share: Seq<char>,
    question: Option<EventView>,
)
    requires
        question is Some ==> !(question->0 is Complete),
    ensures
        end_a_turn(answer(said)),
        end_a_turn(forge_run::ending(said)),
        end_a_turn(compact_events(action, before, after, window, share)),
        end_a_turn(plan_turn(said, question)),
{
    let complete = EventView::Complete { usage: None };
    let token = EventView::Token { content: said };
    let error = EventView::Error { content: said };
    lemma_one_event(complete);
    lemma_one_event(token);
    lemma_one_event(error);
    lemma_completions_apart(seq![token], seq![complete]);
    assert(answer(said) =~= seq![token] + seq![complete]);
    lemma_completions_apart(seq![error], seq![complete]);
    assert(forge_run::ending(said) =~= seq![error] + seq![complete]);
    let c = compact_events(action, before, after, window, share);
    lemma_one_event(c[0]);
    lemma_one_event(c[1]);
    lemma_completions_apart(seq![c[0]], seq![c[1]]);
    lemma_completions_apart(seq![c[0]] + seq![c[1]], seq![complete]);
    assert(c =~= seq![c[0]] + seq![c[1]] + seq![complete]);
    let asked = match question {
        Some(q) => seq![q],
        None => Seq::<EventView>::empty(),
    };
    if question is Some {
        lemma_one_event(question->0);
    }
    assert(stream::completions(asked) == 0);
    lemma_pieces_complete_nothing(said);
    lemma_completions_apart(pieces(said), asked);
    lemma_completions_apart(pieces(said) + asked, seq![complete]);
}

/// A turn starts from what it should: the instructions, the newest of the history in its
/// order, and what the user said, as the last row and unaltered.
pub proof fn law_turn_ends_with_what_was_said(
    f: Forge,
    switch: Option<bool>,
    skill_prompt: Seq<char>,
    history: Seq<MessageView>,
    input: Seq<char>,
)
    ensures
        ({
            let rows = turn_rows(f, switch, skill_prompt, history, input);
            let middle = rows.subrange(1, rows.len() - 1);
            &&& rows.len() >= 2
            &&& rows[0].role == Role::System
            &&& text::starts(rows[0].content.text(), f.system_prompt@)
            &&& text::has_part(rows[0].content.text(), skill_prompt)
            &&& rows.last().role == Role::User
            &&& rows.last().content == trait_def::ContentView::Text(input)
            &&& middle.is_suffix_of(history)
            &&& middle.len() <= f.max_history_messages
            &&& history.len() <= f.max_history_messages && (history.len() == 0 || history[0].role
                != Role::Tool) ==> middle == history
        }),
{
    let rows = turn_rows(f, switch, skill_prompt, history, input);
    let h = context::recent(history, f.max_history_messages as nat);
    forge::law_prompt_tells_all(f.system_prompt@, switch, f.working_dir@, skill_prompt);
    context::law_context_starts_no_orphan(history, f.max_history_messages as nat);
    context::law_context_is_the_newest(history, f.max_history_messages as nat);
    assert(rows.subrange(1, rows.len() - 1) =~= h);
}

/// Every skill that was matched is told to the model.
pub proof fn law_matched_skills_are_told(s: Seq<skills::SkillView>, i: int)
    requires
        0 <= i < s.len(),
    ensures
        text::has_part(told_skills(s), skills::prompt_of(s[i])),
    decreases s.len(),
{
    let none = Seq::<char>::empty();
    let front = told_skills(s.drop_last());
    let last = skills::prompt_of(s.last());
    if i == s.len() - 1 {
        text::lemma_part_at(front, last, "\n"@);
    } else {
        assert(s.drop_last()[i] == s[i]);
        law_matched_skills_are_told(s.drop_last(), i);
        text::lemma_part_of_part(none, front, last + "\n"@, skills::prompt_of(s[i]));
        assert(none + front + (last + "\n"@) =~= told_skills(s));
    }
}

} // verus!
