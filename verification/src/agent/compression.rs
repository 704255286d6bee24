//! Multi-level context compression.
//!
//! When a conversation outgrows the model's window, escalating levels shrink
//! it:
//!
//! | Level | Above                       | What it does                              |
//! |-------|-----------------------------|-------------------------------------------|
//! | L0    | the threshold less 20 %     | snips stale tool outputs, keeps the last 3 |
//! | L1    | the threshold               | drops the oldest half of the rows         |
//! | L2    | the threshold and 5 %       | cuts long tool outputs to 500 characters  |
//! | L3    | the threshold and 10 %      | has the model summarise the oldest 70 %   |
//! | L4    | the threshold and 15 %      | keeps the newest 20 % and a hint          |
//!
//! L0 cannot be undone: the placeholder replaces the output.
//!
//! No level removes the last user row or anything behind it: that row is the
//! instruction of the turn. [`law_apply_keeps_instruction`] and
//! [`law_force_keeps_instruction`] say so for a whole pass.
//!
//! Only L3 needs the model. A pass that wants a summary says so with a
//! [`CompressionStep::Summarize`]; the caller asks the model and hands the reply
//! to [`CompressionPipeline::finish_apply`] or
//! [`CompressionPipeline::finish_force`].

use crate::agent::context;
use crate::agent::context::{compression_prompt, conversation_tokens, count_tokens, count_tool_def_tokens};
use crate::agent::tool_chain;
use crate::config::settings::ContextConfig;
use crate::providers::trait_def;
use crate::providers::trait_def::{copy_onto, ContentView, Message, MessageContent, MessageView, Role, ToolDef};
use crate::text;
use crate::text::{cat3, decimal, same, take_chars};
use vstd::prelude::*;
use vstd::string::*;

verus! {

// ── Actions ─────────────────────────────────────────────────────────────────

/// The outcome of one compression pass.
#[derive(Debug, Clone, Copy, PartialEq, Eq, Structural)]
pub enum CompressionAction {
    /// No compression was needed or possible.
    Nothing,
    /// Stale tool outputs were replaced by a placeholder (L0).
    Snipped { snipped: usize },
    /// Oldest non-system messages were dropped (L1).
    Truncated { removed: usize },
    /// Verbose tool outputs were cut to short tags (L2).
    TagCompressed { compressed: usize },
    /// Oldest messages were summarised by the model (L3).
    LlmSummarized { summarized: usize, summary_tokens: u64 },
    /// The context was chunked and a continuation hint inserted (L4).
    Chunked { chunks: usize },
}

/// What a pass came to: an action, or the need for a summary by the model.
#[derive(Debug)]
pub enum CompressionStep {
    Done(CompressionAction),
    Summarize(SummaryRequest),
}

/// A summary that the model is asked for.
#[derive(Debug)]
pub struct SummaryRequest {
    /// The prompt for the model.
    pub prompt: String,
    /// What L0 did in the same pass.
    pub snipped: Option<CompressionAction>,
}

/// The value of a step.
pub enum StepView {
    Done(CompressionAction),
    Summarize(Seq<char>, Option<CompressionAction>),
}

impl View for CompressionStep {
    type V = StepView;

    open spec fn view(&self) -> StepView {
        match self {
            CompressionStep::Done(action) => StepView::Done(*action),
            CompressionStep::Summarize(r) => StepView::Summarize(r.prompt@, r.snipped),
        }
    }
}

/// The rows after a level, and what it did.
#[verifier::ext_equal]
pub struct Compressed {
    pub rows: Seq<MessageView>,
    pub action: CompressionAction,
}

// ── Rows ────────────────────────────────────────────────────────────────────

/// Rows that are not system rows.
pub open spec fn not_system() -> spec_fn(MessageView) -> bool {
    |m: MessageView| m.role != Role::System
}

/// System rows.
pub open spec fn is_system() -> spec_fn(MessageView) -> bool {
    |m: MessageView| m.role == Role::System
}

/// The rows that are not system rows.
pub open spec fn turns(s: Seq<MessageView>) -> Seq<MessageView> {
    s.filter(not_system())
}

/// The last user row, or -1.
pub open spec fn last_user(s: Seq<MessageView>) -> int
    decreases s.len(),
{
    if s.len() == 0 {
        -1
    } else if s.last().role == Role::User {
        s.len() - 1
    } else {
        last_user(s.drop_last())
    }
}

/// Whether a split of the rows at `k` keeps the instruction of the turn: the
/// last user row and all behind it, or at least one row where there is none.
pub open spec fn keeps_instruction(s: Seq<MessageView>, k: int) -> bool {
    if last_user(s) >= 0 {
        k <= last_user(s)
    } else {
        k < s.len()
    }
}

/// The first row from `k` on at which the rows may be split without parting a
/// call from its answer: neither a tool row nor an assistant that asks for
/// tools.
pub open spec fn aligned(s: Seq<MessageView>, k: int) -> int
    decreases s.len() - k,
{
    if 0 <= k < s.len() && (s[k].role == Role::Tool || tool_chain::asks_tools(s[k])) {
        aligned(s, k + 1)
    } else {
        k
    }
}

/// The texts of the system rows that have one, with an empty line between them.
pub open spec fn joined_system(s: Seq<MessageView>) -> Seq<char>
    decreases s.len(),
{
    if s.len() == 0 {
        Seq::empty()
    } else {
        let front = joined_system(s.drop_last());
        let m = s.last();
        if m.role == Role::System && m.content.text().len() > 0 {
            if front.len() == 0 {
                m.content.text()
            } else {
                front + "\n\n"@ + m.content.text()
            }
        } else {
            front
        }
    }
}

fn select_rows(messages: &Vec<Message>, system: bool) -> (r: Vec<Message>)
    ensures
        trait_def::views(r@) == (if system {
            trait_def::views(messages@).filter(is_system())
        } else {
            turns(trait_def::views(messages@))
        }),
{
    let ghost s = trait_def::views(messages@);
    let ghost p = if system {
        is_system()
    } else {
        not_system()
    };
    let n: usize = messages.len();
    let mut r: Vec<Message> = Vec::new();
    proof {
        reveal(Seq::filter);
        assert(trait_def::views(r@) =~= s.take(0).filter(p));
    }
    for i in 0..n
        invariant
            n == messages@.len(),
            s == trait_def::views(messages@),
            p == (if system {
                is_system()
            } else {
                not_system()
            }),
            trait_def::views(r@) == s.take(i as int).filter(p),
    {
        proof {
            text::lemma_filter_take(s, i as int, p);
        }
        if (messages[i].role == Role::System) == system {
            let m = messages[i].clone();
            proof {
                trait_def::lemma_views_push(r@, m);
            }
            r.push(m);
        }
    }
    assert(s.take(n as int) =~= s);
    r
}

fn find_last_user(messages: &Vec<Message>) -> (r: Option<usize>)
    ensures
        match r {
            Some(i) => i < messages@.len() && last_user(trait_def::views(messages@)) == i,
            None => last_user(trait_def::views(messages@)) == -1,
        },
{
    let ghost s = trait_def::views(messages@);
    let mut n: usize = messages.len();
    assert(s.take(n as int) =~= s);
    while n > 0
        invariant
            n <= messages@.len(),
            s == trait_def::views(messages@),
            last_user(s) == last_user(s.take(n as int)),
        decreases n,
    {
        assert(s.take(n as int).drop_last() =~= s.take(n - 1));
        if messages[n - 1].role == Role::User {
            return Some(n - 1);
        }
        n = n - 1;
    }
    None
}

/// Whether a split at `split_idx` keeps the live instruction: everything from
/// the last user row on. Without a user row the split must leave something.
pub fn split_keeps_instruction(messages: &Vec<Message>, split_idx: usize) -> (b: bool)
    ensures
        b == keeps_instruction(trait_def::views(messages@), split_idx as int),
{
    match find_last_user(messages) {
        Some(i) => split_idx <= i,
        None => split_idx < messages.len(),
    }
}

fn align_split(messages: &Vec<Message>, from: usize) -> (r: usize)
    requires
        from <= messages@.len(),
    ensures
        r == aligned(trait_def::views(messages@), from as int),
        from <= r <= messages@.len(),
{
    let ghost s = trait_def::views(messages@);
    let n: usize = messages.len();
    let mut k: usize = from;
    while k < n && (messages[k].role == Role::Tool || tool_chain::row_asks_tools(&messages[k]))
        invariant
            from <= k <= n == messages@.len(),
            s == trait_def::views(messages@),
            aligned(s, from as int) == aligned(s, k as int),
        decreases n - k,
    {
        k = k + 1;
    }
    k
}

/// Joins the texts of all system rows.
pub fn joined_system_content(messages: &Vec<Message>) -> (r: String)
    ensures
        r@ == joined_system(trait_def::views(messages@)),
{
    let ghost s = trait_def::views(messages@);
    let n: usize = messages.len();
    let mut r = String::new();
    for i in 0..n
        invariant
            n == messages@.len(),
            s == trait_def::views(messages@),
            r@ == joined_system(s.take(i as int)),
    {
        assert(s.take(i + 1).drop_last() =~= s.take(i as int));
        let t = messages[i].content.text_or_empty();
        if messages[i].role == Role::System && !t.is_empty() {
            if r.as_str().is_empty() {
                r = t.to_string();
            } else {
                r.append("\n\n");
                r.append(t);
            }
        }
    }
    assert(s.take(n as int) =~= s);
    r
}

// ── L0: snip stale tool outputs ─────────────────────────────────────────────

/// What replaces a snipped tool output.
pub open spec fn placeholder() -> Seq<char> {
    "[tool output snipped by context compression — re-run the command if you need it again; for file reads, read the file again]"@
}

fn placeholder_text() -> (r: &'static str)
    ensures
        r@ == placeholder(),
{
    "[tool output snipped by context compression — re-run the command if you need it again; for file reads, read the file again]"
}

/// How many rows from `k` on are tool rows.
pub open spec fn tool_rows_from(s: Seq<MessageView>, k: int) -> nat
    decreases s.len() - k,
{
    if 0 <= k < s.len() {
        tool_rows_from(s, k + 1) + (if s[k].role == Role::Tool {
            1nat
        } else {
            0
        })
    } else {
        0
    }
}

/// Whether row `i` is a tool row with `keep` or more tool rows behind it and a
/// body of more than 120 bytes that is not the placeholder.
pub open spec fn is_stale(s: Seq<MessageView>, keep: nat, i: int) -> bool {
    &&& s[i].role == Role::Tool
    &&& tool_rows_from(s, i + 1) >= keep
    &&& vstd::utf8::encode_utf8(s[i].content.text()).len() > 120
    &&& s[i].content.text() != placeholder()
}

/// The rows with stale tool outputs replaced by the placeholder.
pub open spec fn snipped(s: Seq<MessageView>, keep: nat) -> Seq<MessageView> {
    Seq::new(
        s.len(),
        |i: int|
            if is_stale(s, keep, i) {
                MessageView { content: ContentView::Text(placeholder()), ..s[i] }
            } else {
                s[i]
            },
    )
}

/// How many of the first `n` rows are stale.
pub open spec fn stale_rows(s: Seq<MessageView>, keep: nat, n: int) -> nat
    decreases n,
{
    if n <= 0 {
        0
    } else {
        stale_rows(s, keep, n - 1) + (if is_stale(s, keep, n - 1) {
            1nat
        } else {
            0
        })
    }
}

/// What L0 does.
pub open spec fn snip_action(s: Seq<MessageView>) -> Option<CompressionAction> {
    let n = stale_rows(s, 3, s.len() as int);
    if n > 0 {
        Some(CompressionAction::Snipped { snipped: n as usize })
    } else {
        None
    }
}

proof fn lemma_stale_rows(s: Seq<MessageView>, keep: nat, n: int)
    requires
        0 <= n,
    ensures
        stale_rows(s, keep, n) <= n,
    decreases n,
{
    if n > 0 {
        lemma_stale_rows(s, keep, n - 1);
    }
}

/// Replaces the bodies of stale tool rows, keeping the most recent
/// `keep_recent` tool results intact, and says how many it replaced.
pub fn snip_stale_tool_results(messages: &mut Vec<Message>, keep_recent: usize) -> (r: usize)
    ensures
        trait_def::views(final(messages)@) == snipped(
            trait_def::views(old(messages)@),
            keep_recent as nat,
        ),
        r == stale_rows(
            trait_def::views(old(messages)@),
            keep_recent as nat,
            old(messages)@.len() as int,
        ),
{
    let ghost s = trait_def::views(messages@);
    let ghost keep = keep_recent as nat;
    let n: usize = messages.len();
    let mut rows: Vec<Message> = Vec::new();
    let mut count: usize = 0;
    let mut total: usize = 0;
    for i in 0..n
        invariant
            n == messages@.len(),
            s == trait_def::views(messages@),
            total + tool_rows_from(s, i as int) == tool_rows_from(s, 0),
            total <= i,
    {
        if messages[i].role == Role::Tool {
            total = total + 1;
        }
    }
    // Tool rows from the current row on.
    let mut left: usize = total;
    for i in 0..n
        invariant
            n == messages@.len(),
            s == trait_def::views(messages@),
            keep == keep_recent,
            left == tool_rows_from(s, i as int),
            trait_def::views(rows@) == snipped(s, keep).take(i as int),
            count == stale_rows(s, keep, i as int),
            count <= i,
    {
        let mut m = messages[i].clone();
        let is_tool = m.role == Role::Tool;
        if is_tool {
            left = left - 1;
        }
        let body = m.content.text_or_empty();
        let stale = is_tool && left >= keep_recent && body.as_bytes().len() > 120 && !same(
            body,
            placeholder_text(),
        );
        if stale {
            m.content = MessageContent::Text(placeholder_text().to_string());
            count = count + 1;
        }
        proof {
            assert(stale == is_stale(s, keep, i as int));
            trait_def::lemma_views_push(rows@, m);
            assert(snipped(s, keep).take(i + 1) =~= snipped(s, keep).take(i as int).push(
                snipped(s, keep)[i as int],
            ));
        }
        rows.push(m);
    }
    assert(snipped(s, keep).take(n as int) =~= snipped(s, keep));
    *messages = rows;
    count
}

// ── L1: drop the oldest half ────────────────────────────────────────────────

/// The rows after the oldest half of the turns is dropped, moved forward so
/// that no call is parted from its answer. All system rows stay.
pub open spec fn truncated(s: Seq<MessageView>) -> Compressed {
    let t = turns(s);
    let k = aligned(t, t.len() as int / 2);
    if t.len() < 2 || k >= t.len() || !keeps_instruction(t, k) {
        Compressed { rows: s, action: CompressionAction::Nothing }
    } else {
        Compressed {
            rows: s.filter(is_system()) + t.skip(k),
            action: CompressionAction::Truncated { removed: k as usize },
        }
    }
}

/// Drops the oldest half of the turns.
pub fn truncate_oldest(messages: &mut Vec<Message>) -> (r: CompressionAction)
    ensures
        (Compressed { rows: trait_def::views(final(messages)@), action: r }) == truncated(
            trait_def::views(old(messages)@),
        ),
{
    let ghost s = trait_def::views(messages@);
    let rest = select_rows(messages, false);
    let n: usize = rest.len();
    assert(n == turns(s).len());
    if n < 2 {
        return CompressionAction::Nothing;
    }
    let k: usize = align_split(&rest, n / 2);
    if k >= n || !split_keeps_instruction(&rest, k) {
        return CompressionAction::Nothing;
    }
    let mut rows = select_rows(messages, true);
    copy_onto(&mut rows, rest.as_slice(), k);
    *messages = rows;
    CompressionAction::Truncated { removed: k }
}

// ── L2: cut long tool outputs ───────────────────────────────────────────────

/// A tool row with a body of more than 2000 characters.
pub open spec fn is_verbose(m: MessageView) -> bool {
    m.role == Role::Tool && m.content.text().len() > 2000
}

/// The tag that stands for a long tool output.
pub open spec fn output_tag(body: Seq<char>) -> Seq<char> {
    "[tool output truncated: "@ + text::dec(body.len()) + " → 500 chars] "@ + text::first_chars(
        body,
        500,
    ) + "…"@
}

/// A row with its body cut where it is long.
pub open spec fn tagged_row(m: MessageView) -> MessageView {
    if is_verbose(m) {
        MessageView { content: ContentView::Text(output_tag(m.content.text())), ..m }
    } else {
        m
    }
}

/// How many rows are verbose.
pub open spec fn verbose_rows(s: Seq<MessageView>) -> nat
    decreases s.len(),
{
    if s.len() == 0 {
        0
    } else {
        verbose_rows(s.drop_last()) + (if is_verbose(s.last()) {
            1nat
        } else {
            0
        })
    }
}

/// The rows with long tool outputs cut.
pub open spec fn tagged(s: Seq<MessageView>) -> Compressed {
    if verbose_rows(s) > 0 {
        Compressed {
            rows: s.map_values(|m: MessageView| tagged_row(m)),
            action: CompressionAction::TagCompressed { compressed: verbose_rows(s) as usize },
        }
    } else {
        Compressed { rows: s, action: CompressionAction::Nothing }
    }
}

fn tag_row(m: &Message) -> (r: Option<Message>)
    ensures
        match r {
            Some(t) => is_verbose(m@) && t@ == tagged_row(m@),
            None => !is_verbose(m@),
        },
{
    let body = m.content.text_or_empty();
    let len: usize = body.unicode_len();
    if m.role != Role::Tool || len <= 2000 {
        return None;
    }
    let tag = cat3("[tool output truncated: ", decimal(len as u64).as_str(), " → 500 chars] ").concat(
        take_chars(body, 500).as_str(),
    ).concat("…");
    let mut t = m.clone();
    t.content = MessageContent::Text(tag);
    Some(t)
}

/// Cuts verbose tool outputs to a tag with their first 500 characters.
pub fn tag_compress_tool_outputs(messages: &mut Vec<Message>) -> (r: CompressionAction)
    ensures
        (Compressed { rows: trait_def::views(final(messages)@), action: r }) == tagged(
            trait_def::views(old(messages)@),
        ),
{
    let ghost s = trait_def::views(messages@);
    let ghost t = s.map_values(|m: MessageView| tagged_row(m));
    let n: usize = messages.len();
    let mut rows: Vec<Message> = Vec::new();
    let mut count: usize = 0;
    for i in 0..n
        invariant
            n == messages@.len(),
            s == trait_def::views(messages@),
            t == s.map_values(|m: MessageView| tagged_row(m)),
            trait_def::views(rows@) == t.take(i as int),
            count == verbose_rows(s.take(i as int)),
            count <= i,
    {
        assert(s.take(i + 1).drop_last() =~= s.take(i as int));
        assert(t.take(i + 1) =~= t.take(i as int).push(t[i as int]));
        let m = match tag_row(&messages[i]) {
            Some(m) => {
                count = count + 1;
                m
            },
            None => messages[i].clone(),
        };
        proof {
            trait_def::lemma_views_push(rows@, m);
        }
        rows.push(m);
    }
    assert(s.take(n as int) =~= s);
    assert(t.take(n as int) =~= t);
    if count > 0 {
        *messages = rows;
        CompressionAction::TagCompressed { compressed: count }
    } else {
        CompressionAction::Nothing
    }
}

// ── L3: summary by the model ────────────────────────────────────────────────

/// How many of the oldest turns a summary would stand for, where one is
/// possible: seven tenths, moved forward so that no call is parted from its
/// answer, and not past the instruction.
pub open spec fn summary_split(s: Seq<MessageView>) -> Option<int> {
    let t = turns(s);
    let k = aligned(t, t.len() as int * 7 / 10);
    if t.len() == 0 || k == 0 || k >= t.len() || !keeps_instruction(t, k) {
        None
    } else {
        Some(k)
    }
}

/// The prompt for that summary.
pub open spec fn prompt_for(s: Seq<MessageView>) -> Seq<char> {
    context::summary_prompt(turns(s).take(summary_split(s)->0), 65536)
}

/// The rows after a summary, where one is possible and the model gave one.
pub open spec fn summarized(s: Seq<MessageView>, reply: Option<Seq<char>>) -> Compressed {
    if summary_split(s) is None || reply is None || reply->0.len() == 0 {
        Compressed { rows: s, action: CompressionAction::Nothing }
    } else {
        let k = summary_split(s)->0;
        Compressed {
            rows: seq![
                trait_def::text_message(
                    Role::System,
                    joined_system(s) + "\n\n## Conversation Summary (L3 Compression)\n"@ + reply->0,
                ),
            ] + turns(s).skip(k),
            action: CompressionAction::LlmSummarized {
                summarized: k as usize,
                summary_tokens: context::tokens(reply->0) as u64,
            },
        }
    }
}

fn find_summary_split(rest: &Vec<Message>, Ghost(s): Ghost<Seq<MessageView>>) -> (r: Option<usize>)
    requires
        trait_def::views(rest@) == turns(s),
    ensures
        match r {
            Some(k) => summary_split(s) == Some(k as int) && 0 < k < rest@.len(),
            None => summary_split(s) is None,
        },
{
    let n: usize = rest.len();
    assert(n == turns(s).len());
    if n == 0 {
        return None;
    }
    let share: usize = (n / 10) * 7 + (n % 10) * 7 / 10;
    assert(share == n as int * 7 / 10);
    let k: usize = align_split(rest, share);
    if k == 0 || k >= n || !split_keeps_instruction(rest, k) {
        return None;
    }
    Some(k)
}

/// The prompt for a summary of the oldest turns, where one is possible.
pub fn summary_request(messages: &Vec<Message>) -> (r: Option<String>)
    ensures
        match r {
            Some(p) => summary_split(trait_def::views(messages@)) is Some && p@ == prompt_for(
                trait_def::views(messages@),
            ),
            None => summary_split(trait_def::views(messages@)) is None,
        },
{
    let ghost s = trait_def::views(messages@);
    let mut rest = select_rows(messages, false);
    match find_summary_split(&rest, Ghost(s)) {
        Some(k) => {
            let ghost all = rest@;
            rest.truncate(k);
            assert(trait_def::views(rest@) =~= trait_def::views(all).take(k as int));
            Some(compression_prompt(rest.as_slice(), 65536))
        },
        None => None,
    }
}

/// Puts the model's summary in place of the oldest turns.
pub fn llm_summarize(messages: &mut Vec<Message>, reply: Option<&str>) -> (r: CompressionAction)
    ensures
        (Compressed { rows: trait_def::views(final(messages)@), action: r }) == summarized(
            trait_def::views(old(messages)@),
            (match reply {
                Some(t) => Some(t@),
                None => None,
            }),
        ),
{
    let ghost s = trait_def::views(messages@);
    let rest = select_rows(messages, false);
    let k: usize = match find_summary_split(&rest, Ghost(s)) {
        Some(k) => k,
        None => return CompressionAction::Nothing,
    };
    let summary = match reply {
        Some(t) => t,
        None => return CompressionAction::Nothing,
    };
    if summary.is_empty() {
        return CompressionAction::Nothing;
    }
    let head = joined_system_content(messages);
    let body = cat3(head.as_str(), "\n\n## Conversation Summary (L3 Compression)\n", summary);
    let mut rows: Vec<Message> = Vec::new();
    rows.push(Message::from_text(Role::System, body));
    assert(trait_def::views(rows@) =~= seq![trait_def::text_message(Role::System, body@)]);
    copy_onto(&mut rows, rest.as_slice(), k);
    *messages = rows;
    CompressionAction::LlmSummarized { summarized: k, summary_tokens: count_tokens(summary) }
}

// ── L4: keep the newest fifth ───────────────────────────────────────────────

/// Where L4 splits the turns: before the newest fifth, past tool rows whose
/// calls would be missing, and not past the last user row.
pub open spec fn chunk_split(t: Seq<MessageView>) -> int {
    let keep = if t.len() < 5 {
        1
    } else {
        t.len() as int / 5
    };
    let from = context::past_tool_rows(t, t.len() - keep);
    if last_user(t) >= 0 && last_user(t) < from {
        last_user(t)
    } else {
        from
    }
}

/// The hint that stands for the dropped turns.
pub open spec fn chunk_hint(removed: nat) -> Seq<char> {
    "[CONTINUATION] Previous context was chunked (L4). "@ + text::dec(removed)
        + " messages removed. Pick up from the last checkpoint."@
}

/// The rows after L4.
pub open spec fn chunked(s: Seq<MessageView>) -> Compressed {
    let t = turns(s);
    let k = chunk_split(t);
    if t.len() == 0 || k == 0 || k >= t.len() {
        Compressed { rows: s, action: CompressionAction::Nothing }
    } else {
        Compressed {
            rows: seq![
                trait_def::text_message(
                    Role::System,
                    joined_system(s) + "\n\n"@ + chunk_hint(k as nat),
                ),
            ] + t.skip(k),
            action: CompressionAction::Chunked { chunks: 1 },
        }
    }
}

/// Keeps the newest fifth of the turns and puts a continuation hint before it.
pub fn chunk_and_continue(messages: &mut Vec<Message>) -> (r: CompressionAction)
    ensures
        (Compressed { rows: trait_def::views(final(messages)@), action: r }) == chunked(
            trait_def::views(old(messages)@),
        ),
{
    let ghost s = trait_def::views(messages@);
    let ghost t = turns(s);
    let rest = select_rows(messages, false);
    let n: usize = rest.len();
    assert(n == t.len());
    if n == 0 {
        return CompressionAction::Nothing;
    }
    let keep: usize = if n < 5 {
        1
    } else {
        n / 5
    };
    let mut k: usize = n - keep;
    let ghost from = k as int;
    while k < n && rest[k].role == Role::Tool
        invariant
            0 <= from <= k <= n == rest@.len(),
            t == trait_def::views(rest@),
            context::past_tool_rows(t, from) == context::past_tool_rows(t, k as int),
        decreases n - k,
    {
        k = k + 1;
    }
    if let Some(u) = find_last_user(&rest) {
        if u < k {
            k = u;
        }
    }
    if k == 0 || k >= n {
        return CompressionAction::Nothing;
    }
    let hint = cat3(
        "[CONTINUATION] Previous context was chunked (L4). ",
        decimal(k as u64).as_str(),
        " messages removed. Pick up from the last checkpoint.",
    );
    let body = cat3(joined_system_content(messages).as_str(), "\n\n", hint.as_str());
    let mut rows: Vec<Message> = Vec::new();
    rows.push(Message::from_text(Role::System, body));
    assert(trait_def::views(rows@) =~= seq![trait_def::text_message(Role::System, body@)]);
    copy_onto(&mut rows, rest.as_slice(), k);
    *messages = rows;
    CompressionAction::Chunked { chunks: 1 }
}

// ── The ladder ──────────────────────────────────────────────────────────────

/// The level that a pass starts with.
#[derive(Debug, Clone, Copy, PartialEq, Eq, Structural)]
pub enum Level {
    Idle,
    Truncate,
    Tag,
    Summarize,
    Chunk,
}

/// The configured threshold, held between a tenth and 85 hundredths, in
/// millionths.
pub open spec fn base_threshold(configured: u32) -> int {
    if configured < 100_000 {
        100_000
    } else if configured > 850_000 {
        850_000
    } else {
        configured as int
    }
}

/// The threshold of L0: one step below the base, and never below a tenth.
pub open spec fn snip_threshold(base: int) -> int {
    if base - 200_000 < 100_000 {
        100_000
    } else {
        base - 200_000
    }
}

/// Whether `total` tokens are more than the share `threshold` of the window.
pub open spec fn exceeds(total: nat, window: u64, threshold: int) -> bool {
    total * 1_000_000 > window * threshold
}

/// The level for `total` tokens. A cheap pass goes no further than L1.
pub open spec fn level_for(total: nat, window: u64, base: int, cheap: bool) -> Level {
    if !exceeds(total, window, base) {
        Level::Idle
    } else if cheap || !exceeds(total, window, base + 50_000) {
        Level::Truncate
    } else if !exceeds(total, window, base + 100_000) {
        Level::Tag
    } else if !exceeds(total, window, base + 150_000) {
        Level::Summarize
    } else {
        Level::Chunk
    }
}

/// A level's action where it did something, else what L0 did.
pub open spec fn preferred(
    action: CompressionAction,
    l0: Option<CompressionAction>,
) -> CompressionAction {
    if action == CompressionAction::Nothing {
        match l0 {
            Some(a) => a,
            None => CompressionAction::Nothing,
        }
    } else {
        action
    }
}

/// Reports a level's action when it did something, else L0's snip.
pub fn prefer_level(action: CompressionAction, l0: Option<CompressionAction>) -> (r:
    CompressionAction)
    ensures
        r == preferred(action, l0),
{
    if action == CompressionAction::Nothing {
        match l0 {
            Some(a) => a,
            None => CompressionAction::Nothing,
        }
    } else {
        action
    }
}

/// The threshold above which L0 snips stale tool outputs, in millionths.
pub fn l0_threshold(base: u32) -> (r: u32)
    ensures
        r == snip_threshold(base as int),
{
    if base < 300_000 {
        100_000
    } else {
        base - 200_000
    }
}

/// Rows and step of a pass.
#[verifier::ext_equal]
pub struct Pass {
    pub rows: Seq<MessageView>,
    pub step: StepView,
}

/// A pass that is done, with L1 and what L0 did as its fallback.
pub open spec fn or_truncated(first: Compressed, l0: Option<CompressionAction>) -> Compressed {
    if first.action == CompressionAction::Nothing {
        let t = truncated(first.rows);
        Compressed { rows: t.rows, action: preferred(t.action, l0) }
    } else {
        first
    }
}

/// A pass that is done.
pub open spec fn done(c: Compressed) -> Pass {
    Pass { rows: c.rows, step: StepView::Done(c.action) }
}

/// Whether L0 runs in a pass.
pub open spec fn snips(total: nat, config: ContextConfig) -> bool {
    exceeds(total, config.window_tokens, snip_threshold(base_threshold(config.compress_threshold)))
}

/// The level of a pass over `s` with `tool_tokens` tokens of tool definitions.
pub open spec fn level_of(
    s: Seq<MessageView>,
    config: ContextConfig,
    cheap: bool,
    tool_tokens: u64,
) -> Level {
    level_for(
        context::message_tokens(s) + tool_tokens as nat,
        config.window_tokens,
        base_threshold(config.compress_threshold),
        cheap,
    )
}

/// The rows after L0, where it runs.
pub open spec fn after_snip(s: Seq<MessageView>, config: ContextConfig, tool_tokens: u64) -> Seq<
    MessageView,
> {
    if snips(context::message_tokens(s) + tool_tokens as nat, config) {
        snipped(s, 3)
    } else {
        s
    }
}

/// What L0 did, where it runs.
pub open spec fn snip_of(s: Seq<MessageView>, config: ContextConfig, tool_tokens: u64) -> Option<
    CompressionAction,
> {
    if snips(context::message_tokens(s) + tool_tokens as nat, config) {
        snip_action(s)
    } else {
        None
    }
}

/// What a pass over `s` does.
pub open spec fn pass(
    s: Seq<MessageView>,
    config: ContextConfig,
    cheap: bool,
    tool_tokens: u64,
) -> Pass {
    let rows = after_snip(s, config, tool_tokens);
    let l0 = snip_of(s, config, tool_tokens);
    let unchanged = Compressed { rows, action: CompressionAction::Nothing };
    if config.window_tokens == 0 {
        Pass { rows: s, step: StepView::Done(CompressionAction::Nothing) }
    } else {
        match level_of(s, config, cheap, tool_tokens) {
            Level::Idle => done(
                Compressed { rows, action: preferred(CompressionAction::Nothing, l0) },
            ),
            Level::Truncate => done(or_truncated(unchanged, l0)),
            Level::Tag => done(or_truncated(tagged(rows), l0)),
            Level::Summarize => if summary_split(rows) is Some {
                Pass { rows, step: StepView::Summarize(prompt_for(rows), l0) }
            } else {
                done(or_truncated(unchanged, l0))
            },
            Level::Chunk => done(or_truncated(chunked(rows), l0)),
        }
    }
}

/// What a pass does with the reply to the summary that it asked for.
pub open spec fn finished(
    rows: Seq<MessageView>,
    l0: Option<CompressionAction>,
    reply: Option<Seq<char>>,
) -> Compressed {
    or_truncated(summarized(rows, reply), l0)
}

/// The levels that run when the provider itself says that the window is
/// exceeded, after the summary: the first that changes something wins, and the
/// one that cannot be undone comes last.
pub open spec fn forced_local(s: Seq<MessageView>) -> Compressed {
    if chunked(s).action != CompressionAction::Nothing {
        chunked(s)
    } else if tagged(s).action != CompressionAction::Nothing {
        tagged(s)
    } else if truncated(s).action != CompressionAction::Nothing {
        truncated(s)
    } else if stale_rows(s, 3, s.len() as int) > 0 {
        Compressed {
            rows: snipped(s, 3),
            action: CompressionAction::Snipped { snipped: stale_rows(s, 3, s.len() as int) as usize },
        }
    } else {
        Compressed { rows: s, action: CompressionAction::Nothing }
    }
}

/// What a forced pass does before any summary.
pub open spec fn forced(s: Seq<MessageView>) -> Pass {
    if summary_split(s) is Some {
        Pass { rows: s, step: StepView::Summarize(prompt_for(s), None) }
    } else {
        done(forced_local(s))
    }
}

/// What a forced pass does with the reply to the summary that it asked for.
pub open spec fn forced_finished(s: Seq<MessageView>, reply: Option<Seq<char>>) -> Compressed {
    if summarized(s, reply).action != CompressionAction::Nothing {
        summarized(s, reply)
    } else {
        forced_local(s)
    }
}

/// The text of an optional reply.
pub open spec fn reply_text(reply: Option<&str>) -> Option<Seq<char>> {
    match reply {
        Some(t) => Some(t@),
        None => None,
    }
}

/// `total` is `None` where the tokens are too many to count.
fn is_over(total: Option<u64>, window: u64, threshold: u32, Ghost(n): Ghost<nat>) -> (b: bool)
    requires
        total == context::fitting(n),
        threshold <= 1_000_000,
    ensures
        b == exceeds(n, window, threshold as int),
{
    proof {
        assert(window * threshold <= u64::MAX * 1_000_000) by (nonlinear_arith)
            requires
                window <= u64::MAX,
                threshold <= 1_000_000,
        ;
    }
    match total {
        Some(t) => (t as u128) * 1_000_000 > (window as u128) * (threshold as u128),
        None => true,
    }
}

proof fn lemma_tag_nothing(s: Seq<MessageView>)
    ensures
        tagged(s).action == CompressionAction::Nothing ==> tagged(s).rows == s,
        chunked(s).action == CompressionAction::Nothing ==> chunked(s).rows == s,
        truncated(s).action == CompressionAction::Nothing ==> truncated(s).rows == s,
        forall|reply: Option<Seq<char>>|
            (#[trigger] summarized(s, reply)).action == CompressionAction::Nothing ==> summarized(
                s,
                reply,
            ).rows == s,
{
}

// ── The pipeline ────────────────────────────────────────────────────────────

/// The compression pipeline of one turn.
#[derive(Debug)]
pub struct CompressionPipeline {
    /// Window size and threshold.
    pub context_config: ContextConfig,
    /// Whether a pass of the current turn has changed something.
    pub applied_this_turn: bool,
    /// Only the levels that cost nothing run (L0 and L1).
    pub cheap_only: bool,
    /// Tokens of the tool definitions that go with every request.
    pub tool_tokens: u64,
}

impl CompressionPipeline {
    /// A pipeline for the given window.
    pub fn new(context_config: ContextConfig) -> (r: Self)
        ensures
            r == (CompressionPipeline {
                context_config,
                applied_this_turn: false,
                cheap_only: false,
                tool_tokens: 0,
            }),
    {
        CompressionPipeline {
            context_config,
            applied_this_turn: false,
            cheap_only: false,
            tool_tokens: 0,
        }
    }

    /// Accounts for the tool definitions that go with every request.
    pub fn with_tools(self, tools: &[ToolDef]) -> (r: Self)
        ensures
            r == (CompressionPipeline {
                tool_tokens: context::tool_tokens(trait_def::tool_views(tools@)) as u64,
                ..self
            }),
            r.tool_tokens == context::tool_tokens(trait_def::tool_views(tools@)),
    {
        CompressionPipeline { tool_tokens: count_tool_def_tokens(tools), ..self }
    }

    /// Resets the state of the turn.
    pub fn reset(&mut self)
        ensures
            *final(self) == (CompressionPipeline {
                applied_this_turn: false,
                cheap_only: false,
                ..*old(self)
            }),
    {
        self.applied_this_turn = false;
        self.cheap_only = false;
    }

    /// Records that a pass changed something, and hands the action back.
    pub fn applied(&mut self, action: CompressionAction) -> (r: CompressionAction)
        ensures
            r == action,
            *final(self) == old(self).after(action),
    {
        if action != CompressionAction::Nothing {
            self.applied_this_turn = true;
        }
        action
    }

    /// The pipeline after a pass with the action.
    pub open spec fn after(self, action: CompressionAction) -> Self {
        CompressionPipeline {
            applied_this_turn: self.applied_this_turn || action != CompressionAction::Nothing,
            ..self
        }
    }

    fn truncate_after(
        &mut self,
        messages: &mut Vec<Message>,
        first: CompressionAction,
        l0: Option<CompressionAction>,
    ) -> (r: CompressionAction)
        ensures
            (Compressed { rows: trait_def::views(final(messages)@), action: r }) == or_truncated(
                Compressed { rows: trait_def::views(old(messages)@), action: first },
                l0,
            ),
            *final(self) == old(self).after(r),
    {
        if first == CompressionAction::Nothing {
            let action = truncate_oldest(messages);
            self.applied(prefer_level(action, l0))
        } else {
            self.applied(first)
        }
    }

    /// Applies the level that the size of the prompt calls for.
    ///
    /// Where that is a summary, the step carries the prompt for the model; its
    /// reply goes to [`CompressionPipeline::finish_apply`].
    pub fn apply(&mut self, messages: &mut Vec<Message>) -> (r: CompressionStep)
        ensures
            (Pass { rows: trait_def::views(final(messages)@), step: r@ }) == pass(
                trait_def::views(old(messages)@),
                old(self).context_config,
                old(self).cheap_only,
                old(self).tool_tokens,
            ),
            *final(self) == (match r {
                CompressionStep::Done(action) => old(self).after(action),
                CompressionStep::Summarize(_) => *old(self),
            }),
    {
        let window: u64 = self.context_config.window_tokens;
        if window == 0 {
            return CompressionStep::Done(CompressionAction::Nothing);
        }
        let ghost s = trait_def::views(messages@);
        let ghost config = self.context_config;
        let ghost total_tokens = context::message_tokens(s) + self.tool_tokens as nat;
        let total: Option<u64> = match conversation_tokens(messages.as_slice()) {
            Some(n) => n.checked_add(self.tool_tokens),
            None => None,
        };
        let ghost n = total_tokens;
        let configured: u32 = self.context_config.compress_threshold;
        let base: u32 = if configured < 100_000 {
            100_000
        } else if configured > 850_000 {
            850_000
        } else {
            configured
        };
        let mut l0: Option<CompressionAction> = None;
        if is_over(total, window, l0_threshold(base), Ghost(n)) {
            proof {
                lemma_stale_rows(s, 3, s.len() as int);
            }
            let snipped: usize = snip_stale_tool_results(messages, 3);
            if snipped > 0 {
                l0 = Some(CompressionAction::Snipped { snipped });
            }
        }
        let ghost rows = trait_def::views(messages@);
        assert(rows == after_snip(s, config, self.tool_tokens));
        assert(l0 == snip_of(s, config, self.tool_tokens));
        proof {
            lemma_tag_nothing(rows);
        }
        let first = if !is_over(total, window, base, Ghost(n)) {
            return CompressionStep::Done(
                self.applied(prefer_level(CompressionAction::Nothing, l0)),
            );
        } else if self.cheap_only || !is_over(total, window, base + 50_000, Ghost(n)) {
            CompressionAction::Nothing
        } else if !is_over(total, window, base + 100_000, Ghost(n)) {
            tag_compress_tool_outputs(messages)
        } else if !is_over(total, window, base + 150_000, Ghost(n)) {
            if let Some(prompt) = summary_request(messages) {
                return CompressionStep::Summarize(SummaryRequest { prompt, snipped: l0 });
            }
            CompressionAction::Nothing
        } else {
            chunk_and_continue(messages)
        };
        CompressionStep::Done(self.truncate_after(messages, first, l0))
    }

    /// Takes the model's reply to the summary that [`CompressionPipeline::apply`]
    /// asked for; `None` where the call failed.
    pub fn finish_apply(
        &mut self,
        messages: &mut Vec<Message>,
        snipped: Option<CompressionAction>,
        reply: Option<&str>,
    ) -> (r: CompressionAction)
        ensures
            (Compressed { rows: trait_def::views(final(messages)@), action: r }) == finished(
                trait_def::views(old(messages)@),
                snipped,
                reply_text(reply),
            ),
            *final(self) == old(self).after(r),
    {
        let ghost s = trait_def::views(messages@);
        let first = llm_summarize(messages, reply);
        self.truncate_after(messages, first, snipped)
    }

    /// Compresses regardless of the thresholds: the provider has said that the
    /// prompt exceeds its window.
    ///
    /// A summary is wanted first. Its prompt is in the step; the model's reply
    /// goes to [`CompressionPipeline::finish_force`].
    pub fn force_apply(&mut self, messages: &mut Vec<Message>) -> (r: CompressionStep)
        ensures
            (Pass { rows: trait_def::views(final(messages)@), step: r@ }) == forced(
                trait_def::views(old(messages)@),
            ),
            *final(self) == (match r {
                CompressionStep::Done(action) => old(self).after(action),
                CompressionStep::Summarize(_) => *old(self),
            }),
    {
        if let Some(prompt) = summary_request(messages) {
            return CompressionStep::Summarize(SummaryRequest { prompt, snipped: None });
        }
        CompressionStep::Done(self.force_local(messages))
    }

    /// Takes the model's reply to the summary that
    /// [`CompressionPipeline::force_apply`] asked for; `None` where the call
    /// failed.
    pub fn finish_force(&mut self, messages: &mut Vec<Message>, reply: Option<&str>) -> (r:
        CompressionAction)
        ensures
            (Compressed { rows: trait_def::views(final(messages)@), action: r })
                == forced_finished(trait_def::views(old(messages)@), reply_text(reply)),
            *final(self) == old(self).after(r),
    {
        proof {
            lemma_tag_nothing(trait_def::views(messages@));
        }
        let action = llm_summarize(messages, reply);
        if action != CompressionAction::Nothing {
            return self.applied(action);
        }
        self.force_local(messages)
    }

    fn force_local(&mut self, messages: &mut Vec<Message>) -> (r: CompressionAction)
        ensures
            (Compressed { rows: trait_def::views(final(messages)@), action: r }) == forced_local(
                trait_def::views(old(messages)@),
            ),
            *final(self) == old(self).after(r),
    {
        let ghost s = trait_def::views(messages@);
        proof {
            lemma_tag_nothing(s);
            lemma_stale_rows(s, 3, s.len() as int);
        }
        let action = chunk_and_continue(messages);
        if action != CompressionAction::Nothing {
            return self.applied(action);
        }
        let action = tag_compress_tool_outputs(messages);
        if action != CompressionAction::Nothing {
            return self.applied(action);
        }
        let action = truncate_oldest(messages);
        if action != CompressionAction::Nothing {
            return self.applied(action);
        }
        let count: usize = snip_stale_tool_results(messages, 3);
        if count > 0 {
            return self.applied(CompressionAction::Snipped { snipped: count });
        }
        proof {
            lemma_nothing_snipped(s);
        }
        CompressionAction::Nothing
    }
}

/// Rows without a stale one stay as they are.
proof fn lemma_nothing_snipped(s: Seq<MessageView>)
    requires
        stale_rows(s, 3, s.len() as int) == 0,
    ensures
        snipped(s, 3) == s,
{
    assert forall|i: int| 0 <= i < s.len() implies !is_stale(s, 3, i) by {
        lemma_no_stale_rows(s, 3, s.len() as int, i);
    }
    assert(snipped(s, 3) =~= s);
}

proof fn lemma_no_stale_rows(s: Seq<MessageView>, keep: nat, n: int, i: int)
    requires
        0 <= i < n,
        stale_rows(s, keep, n) == 0,
    ensures
        !is_stale(s, keep, i),
    decreases n,
{
    if i < n - 1 {
        lemma_no_stale_rows(s, keep, n - 1, i);
    }
}

// ── Laws ────────────────────────────────────────────────────────────────────

/// The instruction of the turn: the last user row and all turns behind it.
pub open spec fn instruction(s: Seq<MessageView>) -> Seq<MessageView> {
    if last_user(turns(s)) >= 0 {
        turns(s).skip(last_user(turns(s)))
    } else {
        Seq::empty()
    }
}

/// Whether `b` is the row `a`, but for the body of a tool row.
pub open spec fn row_rewritten(a: MessageView, b: MessageView) -> bool {
    a == b || (a.role == Role::Tool && b == MessageView { content: b.content, ..a })
}

/// Whether `b` are the rows `a`, but for the bodies of tool rows.
pub open spec fn rewritten(a: Seq<MessageView>, b: Seq<MessageView>) -> bool {
    a.len() == b.len() && forall|i: int|
        0 <= i < a.len() ==> row_rewritten(#[trigger] a[i], b[i])
}

/// Whether `t` still holds the instruction of `s`: no row of it is gone, and
/// only bodies of tool rows in it have changed. Where `s` has turns, so has `t`.
pub open spec fn keeps_instruction_of(s: Seq<MessageView>, t: Seq<MessageView>) -> bool {
    &&& rewritten(instruction(s), instruction(t))
    &&& turns(s).len() > 0 ==> turns(t).len() > 0
}

proof fn lemma_turns_push(s: Seq<MessageView>, m: MessageView)
    ensures
        turns(s.push(m)) == (if m.role != Role::System {
            turns(s).push(m)
        } else {
            turns(s)
        }),
{
    s.lemma_filter_push(m, not_system());
}

/// Among rows that are all turns, the turns are these rows.
proof fn lemma_turns_of_turns(s: Seq<MessageView>)
    requires
        forall|i: int| 0 <= i < s.len() ==> (#[trigger] s[i]).role != Role::System,
    ensures
        turns(s) == s,
    decreases s.len(),
{
    if s.len() == 0 {
        reveal(Seq::filter);
        assert(turns(s) =~= s);
    } else {
        lemma_turns_of_turns(s.drop_last());
        assert(s.drop_last().push(s.last()) =~= s);
        lemma_turns_push(s.drop_last(), s.last());
    }
}

/// Among system rows there are no turns.
proof fn lemma_turns_of_system(s: Seq<MessageView>)
    requires
        forall|i: int| 0 <= i < s.len() ==> (#[trigger] s[i]).role == Role::System,
    ensures
        turns(s) == Seq::<MessageView>::empty(),
    decreases s.len(),
{
    if s.len() == 0 {
        reveal(Seq::filter);
        assert(turns(s) =~= Seq::<MessageView>::empty());
    } else {
        lemma_turns_of_system(s.drop_last());
        assert(s.drop_last().push(s.last()) =~= s);
        lemma_turns_push(s.drop_last(), s.last());
    }
}

/// The turns of system rows before other turns.
proof fn lemma_turns_behind_system(head: Seq<MessageView>, tail: Seq<MessageView>)
    requires
        forall|i: int| 0 <= i < head.len() ==> (#[trigger] head[i]).role == Role::System,
        forall|i: int| 0 <= i < tail.len() ==> (#[trigger] tail[i]).role != Role::System,
    ensures
        turns(head + tail) == tail,
{
    lemma_turns_of_system(head);
    lemma_turns_of_turns(tail);
    Seq::filter_distributes_over_add(head, tail, not_system());
    assert(turns(head + tail) =~= tail);
}

proof fn lemma_turns_are_turns(s: Seq<MessageView>)
    ensures
        forall|i: int| 0 <= i < turns(s).len() ==> (#[trigger] turns(s)[i]).role != Role::System,
        forall|i: int|
            0 <= i < s.filter(is_system()).len() ==> (#[trigger] s.filter(is_system())[i]).role
                == Role::System,
{
    broadcast use vstd::seq_lib::group_filter_ensures;

}

proof fn lemma_last_user(t: Seq<MessageView>)
    ensures
        -1 <= last_user(t) < t.len(),
        last_user(t) >= 0 ==> t[last_user(t)].role == Role::User,
    decreases t.len(),
{
    if t.len() > 0 {
        lemma_last_user(t.drop_last());
    }
}

proof fn lemma_last_user_skip(t: Seq<MessageView>, k: int)
    requires
        0 <= k <= last_user(t),
    ensures
        last_user(t.skip(k)) == last_user(t) - k,
    decreases t.len(),
{
    lemma_last_user(t);
    if t.last().role != Role::User {
        assert(t.skip(k).drop_last() =~= t.drop_last().skip(k));
        lemma_last_user_skip(t.drop_last(), k);
    }
}

/// The instruction among turns alone.
spec fn tail_of(t: Seq<MessageView>) -> Seq<MessageView> {
    if last_user(t) >= 0 {
        t.skip(last_user(t))
    } else {
        Seq::empty()
    }
}

proof fn lemma_tail_skip(t: Seq<MessageView>, k: int)
    requires
        0 <= k < t.len(),
        keeps_instruction(t, k),
    ensures
        tail_of(t.skip(k)) == tail_of(t),
{
    lemma_last_user(t);
    if last_user(t) >= 0 {
        lemma_last_user_skip(t, k);
        assert(t.skip(k).skip(last_user(t) - k) =~= t.skip(last_user(t)));
    } else {
        lemma_no_user_skip(t, k);
    }
}

/// Rows that are system rows followed by the turns of `s` from `k` on hold the
/// instruction of `s`, where the split keeps it.
proof fn lemma_split_keeps(s: Seq<MessageView>, head: Seq<MessageView>, k: int)
    requires
        0 <= k < turns(s).len(),
        keeps_instruction(turns(s), k),
        forall|i: int| 0 <= i < head.len() ==> (#[trigger] head[i]).role == Role::System,
    ensures
        keeps_instruction_of(s, head + turns(s).skip(k)),
{
    let t = turns(s);
    let r = t.skip(k);
    lemma_turns_are_turns(s);
    assert forall|i: int| 0 <= i < r.len() implies (#[trigger] r[i]).role != Role::System by {
        assert(r[i] == t[k + i]);
    }
    lemma_turns_behind_system(head, r);
    lemma_tail_skip(t, k);
    assert(instruction(head + r) == tail_of(r));
    assert(instruction(s) == tail_of(t));
}

proof fn lemma_no_user_skip(t: Seq<MessageView>, k: int)
    requires
        0 <= k <= t.len(),
        last_user(t) == -1,
    ensures
        last_user(t.skip(k)) == -1,
    decreases t.len(),
{
    if k < t.len() {
        assert(t.skip(k).drop_last() =~= t.drop_last().skip(k));
        lemma_no_user_skip(t.drop_last(), k);
    }
}

/// Rewriting tool bodies rewrites the turns.
proof fn lemma_turns_rewritten(a: Seq<MessageView>, b: Seq<MessageView>)
    requires
        rewritten(a, b),
    ensures
        rewritten(turns(a), turns(b)),
    decreases a.len(),
{
    if a.len() == 0 {
        reveal(Seq::filter);
    } else {
        let x = a.drop_last();
        let y = b.drop_last();
        assert forall|i: int| 0 <= i < x.len() implies row_rewritten(#[trigger] x[i], y[i]) by {
            assert(row_rewritten(a[i], b[i]));
        }
        lemma_turns_rewritten(x, y);
        assert(x.push(a.last()) =~= a);
        assert(y.push(b.last()) =~= b);
        lemma_turns_push(x, a.last());
        lemma_turns_push(y, b.last());
        assert(row_rewritten(a[a.len() - 1], b[a.len() - 1]));
    }
}

proof fn lemma_last_user_rewritten(a: Seq<MessageView>, b: Seq<MessageView>)
    requires
        rewritten(a, b),
    ensures
        last_user(a) == last_user(b),
    decreases a.len(),
{
    if a.len() > 0 {
        let x = a.drop_last();
        let y = b.drop_last();
        assert forall|i: int| 0 <= i < x.len() implies row_rewritten(#[trigger] x[i], y[i]) by {
            assert(row_rewritten(a[i], b[i]));
        }
        assert(row_rewritten(a[a.len() - 1], b[a.len() - 1]));
        lemma_last_user_rewritten(x, y);
    }
}

proof fn lemma_rewriting_keeps(a: Seq<MessageView>, b: Seq<MessageView>)
    requires
        rewritten(a, b),
    ensures
        keeps_instruction_of(a, b),
{
    lemma_turns_rewritten(a, b);
    lemma_last_user_rewritten(turns(a), turns(b));
    lemma_last_user(turns(a));
    let k = last_user(turns(a));
    if k >= 0 {
        assert forall|i: int| 0 <= i < instruction(a).len() implies row_rewritten(
            #[trigger] instruction(a)[i],
            instruction(b)[i],
        ) by {
            assert(row_rewritten(turns(a)[k + i], turns(b)[k + i]));
        }
    }
}

proof fn lemma_keeps_trans(a: Seq<MessageView>, b: Seq<MessageView>, c: Seq<MessageView>)
    requires
        keeps_instruction_of(a, b),
        keeps_instruction_of(b, c),
    ensures
        keeps_instruction_of(a, c),
{
    assert forall|i: int| 0 <= i < instruction(a).len() implies row_rewritten(
        #[trigger] instruction(a)[i],
        instruction(c)[i],
    ) by {
        assert(row_rewritten(instruction(a)[i], instruction(b)[i]));
        assert(row_rewritten(instruction(b)[i], instruction(c)[i]));
    }
}

proof fn lemma_keeps_refl(s: Seq<MessageView>)
    ensures
        keeps_instruction_of(s, s),
{
}

proof fn lemma_aligned(s: Seq<MessageView>, k: int)
    requires
        0 <= k <= s.len(),
    ensures
        k <= aligned(s, k) <= s.len(),
        aligned(s, k) < s.len() ==> s[aligned(s, k)].role != Role::Tool,
    decreases s.len() - k,
{
    if k < s.len() && (s[k].role == Role::Tool || tool_chain::asks_tools(s[k])) {
        lemma_aligned(s, k + 1);
    }
}

/// No level removes the last user row or anything behind it, and none changes
/// there more than the bodies of tool rows.
pub proof fn law_levels_keep_instruction(
    s: Seq<MessageView>,
    keep: nat,
    reply: Option<Seq<char>>,
)
    ensures
        keeps_instruction_of(s, snipped(s, keep)),
        keeps_instruction_of(s, truncated(s).rows),
        keeps_instruction_of(s, tagged(s).rows),
        keeps_instruction_of(s, summarized(s, reply).rows),
        keeps_instruction_of(s, chunked(s).rows),
{
    let t = turns(s);
    lemma_keeps_refl(s);
    lemma_turns_are_turns(s);
    lemma_rewriting_keeps(s, snipped(s, keep));
    lemma_rewriting_keeps(s, tagged(s).rows);
    lemma_aligned(t, t.len() as int / 2);
    if truncated(s).action != CompressionAction::Nothing {
        lemma_split_keeps(s, s.filter(is_system()), aligned(t, t.len() as int / 2));
    }
    lemma_aligned(t, t.len() as int * 7 / 10);
    if summarized(s, reply).action != CompressionAction::Nothing {
        let k = summary_split(s)->0;
        let head = summarized(s, reply).rows.take(1);
        assert(summarized(s, reply).rows =~= head + t.skip(k));
        lemma_split_keeps(s, head, k);
    }
    if chunked(s).action != CompressionAction::Nothing {
        let k = chunk_split(t);
        let head = chunked(s).rows.take(1);
        assert(chunked(s).rows =~= head + t.skip(k));
        lemma_last_user(t);
        lemma_past_tools(t, t.len() - (if t.len() < 5 {
            1
        } else {
            t.len() as int / 5
        }));
        lemma_split_keeps(s, head, k);
    }
}

proof fn lemma_past_tools(s: Seq<MessageView>, k: int)
    requires
        0 <= k <= s.len(),
    ensures
        k <= context::past_tool_rows(s, k) <= s.len(),
        context::past_tool_rows(s, k) < s.len() ==> s[context::past_tool_rows(s, k)].role
            != Role::Tool,
    decreases s.len() - k,
{
    if k < s.len() && s[k].role == Role::Tool {
        lemma_past_tools(s, k + 1);
    }
}

/// Whether no call was parted from its answer on the way from `before` to
/// `after`: where every tool row had been asked for it still is, and where every
/// call had been answered it still is.
pub open spec fn keeps_pairs(before: Seq<MessageView>, after: Seq<MessageView>) -> bool {
    &&& tool_chain::every_answer_is_asked_for(turns(before))
        ==> tool_chain::every_answer_is_asked_for(turns(after))
    &&& tool_chain::every_call_is_answered(turns(before)) ==> tool_chain::every_call_is_answered(
        turns(after),
    )
}

/// A split of the turns before a row that is no tool row keeps the pairs.
proof fn lemma_split_keeps_pairs(s: Seq<MessageView>, head: Seq<MessageView>, k: int)
    requires
        0 <= k < turns(s).len(),
        turns(s)[k].role != Role::Tool,
        forall|i: int| 0 <= i < head.len() ==> (#[trigger] head[i]).role == Role::System,
    ensures
        keeps_pairs(s, head + turns(s).skip(k)),
{
    let r = turns(s).skip(k);
    lemma_turns_are_turns(s);
    assert forall|i: int| 0 <= i < r.len() implies (#[trigger] r[i]).role != Role::System by {
        assert(r[i] == turns(s)[k + i]);
    }
    lemma_turns_behind_system(head, r);
    tool_chain::lemma_split_keeps_pairs(turns(s), k);
}

proof fn lemma_truncated_keeps_pairs(s: Seq<MessageView>)
    ensures
        keeps_pairs(s, truncated(s).rows),
{
    let t = turns(s);
    lemma_turns_are_turns(s);
    lemma_aligned(t, t.len() as int / 2);
    if truncated(s).action != CompressionAction::Nothing {
        lemma_split_keeps_pairs(s, s.filter(is_system()), aligned(t, t.len() as int / 2));
    }
}

proof fn lemma_summarized_keeps_pairs(s: Seq<MessageView>, reply: Option<Seq<char>>)
    ensures
        keeps_pairs(s, summarized(s, reply).rows),
{
    let t = turns(s);
    lemma_aligned(t, t.len() as int * 7 / 10);
    if summarized(s, reply).action != CompressionAction::Nothing {
        let k = summary_split(s)->0;
        let head = summarized(s, reply).rows.take(1);
        assert(summarized(s, reply).rows =~= head + t.skip(k));
        lemma_split_keeps_pairs(s, head, k);
    }
}

proof fn lemma_chunked_keeps_pairs(s: Seq<MessageView>)
    ensures
        keeps_pairs(s, chunked(s).rows),
{
    let t = turns(s);
    if chunked(s).action != CompressionAction::Nothing {
        let k = chunk_split(t);
        let head = chunked(s).rows.take(1);
        let from = t.len() - (if t.len() < 5 {
            1
        } else {
            t.len() as int / 5
        });
        lemma_last_user(t);
        lemma_past_tools(t, from);
        assert(chunked(s).rows =~= head + t.skip(k));
        lemma_split_keeps_pairs(s, head, k);
    }
}

/// No level that drops turns parts a call from its answer.
pub proof fn law_levels_keep_pairs(s: Seq<MessageView>, reply: Option<Seq<char>>)
    ensures
        keeps_pairs(s, truncated(s).rows),
        keeps_pairs(s, summarized(s, reply).rows),
        keeps_pairs(s, chunked(s).rows),
{
    lemma_truncated_keeps_pairs(s);
    lemma_summarized_keeps_pairs(s, reply);
    lemma_chunked_keeps_pairs(s);
}

/// A higher base threshold never lowers the one of L0, which stays below every
/// base threshold that a configuration can set, unless both are at a tenth.
pub proof fn law_snip_threshold_follows(base: u32, higher: u32)
    requires
        base <= higher,
    ensures
        snip_threshold(base_threshold(base)) <= snip_threshold(base_threshold(higher)),
        100_000 <= snip_threshold(base_threshold(base)) <= base_threshold(base),
        snip_threshold(base_threshold(base)) == base_threshold(base) ==> base_threshold(base)
            == 100_000,
{
}

proof fn lemma_or_truncated_keeps(
    s: Seq<MessageView>,
    first: Compressed,
    l0: Option<CompressionAction>,
)
    requires
        keeps_instruction_of(s, first.rows),
    ensures
        keeps_instruction_of(s, or_truncated(first, l0).rows),
{
    law_levels_keep_instruction(first.rows, 0, None);
    lemma_keeps_trans(s, first.rows, truncated(first.rows).rows);
}

/// A whole pass keeps the instruction of the turn, whichever levels run in it
/// and whatever the model replies to a request for a summary. A cheap pass
/// never asks the model.
pub proof fn law_apply_keeps_instruction(
    s: Seq<MessageView>,
    config: ContextConfig,
    cheap: bool,
    tool_tokens: u64,
    reply: Option<Seq<char>>,
)
    ensures
        keeps_instruction_of(s, pass(s, config, cheap, tool_tokens).rows),
        pass(s, config, cheap, tool_tokens).step matches StepView::Summarize(_, l0)
            ==> !cheap && keeps_instruction_of(
            s,
            finished(pass(s, config, cheap, tool_tokens).rows, l0, reply).rows,
        ),
{
    let rows = after_snip(s, config, tool_tokens);
    let l0 = snip_of(s, config, tool_tokens);
    lemma_keeps_refl(s);
    law_levels_keep_instruction(s, 3, reply);
    law_levels_keep_instruction(rows, 3, reply);
    assert(keeps_instruction_of(s, rows));
    lemma_keeps_trans(s, rows, tagged(rows).rows);
    lemma_keeps_trans(s, rows, chunked(rows).rows);
    lemma_keeps_trans(s, rows, summarized(rows, reply).rows);
    lemma_or_truncated_keeps(
        s,
        Compressed { rows, action: CompressionAction::Nothing },
        l0,
    );
    lemma_or_truncated_keeps(s, tagged(rows), l0);
    lemma_or_truncated_keeps(s, chunked(rows), l0);
    lemma_or_truncated_keeps(s, summarized(rows, reply), l0);
}

/// A forced pass keeps the instruction of the turn, and asks the model whenever
/// a summary is possible.
pub proof fn law_force_keeps_instruction(s: Seq<MessageView>, reply: Option<Seq<char>>)
    ensures
        keeps_instruction_of(s, forced(s).rows),
        keeps_instruction_of(s, forced_finished(s, reply).rows),
        forced(s).step is Summarize <==> summary_split(s) is Some,
{
    lemma_keeps_refl(s);
    law_levels_keep_instruction(s, 3, reply);
}

/// A pass that reports nothing has changed nothing, and one that asks for a
/// summary without having snipped has changed nothing yet.
pub proof fn law_nothing_means_unchanged(
    s: Seq<MessageView>,
    config: ContextConfig,
    cheap: bool,
    tool_tokens: u64,
)
    ensures
        pass(s, config, cheap, tool_tokens).step == StepView::Done(CompressionAction::Nothing)
            ==> pass(s, config, cheap, tool_tokens).rows == s,
        pass(s, config, cheap, tool_tokens).step matches StepView::Summarize(_, l0) ==> (l0 is None
            ==> pass(s, config, cheap, tool_tokens).rows == s) && l0 != Some(
            CompressionAction::Nothing,
        ),
{
    let rows = after_snip(s, config, tool_tokens);
    lemma_stale_rows(s, 3, s.len() as int);
    lemma_tag_nothing(rows);
    if snip_of(s, config, tool_tokens) is None && snips(
        context::message_tokens(s) + tool_tokens as nat,
        config,
    ) {
        lemma_nothing_snipped(s);
    }
}

/// A finished pass that reports nothing has changed nothing, and had not
/// snipped.
pub proof fn law_finished_nothing(
    rows: Seq<MessageView>,
    l0: Option<CompressionAction>,
    reply: Option<Seq<char>>,
)
    requires
        l0 != Some(CompressionAction::Nothing),
    ensures
        finished(rows, l0, reply).action == CompressionAction::Nothing ==> l0 is None && finished(
            rows,
            l0,
            reply,
        ).rows == rows,
{
    lemma_tag_nothing(rows);
}

/// Powers of ten.
spec fn ten_to(k: nat) -> nat
    decreases k,
{
    if k == 0 {
        1
    } else {
        10 * ten_to((k - 1) as nat)
    }
}

proof fn lemma_dec_len(n: nat, k: nat)
    requires
        k >= 1,
        n < ten_to(k),
    ensures
        text::dec(n).len() <= k,
    decreases k,
{
    if n >= 10 {
        if k == 1 {
            reveal_with_fuel(ten_to, 2);
        } else {
            lemma_dec_len(n / 10, (k - 1) as nat);
        }
    }
}

proof fn lemma_tag_is_short(m: MessageView)
    requires
        m.content.text().len() <= usize::MAX,
    ensures
        !is_verbose(tagged_row(m)),
        tagged_row(tagged_row(m)) == tagged_row(m),
{
    let body = m.content.text();
    reveal_strlit("[tool output truncated: ");
    reveal_strlit(" → 500 chars] ");
    reveal_strlit("…");
    assert(ten_to(20) == 100_000_000_000_000_000_000) by {
        reveal_with_fuel(ten_to, 21);
    }
    lemma_dec_len(body.len(), 20);
    if is_verbose(m) {
        assert(output_tag(body).len() <= 600);
        assert(tagged_row(m).content.text() == output_tag(body));
    }
}

proof fn lemma_nothing_verbose(s: Seq<MessageView>)
    requires
        forall|i: int| 0 <= i < s.len() ==> !is_verbose(#[trigger] s[i]),
    ensures
        verbose_rows(s) == 0,
    decreases s.len(),
{
    if s.len() > 0 {
        lemma_nothing_verbose(s.drop_last());
        assert(!is_verbose(s[s.len() - 1]));
    }
}

/// Cutting long tool outputs once is enough: a second time nothing is left to cut.
pub proof fn law_tagging_twice_is_once(s: Seq<MessageView>)
    requires
        forall|i: int| 0 <= i < s.len() ==> (#[trigger] s[i]).content.text().len() <= usize::MAX,
    ensures
        tagged(tagged(s).rows) == (Compressed {
            rows: tagged(s).rows,
            action: CompressionAction::Nothing,
        }),
{
    if verbose_rows(s) > 0 {
        let t = tagged(s).rows;
        assert forall|i: int| 0 <= i < t.len() implies !is_verbose(#[trigger] t[i]) by {
            lemma_tag_is_short(s[i]);
        }
        lemma_nothing_verbose(t);
    }
}

proof fn lemma_snipped_tool_rows(s: Seq<MessageView>, keep: nat, k: int)
    requires
        0 <= k <= s.len(),
    ensures
        tool_rows_from(snipped(s, keep), k) == tool_rows_from(s, k),
    decreases s.len() - k,
{
    if k < s.len() {
        lemma_snipped_tool_rows(s, keep, k + 1);
    }
}

proof fn lemma_nothing_stale(s: Seq<MessageView>, keep: nat, n: int)
    requires
        0 <= n <= s.len(),
        forall|i: int| 0 <= i < s.len() ==> !#[trigger] is_stale(s, keep, i),
    ensures
        stale_rows(s, keep, n) == 0,
    decreases n,
{
    if n > 0 {
        lemma_nothing_stale(s, keep, n - 1);
        assert(!is_stale(s, keep, n - 1));
    }
}

/// Snipping stale tool outputs once is enough: a second time none is stale.
pub proof fn law_snipping_twice_is_once(s: Seq<MessageView>, keep: nat)
    ensures
        snipped(snipped(s, keep), keep) == snipped(s, keep),
        stale_rows(snipped(s, keep), keep, s.len() as int) == 0,
{
    let t = snipped(s, keep);
    assert forall|i: int| 0 <= i < t.len() implies !#[trigger] is_stale(t, keep, i) by {
        lemma_snipped_tool_rows(s, keep, i + 1);
        if is_stale(s, keep, i) {
            assert(t[i].content.text() == placeholder());
        } else {
            assert(t[i] == s[i]);
        }
    }
    lemma_nothing_stale(t, keep, t.len() as int);
    assert(snipped(t, keep) =~= t);
}

/// The line that quotes a row for a summary: who said it, and the first 800
/// characters of what was said.
pub open spec fn quote_of(m: MessageView) -> Seq<char> {
    "["@ + trait_def::role_name(m.role) + "] "@ + text::first_chars(m.content.text(), 800) + "\n"@
}

/// The lines that quote some rows.
pub open spec fn quotes_of(s: Seq<MessageView>) -> Seq<Seq<char>> {
    s.map_values(|m: MessageView| quote_of(m))
}

/// Whether a summary accounts for all rows: of the rows that are not system rows,
/// the oldest are quoted in the prompt, in order, and all others are kept, in
/// order; the texts of the system rows and the reply stand in the first row.
pub open spec fn accounts_for(
    before: Seq<MessageView>,
    prompt: Seq<char>,
    reply: Seq<char>,
    after: Seq<MessageView>,
) -> bool {
    let rest = before.filter(|m: MessageView| m.role != Role::System);
    &&& exists|k: int|
        {
            &&& 0 < k < rest.len()
            &&& after.skip(1) == #[trigger] rest.skip(k)
            &&& text::has_part(prompt, text::joined(quotes_of(rest.take(k)), Seq::empty()))
        }
    &&& after.len() > 0
    &&& after[0].role == Role::System
    &&& text::has_part(after[0].content.text(), reply)
    &&& forall|i: int|
        0 <= i < before.len() ==> {
            let m = #[trigger] before[i];
            if m.role == Role::System {
                text::has_part(after[0].content.text(), m.content.text())
            } else {
                after.contains(m) || text::has_part(prompt, quote_of(m))
            }
        }
}

proof fn lemma_excerpts_are_quotes(s: Seq<MessageView>)
    ensures
        context::excerpts(s) == text::joined(quotes_of(s), Seq::empty()),
    decreases s.len(),
{
    if s.len() > 0 {
        lemma_excerpts_are_quotes(s.drop_last());
        let q = quotes_of(s);
        assert(q.drop_last() =~= quotes_of(s.drop_last()));
        assert(q.last() == quote_of(s.last()));
        assert(context::excerpts(s) =~= text::joined(q, Seq::empty()));
    }
}

#[verifier::rlimit(40)]
proof fn lemma_system_is_joined(s: Seq<MessageView>, i: int)
    requires
        0 <= i < s.len(),
        s[i].role == Role::System,
    ensures
        text::has_part(joined_system(s), s[i].content.text()),
    decreases s.len(),
{
    let front = joined_system(s.drop_last());
    let m = s.last();
    let t = m.content.text();
    let none = Seq::<char>::empty();
    if i < s.len() - 1 {
        assert(s.drop_last()[i] == s[i]);
        lemma_system_is_joined(s.drop_last(), i);
        if m.role == Role::System && t.len() > 0 && front.len() > 0 {
            text::lemma_part_of_part(none, front, "\n\n"@ + t, s[i].content.text());
            assert(none + front + ("\n\n"@ + t) =~= joined_system(s));
        } else if m.role == Role::System && t.len() > 0 {
            let k = choose|k: int| text::at(front, s[i].content.text(), k);
            assert(s[i].content.text() =~= none);
            assert(joined_system(s).subrange(0, 0) =~= none);
            assert(text::at(joined_system(s), none, 0));
        }
    } else if t.len() == 0 {
        assert(t =~= none);
        assert(joined_system(s).subrange(0, 0) =~= none);
        assert(text::at(joined_system(s), none, 0));
    } else if front.len() == 0 {
        text::lemma_part_at(none, t, none);
        assert(none + t + none =~= joined_system(s));
    } else {
        text::lemma_part_at(front + "\n\n"@, t, none);
        assert(front + "\n\n"@ + t + none =~= joined_system(s));
    }
}

#[verifier::spinoff_prover]
proof fn lemma_oldest_are_quoted(s: Seq<MessageView>, k: int)
    requires
        summary_split(s) == Some(k),
        0 <= k <= turns(s).len(),
    ensures
        text::has_part(
            prompt_for(s),
            text::joined(quotes_of(turns(s).take(k)), Seq::empty()),
        ),
{
    let quoted = context::excerpts(turns(s).take(k));
    lemma_excerpts_are_quotes(turns(s).take(k));
    let intro = "Summarize the following conversation history concisely for future context. Preserve decisions, file paths, errors, and open TODOs. Aim for compact bullet points.\n\n---\n"@;
    let outro = "\n---\nKeep the summary under ~"@ + text::dec(65536) + " tokens."@;
    text::lemma_part_at(intro, quoted, outro);
    assert(prompt_for(s) =~= intro + quoted + outro);
}

#[verifier::spinoff_prover]
proof fn lemma_row_is_quoted(s: Seq<MessageView>, k: int, j: int)
    requires
        summary_split(s) == Some(k),
        0 <= j < k <= turns(s).len(),
    ensures
        text::has_part(prompt_for(s), quote_of(turns(s)[j])),
{
    let qs = quotes_of(turns(s).take(k));
    lemma_oldest_are_quoted(s, k);
    assert(qs[j] == quote_of(turns(s)[j]));
    text::lemma_joined_has(qs, Seq::empty(), j);
    text::lemma_part_chain(prompt_for(s), text::joined(qs, Seq::empty()), quote_of(turns(s)[j]));
}

#[verifier::spinoff_prover]
proof fn lemma_summary_rows(s: Seq<MessageView>, reply: Seq<char>, k: int)
    requires
        summary_split(s) == Some(k),
        reply.len() > 0,
    ensures
        0 < k < turns(s).len(),
        summarized(s, Some(reply)).action != CompressionAction::Nothing,
        summarized(s, Some(reply)).rows.len() == 1 + turns(s).len() - k,
        summarized(s, Some(reply)).rows.skip(1) == turns(s).skip(k),
        summarized(s, Some(reply)).rows[0].role == Role::System,
        summarized(s, Some(reply)).rows[0].content.text() == joined_system(s)
            + "\n\n## Conversation Summary (L3 Compression)\n"@ + reply,
{
    let t = turns(s);
    lemma_aligned(t, t.len() as int * 7 / 10);
    assert(summarized(s, Some(reply)).rows.skip(1) =~= t.skip(k));
}

#[verifier::spinoff_prover]
#[verifier::rlimit(40)]
proof fn lemma_summary_accounts(s: Seq<MessageView>, reply: Seq<char>)
    requires
        summary_split(s) is Some,
        reply.len() > 0,
    ensures
        accounts_for(s, prompt_for(s), reply, summarized(s, Some(reply)).rows),
        summarized(s, Some(reply)).action != CompressionAction::Nothing,
{
    let t = turns(s);
    let rest = s.filter(|m: MessageView| m.role != Role::System);
    assert((|m: MessageView| m.role != Role::System) =~= not_system());
    assert(rest == t);
    let k = summary_split(s)->0;
    let after = summarized(s, Some(reply)).rows;
    let prompt = prompt_for(s);
    let head = after[0].content.text();
    lemma_summary_rows(s, reply, k);
    lemma_oldest_are_quoted(s, k);
    text::lemma_three_parts(
        joined_system(s),
        "\n\n## Conversation Summary (L3 Compression)\n"@,
        reply,
    );
    assert forall|i: int| 0 <= i < s.len() implies {
        let m = #[trigger] s[i];
        if m.role == Role::System {
            text::has_part(head, m.content.text())
        } else {
            after.contains(m) || text::has_part(prompt, quote_of(m))
        }
    } by {
        let m = s[i];
        if m.role == Role::System {
            lemma_system_is_joined(s, i);
            text::lemma_part_chain(head, joined_system(s), m.content.text());
        } else {
            s.lemma_filter_contains(not_system(), i);
            let j = choose|j: int| 0 <= j < t.len() && t[j] == m;
            if j >= k {
                assert(after.skip(1)[j - k] == t.skip(k)[j - k]);
                assert(after[1 + (j - k)] == m);
            } else {
                lemma_row_is_quoted(s, k, j);
            }
        }
    }
    assert(after.skip(1) == rest.skip(k));
}

/// Nothing is lost unread. Where a pass asks for a summary and gets one, every row
/// that it then removes was quoted in the prompt, by its role and its first 800
/// characters and in the order of the conversation; all other rows stay, and what
/// the system rows said stands before the summary. The same holds of a forced pass.
pub proof fn law_nothing_is_lost_unread(
    s: Seq<MessageView>,
    config: ContextConfig,
    cheap: bool,
    tool_tokens: u64,
    reply: Seq<char>,
)
    requires
        reply.len() > 0,
    ensures
        pass(s, config, cheap, tool_tokens).step matches StepView::Summarize(prompt, l0)
            ==> accounts_for(
            pass(s, config, cheap, tool_tokens).rows,
            prompt,
            reply,
            finished(pass(s, config, cheap, tool_tokens).rows, l0, Some(reply)).rows,
        ),
        forced(s).step matches StepView::Summarize(prompt, l0) ==> forced(s).rows == s
            && accounts_for(s, prompt, reply, forced_finished(s, Some(reply)).rows),
{
    let p = pass(s, config, cheap, tool_tokens);
    if p.step is Summarize {
        lemma_summary_accounts(p.rows, reply);
    }
    if forced(s).step is Summarize {
        lemma_summary_accounts(s, reply);
    }
}

/// Truncating drops the oldest turns and nothing else: all system rows stay, and of
/// the others the newest, in order. At least half go, and more only to get past tool
/// rows and rows that ask for tools. Where the row at the half is neither, and a user
/// speaks from there on, it is exactly half.
pub proof fn law_truncating_drops_the_oldest(s: Seq<MessageView>)
    ensures
        ({
            let c = truncated(s);
            let rest = s.filter(|m: MessageView| m.role != Role::System);
            let kept = s.filter(|m: MessageView| m.role == Role::System);
            let half = rest.len() as int / 2;
            &&& c.action == CompressionAction::Nothing ==> c.rows == s
            &&& c.action != CompressionAction::Nothing ==> exists|k: int|
                {
                    &&& half <= k < rest.len()
                    &&& c.rows == kept + #[trigger] rest.skip(k)
                    &&& c.action == (CompressionAction::Truncated { removed: k as usize })
                    &&& forall|j: int|
                        half <= j < k ==> (#[trigger] rest[j]).role == Role::Tool
                            || tool_chain::asks_tools(rest[j])
                }
            &&& rest.len() >= 2 && rest[half].role != Role::Tool && !tool_chain::asks_tools(
                rest[half],
            ) && (exists|u: int| half <= u < rest.len() && (#[trigger] rest[u]).role == Role::User)
                ==> c.action == (CompressionAction::Truncated { removed: half as usize }) && c.rows
                == kept + rest.skip(half)
        }),
{
    let t = turns(s);
    assert((|m: MessageView| m.role != Role::System) =~= not_system());
    assert((|m: MessageView| m.role == Role::System) =~= is_system());
    let half = t.len() as int / 2;
    lemma_aligned(t, half);
    lemma_aligned_skips(t, half);
    lemma_last_user(t);
    lemma_last_user_is_last(t);
    let k = aligned(t, half);
    if truncated(s).action != CompressionAction::Nothing {
        assert(truncated(s).rows == s.filter(is_system()) + t.skip(k));
    }
}

proof fn lemma_aligned_skips(s: Seq<MessageView>, k: int)
    requires
        0 <= k <= s.len(),
    ensures
        forall|j: int|
            k <= j < aligned(s, k) ==> (#[trigger] s[j]).role == Role::Tool
                || tool_chain::asks_tools(s[j]),
    decreases s.len() - k,
{
    if k < s.len() && (s[k].role == Role::Tool || tool_chain::asks_tools(s[k])) {
        lemma_aligned_skips(s, k + 1);
    }
}

proof fn lemma_last_user_is_last(t: Seq<MessageView>)
    ensures
        forall|u: int| 0 <= u < t.len() && (#[trigger] t[u]).role == Role::User ==> u <= last_user(t),
        last_user(t) >= 0 ==> t[last_user(t)].role == Role::User,
    decreases t.len(),
{
    if t.len() > 0 && t.last().role != Role::User {
        lemma_last_user_is_last(t.drop_last());
        lemma_last_user(t.drop_last());
        assert forall|u: int| 0 <= u < t.len() && (#[trigger] t[u]).role == Role::User implies u
            <= last_user(t) by {
            assert(t.drop_last()[u] == t[u]);
        }
    }
}

/// Tagging changes tool rows of more than 2000 characters and no other row: each of
/// them keeps its first 500 characters and everything but its text.
pub proof fn law_tagging_cuts_long_outputs(s: Seq<MessageView>, i: int)
    requires
        0 <= i < s.len(),
    ensures
        tagged(s).rows.len() == s.len(),
        ({
            let now = tagged(s).rows[i];
            let body = s[i].content.text();
            if s[i].role == Role::Tool && body.len() > 2000 {
                &&& now == (MessageView { content: now.content, ..s[i] })
                &&& text::has_part(now.content.text(), body.take(500))
                &&& text::has_part(now.content.text(), text::dec(body.len()))
                &&& body.len() <= usize::MAX ==> now.content.text().len() < body.len()
            } else {
                now == s[i]
            }
        }),
{
    let body = s[i].content.text();
    lemma_some_are_verbose(s, i);
    if is_verbose(s[i]) {
        if body.len() <= usize::MAX {
            lemma_tag_is_short(s[i]);
        }
        let a = "[tool output truncated: "@;
        let n = text::dec(body.len());
        let b = " → 500 chars] "@;
        let f = body.take(500);
        text::lemma_part_at(a + n + b, f, "…"@);
        text::lemma_part_at(a, n, b + f + "…"@);
        assert(a + n + (b + f + "…"@) =~= output_tag(body));
    }
}

proof fn lemma_some_are_verbose(s: Seq<MessageView>, i: int)
    requires
        0 <= i < s.len(),
    ensures
        is_verbose(s[i]) ==> verbose_rows(s) > 0,
    decreases s.len(),
{
    if i < s.len() - 1 {
        lemma_some_are_verbose(s.drop_last(), i);
        assert(s.drop_last()[i] == s[i]);
    }
}

/// Tool rows.
pub open spec fn is_tool() -> spec_fn(MessageView) -> bool {
    |m: MessageView| m.role == Role::Tool
}

proof fn lemma_tool_rows_from(s: Seq<MessageView>, k: int)
    requires
        0 <= k <= s.len(),
    ensures
        tool_rows_from(s, k) == s.skip(k).filter(is_tool()).len(),
    decreases s.len() - k,
{
    reveal(Seq::filter);
    if k < s.len() {
        lemma_tool_rows_from(s, k + 1);
        assert(s.skip(k) =~= seq![s[k]] + s.skip(k + 1));
        s.skip(k + 1).lemma_filter_prepend(s[k], is_tool());
    } else {
        assert(s.skip(k) =~= Seq::<MessageView>::empty());
    }
}

/// Snipping changes nothing but the text of old tool rows: the newest `keep` of them
/// stay as they are, and so do short ones and all other rows.
pub proof fn law_snipping_keeps_the_newest(s: Seq<MessageView>, keep: nat, i: int)
    requires
        0 <= i < s.len(),
    ensures
        snipped(s, keep).len() == s.len(),
        ({
            let now = snipped(s, keep)[i];
            let old = s[i].role == Role::Tool && s.skip(i + 1).filter(is_tool()).len() >= keep
                && vstd::utf8::encode_utf8(s[i].content.text()).len() > 120;
            &&& !old ==> now == s[i]
            &&& old ==> now.content.text() == placeholder() && (now == (MessageView {
                content: now.content,
                ..s[i]
            }))
        }),
{
    lemma_tool_rows_from(s, i + 1);
}

/// Chunking keeps the newest turns, in order, from the last user's message on at the
/// least, and says in the first row what the system rows said and how many turns went.
#[verifier::rlimit(40)]
pub proof fn law_chunking_keeps_the_newest(s: Seq<MessageView>)
    ensures
        ({
            let c = chunked(s);
            let rest = s.filter(|m: MessageView| m.role != Role::System);
            &&& c.action == CompressionAction::Nothing ==> c.rows == s
            &&& c.action != CompressionAction::Nothing ==> {
                &&& exists|k: int|
                    {
                        &&& 0 < k < rest.len()
                        &&& c.rows.skip(1) == #[trigger] rest.skip(k)
                        &&& text::has_part(c.rows[0].content.text(), text::dec(k as nat))
                        &&& (exists|u: int|
                            0 <= u < rest.len() && (#[trigger] rest[u]).role == Role::User) ==> (
                        exists|u: int| k <= u < rest.len() && (#[trigger] rest[u]).role == Role::User)
                    }
                &&& c.rows[0].role == Role::System
                &&& forall|i: int|
                    0 <= i < s.len() && (#[trigger] s[i]).role == Role::System ==> text::has_part(
                        c.rows[0].content.text(),
                        s[i].content.text(),
                    )
            }
        }),
{
    let c = chunked(s);
    let t = turns(s);
    let none = Seq::<char>::empty();
    assert((|m: MessageView| m.role != Role::System) =~= not_system());
    if c.action != CompressionAction::Nothing {
        let k = chunk_split(t);
        assert(c.rows.skip(1) =~= t.skip(k));
        lemma_last_user(t);
        lemma_last_user_is_last(t);
        lemma_past_tools(t, t.len() - (if t.len() < 5 {
            1
        } else {
            t.len() as int / 5
        }));
        let head = c.rows[0].content.text();
        let a = "[CONTINUATION] Previous context was chunked (L4). "@;
        let b = " messages removed. Pick up from the last checkpoint."@;
        let front = joined_system(s) + "\n\n"@ + a;
        text::lemma_part_at(front, text::dec(k as nat), b);
        assert(head =~= front + text::dec(k as nat) + b);
        assert forall|i: int| 0 <= i < s.len() && (#[trigger] s[i]).role == Role::System implies
            text::has_part(head, s[i].content.text()) by {
            lemma_system_is_joined(s, i);
            text::lemma_part_of_part(
                none,
                joined_system(s),
                "\n\n"@ + chunk_hint(k as nat),
                s[i].content.text(),
            );
            assert(none + joined_system(s) + ("\n\n"@ + chunk_hint(k as nat)) =~= head);
        }
    }
}

/// How far a level goes.
pub open spec fn rank(level: Level) -> int {
    match level {
        Level::Idle => 0,
        Level::Truncate => 1,
        Level::Tag => 2,
        Level::Summarize => 3,
        Level::Chunk => 4,
    }
}

/// More tokens never call for less: the level grows with what the prompt takes of
/// the window, it is idle as long as the configured share is not exceeded, it goes all
/// the way once the window itself is, and a cheap pass stops at the first level.
pub proof fn law_level_grows_with_the_prompt(
    total: nat,
    more: nat,
    window: u64,
    configured: u32,
    cheap: bool,
)
    requires
        total <= more,
    ensures
        ({
            let base = base_threshold(configured);
            &&& 100_000 <= base <= 850_000
            &&& 100_000 <= configured <= 850_000 ==> base == configured
            &&& rank(level_for(total, window, base, cheap)) <= rank(
                level_for(more, window, base, cheap),
            )
            &&& total * 1_000_000 <= window * base <==> level_for(total, window, base, cheap)
                == Level::Idle
            &&& cheap ==> rank(level_for(total, window, base, cheap)) <= 1
            &&& !cheap && total > window ==> level_for(total, window, base, cheap) == Level::Chunk
        }),
{
    let base = base_threshold(configured);
    assert(window * base <= window * (base + 50_000)) by (nonlinear_arith)
        requires
            0 <= window,
    ;
    assert(window * (base + 50_000) <= window * (base + 100_000)) by (nonlinear_arith)
        requires
            0 <= window,
    ;
    assert(window * (base + 100_000) <= window * (base + 150_000)) by (nonlinear_arith)
        requires
            0 <= window,
    ;
    assert(window * (base + 150_000) <= window * 1_000_000) by (nonlinear_arith)
        requires
            0 <= window,
            base <= 850_000,
    ;
}

/// A pass without a window, or over a prompt that takes no more than a tenth of it,
/// changes nothing, whatever is configured.
pub proof fn law_small_prompt_is_left_alone(
    s: Seq<MessageView>,
    config: ContextConfig,
    cheap: bool,
    tool_tokens: u64,
)
    requires
        config.window_tokens == 0 || (context::message_tokens(s) + tool_tokens) * 10
            <= config.window_tokens,
    ensures
        pass(s, config, cheap, tool_tokens) == done(
            Compressed { rows: s, action: CompressionAction::Nothing },
        ),
{
    let w = config.window_tokens;
    let base = base_threshold(config.compress_threshold);
    let snip = snip_threshold(base);
    assert(w * 100_000 <= w * snip) by (nonlinear_arith)
        requires
            0 <= w,
            100_000 <= snip,
    ;
    assert(w * snip <= w * base) by (nonlinear_arith)
        requires
            0 <= w,
            snip <= base,
    ;
}

/// A summary stands for the oldest seven tenths of the turns, and for more only to get past
/// tool rows and rows that ask for tools. Where the row at that place is neither, and a user
/// speaks from there on, it is exactly these, and such a summary is possible.
pub proof fn law_summary_stands_for_the_oldest(s: Seq<MessageView>)
    ensures
        ({
            let rest = s.filter(|m: MessageView| m.role != Role::System);
            let share = rest.len() as int * 7 / 10;
            &&& summary_split(s) matches Some(k) ==> share <= k < rest.len() && forall|j: int|
                share <= j < k ==> (#[trigger] rest[j]).role == Role::Tool || tool_chain::asks_tools(
                    rest[j],
                )
            &&& share > 0 && rest[share].role != Role::Tool && !tool_chain::asks_tools(rest[share])
                && (exists|u: int| share <= u < rest.len() && (#[trigger] rest[u]).role == Role::User)
                ==> summary_split(s) == Some(share)
        }),
{
    let t = turns(s);
    assert((|m: MessageView| m.role != Role::System) =~= not_system());
    let share = t.len() as int * 7 / 10;
    lemma_aligned(t, share);
    lemma_aligned_skips(t, share);
    lemma_last_user(t);
    lemma_last_user_is_last(t);
}

/// Chunking keeps the newest fifth of the turns, and at least one: less only to get past tool
/// rows, more only to keep the last thing that a user said.
pub proof fn law_chunking_keeps_a_fifth(s: Seq<MessageView>)
    ensures
        ({
            let rest = s.filter(|m: MessageView| m.role != Role::System);
            let n = rest.len() as int;
            let keep = if n < 5 {
                1
            } else {
                n / 5
            };
            chunked(s).action != CompressionAction::Nothing ==> {
                let kept = chunked(s).rows.len() - 1;
                &&& kept < keep ==> forall|j: int|
                    n - keep <= j < n - kept ==> (#[trigger] rest[j]).role == Role::Tool
                &&& kept > keep ==> rest[n - kept].role == Role::User && forall|j: int|
                    n - kept < j < n ==> (#[trigger] rest[j]).role != Role::User
            }
        }),
{
    let t = turns(s);
    assert((|m: MessageView| m.role != Role::System) =~= not_system());
    let n = t.len() as int;
    if chunked(s).action != CompressionAction::Nothing {
        let keep = if n < 5 {
            1
        } else {
            n / 5
        };
        let from = context::past_tool_rows(t, n - keep);
        let k = chunk_split(t);
        lemma_past_tools(t, n - keep);
        lemma_past_tools_are_tools(t, n - keep);
        lemma_last_user(t);
        lemma_last_user_is_last(t);
        assert(chunked(s).rows.len() == 1 + n - k);
        let kept = n - k;
        if kept > keep {
            assert(k < n - keep <= from);
            assert(k == last_user(t));
            assert forall|j: int| n - kept < j < n implies (#[trigger] t[j]).role != Role::User by {
                if t[j].role == Role::User {
                    assert(j <= last_user(t));
                }
            }
        }
    }
}

proof fn lemma_past_tools_are_tools(s: Seq<MessageView>, k: int)
    requires
        0 <= k <= s.len(),
    ensures
        forall|j: int| k <= j < context::past_tool_rows(s, k) ==> (#[trigger] s[j]).role == Role::Tool,
    decreases s.len() - k,
{
    if k < s.len() && s[k].role == Role::Tool {
        lemma_past_tools_are_tools(s, k + 1);
    }
}

/// The levels follow the share of the window that is taken, in steps of five hundredths above
/// the configured one.
pub proof fn law_levels_are_five_hundredths_apart(total: nat, window: u64, base: int)
    ensures
        ({
            let level = level_for(total, window, base, false);
            let taken = total * 1_000_000;
            &&& taken <= window * base ==> level == Level::Idle
            &&& window * base < taken <= window * (base + 50_000) ==> level == Level::Truncate
            &&& window * (base + 50_000) < taken <= window * (base + 100_000) ==> level == Level::Tag
            &&& window * (base + 100_000) < taken <= window * (base + 150_000) ==> level
                == Level::Summarize
            &&& window * (base + 150_000) < taken ==> level == Level::Chunk
        }),
{
    assert(window * base <= window * (base + 50_000)) by (nonlinear_arith)
        requires
            0 <= window,
    ;
    assert(window * (base + 50_000) <= window * (base + 100_000)) by (nonlinear_arith)
        requires
            0 <= window,
    ;
    assert(window * (base + 100_000) <= window * (base + 150_000)) by (nonlinear_arith)
        requires
            0 <= window,
    ;
}

/// Stale results are snipped a fifth of the window before the first level, and never before a
/// tenth of it is taken.
pub proof fn law_snipping_comes_first(base: int, total: nat, config: ContextConfig)
    ensures
        base >= 300_000 ==> snip_threshold(base) == base - 200_000,
        base < 300_000 ==> snip_threshold(base) == 100_000,
        total * 10 <= config.window_tokens ==> !snips(total, config),
        !snips(total, config) ==> level_for(
            total,
            config.window_tokens,
            base_threshold(config.compress_threshold),
            false,
        ) == Level::Idle,
{
    let w = config.window_tokens;
    let b = base_threshold(config.compress_threshold);
    let t = snip_threshold(b);
    assert(w * 100_000 <= w * t) by (nonlinear_arith)
        requires
            0 <= w,
            100_000 <= t,
    ;
    assert(w * t <= w * b) by (nonlinear_arith)
        requires
            0 <= w,
            t <= b,
    ;
}

/// A pass never snips the three newest results of tools.
pub proof fn law_newest_results_are_not_snipped(
    s: Seq<MessageView>,
    config: ContextConfig,
    tool_tokens: u64,
    i: int,
)
    requires
        0 <= i < s.len(),
        s.skip(i + 1).filter(is_tool()).len() < 3,
    ensures
        after_snip(s, config, tool_tokens).len() == s.len(),
        after_snip(s, config, tool_tokens)[i] == s[i],
{
    law_snipping_keeps_the_newest(s, 3, i);
}

/// A forced pass without a summary does what it can: it does nothing only where no level could
/// do anything, and it comes to snipping, which cannot be undone, last.
pub proof fn law_forced_pass_does_what_it_can(s: Seq<MessageView>)
    requires
        s.len() <= usize::MAX,
    ensures
        ({
            let c = forced_local(s);
            &&& c.action == CompressionAction::Nothing ==> c.rows == s && chunked(s).action
                == CompressionAction::Nothing && tagged(s).action == CompressionAction::Nothing
                && truncated(s).action == CompressionAction::Nothing && stale_rows(
                s,
                3,
                s.len() as int,
            ) == 0
            &&& c.action is Snipped ==> chunked(s).action == CompressionAction::Nothing && tagged(
                s,
            ).action == CompressionAction::Nothing && truncated(s).action
                == CompressionAction::Nothing
            &&& chunked(s).action != CompressionAction::Nothing ==> c == chunked(s)
        }),
{
}

} // verus!
