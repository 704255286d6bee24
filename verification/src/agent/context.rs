//! The context of a model call: what is sent, and what it costs.
//!
//! [`build_context`] puts the system prompt before the most recent history.
//! Token counts are estimates: one token for a CJK character, one for four
//! characters of anything else.

use crate::json;
use crate::json::json_string;
use crate::providers::trait_def;
use crate::providers::trait_def::{
    copy_onto, copy_tools, ContentView, Message, MessageContent, MessageView, Role, ToolCallView,
    ToolDef, ToolDefView,
};
use crate::text;
use crate::text::{cat3, decimal, join, take_chars};
use vstd::prelude::*;
use vstd::string::*;

verus! {

// ── Building the context ────────────────────────────────────────────────────

/// A complete context package ready to be sent to the provider.
#[derive(Debug)]
pub struct ContextPacket {
    /// The system prompt and the history behind it.
    pub messages: Vec<Message>,
    /// Tool definitions available to the model.
    pub tools: Vec<ToolDef>,
}

/// The first row from `k` on that is not a tool row, or the end.
pub open spec fn past_tool_rows(s: Seq<MessageView>, k: int) -> int
    decreases s.len() - k,
{
    if 0 <= k < s.len() && s[k].role == Role::Tool {
        past_tool_rows(s, k + 1)
    } else {
        k
    }
}

/// The most recent `max` rows of `s`, without the tool rows at their start,
/// whose calls would be missing.
pub open spec fn recent(s: Seq<MessageView>, max: nat) -> Seq<MessageView> {
    let from = if s.len() > max {
        s.len() - max
    } else {
        0
    };
    s.skip(past_tool_rows(s, from))
}

proof fn lemma_past_tool_rows(s: Seq<MessageView>, k: int)
    requires
        0 <= k <= s.len(),
    ensures
        k <= past_tool_rows(s, k) <= s.len(),
        past_tool_rows(s, k) < s.len() ==> s[past_tool_rows(s, k)].role != Role::Tool,
        forall|j: int| k <= j < past_tool_rows(s, k) ==> (#[trigger] s[j]).role == Role::Tool,
    decreases s.len() - k,
{
    if k < s.len() && s[k].role == Role::Tool {
        lemma_past_tool_rows(s, k + 1);
    }
}

/// Puts the system prompt before the most recent `max_history_messages` rows of
/// the history. The history part never starts with a tool row.
pub fn build_context(
    history: &[Message],
    system_prompt: &str,
    tools: &[ToolDef],
    max_history_messages: usize,
) -> (r: ContextPacket)
    ensures
        trait_def::views(r.messages@) == seq![
            trait_def::text_message(Role::System, system_prompt@),
        ] + recent(trait_def::views(history@), max_history_messages as nat),
        trait_def::tool_views(r.tools@) == trait_def::tool_views(tools@),
{
    let ghost s = trait_def::views(history@);
    let mut messages: Vec<Message> = Vec::new();
    messages.push(Message::from_text(Role::System, system_prompt.to_string()));
    assert(trait_def::views(messages@) =~= seq![
        trait_def::text_message(Role::System, system_prompt@),
    ]);
    let n: usize = history.len();
    let from: usize = if n > max_history_messages {
        n - max_history_messages
    } else {
        0
    };
    let mut skip: usize = from;
    while skip < n && history[skip].role == Role::Tool
        invariant
            from <= skip <= n == history@.len(),
            s == trait_def::views(history@),
            past_tool_rows(s, from as int) == past_tool_rows(s, skip as int),
        decreases n - skip,
    {
        skip = skip + 1;
    }
    copy_onto(&mut messages, history, skip);
    ContextPacket { messages, tools: copy_tools(tools) }
}

/// A context never starts its history with a tool row.
pub proof fn law_context_starts_no_orphan(s: Seq<MessageView>, max: nat)
    ensures
        recent(s, max).len() > 0 ==> recent(s, max)[0].role != Role::Tool,
        recent(s, max).len() <= max,
        recent(s, max).is_suffix_of(s),
{
    let from = if s.len() > max {
        s.len() - max
    } else {
        0
    };
    lemma_past_tool_rows(s, from);
}

// ── Counting tokens ─────────────────────────────────────────────────────────

/// Han, Kana, Hangul, CJK punctuation and fullwidth forms: characters that
/// usually take one token each.
pub open spec fn is_wide(c: char) -> bool {
    let u = c as u32;
    ||| 0x1100 <= u <= 0x11FF
    ||| 0x2E80 <= u <= 0x303F
    ||| 0x3040 <= u <= 0x30FF
    ||| 0x3130 <= u <= 0x318F
    ||| 0x3400 <= u <= 0x4DBF
    ||| 0x4E00 <= u <= 0x9FFF
    ||| 0xA960 <= u <= 0xA97F
    ||| 0xAC00 <= u <= 0xD7AF
    ||| 0xF900 <= u <= 0xFAFF
    ||| 0xFF00 <= u <= 0xFFEF
    ||| 0x20000 <= u <= 0x2FA1F
}

/// Whether a character usually takes a token of its own.
pub fn is_cjk(ch: char) -> (b: bool)
    ensures
        b == is_wide(ch),
{
    let u: u32 = ch as u32;
    (0x1100 <= u && u <= 0x11FF) || (0x2E80 <= u && u <= 0x303F) || (0x3040 <= u && u <= 0x30FF) || (
    0x3130 <= u && u <= 0x318F) || (0x3400 <= u && u <= 0x4DBF) || (0x4E00 <= u && u <= 0x9FFF) || (
    0xA960 <= u && u <= 0xA97F) || (0xAC00 <= u && u <= 0xD7AF) || (0xF900 <= u && u <= 0xFAFF) || (
    0xFF00 <= u && u <= 0xFFEF) || (0x20000 <= u && u <= 0x2FA1F)
}

/// How many characters of `s` take a token of their own.
pub open spec fn wide_chars(s: Seq<char>) -> nat
    decreases s.len(),
{
    if s.len() == 0 {
        0
    } else {
        wide_chars(s.drop_last()) + (if is_wide(s.last()) {
            1nat
        } else {
            0
        })
    }
}

/// The estimated tokens of a text: one for each wide character, and one for
/// every four of the others, rounded up.
pub open spec fn tokens(s: Seq<char>) -> nat {
    wide_chars(s) + (s.len() - wide_chars(s) + 3) as nat / 4
}

proof fn lemma_wide_chars(s: Seq<char>)
    ensures
        wide_chars(s) <= s.len(),
    decreases s.len(),
{
    if s.len() > 0 {
        lemma_wide_chars(s.drop_last());
    }
}

/// Estimates the tokens of a text.
pub fn count_tokens(text: &str) -> (r: u64)
    ensures
        r == tokens(text@),
{
    let n: usize = text.unicode_len();
    let mut wide: u64 = 0;
    let mut other: u64 = 0;
    for ch in it: text.chars()
        invariant
            it.seq() == text@,
            n == text@.len(),
            wide == wide_chars(text@.take(it.index() as int)),
            wide + other == it.index(),
    {
        assert(text@.take(it.index() + 1).drop_last() =~= text@.take(it.index() as int));
        if is_cjk(ch) {
            wide = wide + 1;
        } else {
            other = other + 1;
        }
    }
    assert(text@.take(n as int) =~= text@);
    // A partial token still costs a token.
    if other % 4 == 0 {
        wide + other / 4
    } else {
        wide + other / 4 + 1
    }
}

/// The estimate grows with the text: it is zero for the empty text alone, and
/// never more than one token per character.
pub proof fn law_tokens_bounded(s: Seq<char>)
    ensures
        tokens(s) <= s.len(),
        tokens(s) == 0 <==> s.len() == 0,
{
    lemma_wide_chars(s);
}

// ── Tool definitions ────────────────────────────────────────────────────────

/// The JSON text of one tool definition.
pub open spec fn tool_wire(t: ToolDefView) -> Seq<char> {
    "{\"type\":\"function\",\"function\":{\"name\":"@ + json::quoted(t.name) + (match t.description {
        Some(d) => ",\"description\":"@ + json::quoted(d) + ""@,
        None => ""@,
    }) + ",\"parameters\":"@ + t.parameters + "}}"@
}

/// The JSON texts of some tool definitions, with commas between them.
pub open spec fn tools_wire(s: Seq<ToolDefView>) -> Seq<char>
    decreases s.len(),
{
    if s.len() == 0 {
        Seq::empty()
    } else if s.len() == 1 {
        tool_wire(s.last())
    } else {
        tools_wire(s.drop_last()) + ","@ + tool_wire(s.last())
    }
}

/// The JSON array that the tool definitions are sent as.
pub open spec fn tools_array(s: Seq<ToolDefView>) -> Seq<char> {
    "["@ + tools_wire(s) + "]"@
}

fn wire_of(t: &ToolDef) -> (r: String)
    ensures
        r@ == tool_wire(t@),
{
    let description = match &t.function.description {
        Some(d) => cat3(",\"description\":", json_string(d.as_str()).as_str(), ""),
        None => "".to_string(),
    };
    cat3(
        "{\"type\":\"function\",\"function\":{\"name\":",
        json_string(t.function.name.as_str()).as_str(),
        description.as_str(),
    ).concat(",\"parameters\":").concat(t.function.parameters.as_str()).concat("}}")
}

/// The JSON array that the tool definitions are sent as.
pub fn tools_to_json(tools: &[ToolDef]) -> (r: String)
    ensures
        r@ == tools_array(trait_def::tool_views(tools@)),
{
    let ghost s = trait_def::tool_views(tools@);
    let n: usize = tools.len();
    let mut body = String::new();
    for i in 0..n
        invariant
            n == tools@.len(),
            s == trait_def::tool_views(tools@),
            body@ == tools_wire(s.take(i as int)),
    {
        let one = wire_of(&tools[i]);
        proof {
            assert(s.take(i + 1).drop_last() =~= s.take(i as int));
            assert(s.take(i + 1).last() == s[i as int]);
        }
        if i > 0 {
            body.append(",");
        }
        body.append(one.as_str());
    }
    assert(s.take(n as int) =~= s);
    cat3("[", body.as_str(), "]")
}

/// The estimated tokens of the tool definitions that go with every request.
pub open spec fn tool_tokens(s: Seq<ToolDefView>) -> nat {
    if s.len() == 0 {
        0
    } else {
        tokens(tools_array(s))
    }
}

/// Estimates the tokens of the tool definitions that go with every request. No
/// tools cost nothing.
pub fn count_tool_def_tokens(tools: &[ToolDef]) -> (r: u64)
    ensures
        r == tool_tokens(trait_def::tool_views(tools@)),
{
    if tools.len() == 0 {
        return 0;
    }
    count_tokens(tools_to_json(tools).as_str())
}

// ── Messages ────────────────────────────────────────────────────────────────

/// The name of a role on the wire.
pub open spec fn role_wire(role: Role) -> Seq<char> {
    match role {
        Role::System => "system"@,
        Role::User => "user"@,
        Role::Assistant => "assistant"@,
        Role::Tool => "tool"@,
    }
}

/// The JSON text of one tool call.
pub open spec fn call_wire(c: ToolCallView) -> Seq<char> {
    "{\"id\":"@ + json::quoted(c.id) + ",\"type\":"@ + json::quoted(c.call_type)
        + ",\"function\":{\"name\":"@ + json::quoted(c.name) + ",\"arguments\":"@ + json::quoted(
        c.arguments,
    ) + "}}"@
}

/// The JSON texts of some tool calls.
pub open spec fn call_wires(calls: Seq<ToolCallView>) -> Seq<Seq<char>> {
    calls.map_values(|c: ToolCallView| call_wire(c))
}

/// A text field of a JSON object, behind other fields, absent with its value.
pub open spec fn optional_field(label: Seq<char>, value: Option<Seq<char>>) -> Seq<char> {
    match value {
        Some(v) => label + json::quoted(v) + ""@,
        None => ""@,
    }
}

/// The JSON text of a message whose content is the list `parts`.
pub open spec fn parts_wire(m: MessageView, parts: Seq<Seq<char>>) -> Seq<char> {
    "{\"role\":\""@ + role_wire(m.role) + "\",\"content\":["@ + text::joined(parts, ","@) + "]"@
        + optional_field(",\"name\":"@, m.name) + (match m.tool_calls {
        Some(calls) => ",\"tool_calls\":["@ + text::joined(call_wires(calls), ","@) + "]"@,
        None => ""@,
    }) + optional_field(",\"tool_call_id\":"@, m.tool_call_id) + optional_field(
        ",\"reasoning_content\":"@,
        m.reasoning_content,
    ) + "}"@
}

/// The estimated tokens of the names and arguments of some calls.
pub open spec fn call_tokens(calls: Seq<ToolCallView>) -> nat
    decreases calls.len(),
{
    if calls.len() == 0 {
        0
    } else {
        call_tokens(calls.drop_last()) + tokens(calls.last().name) + tokens(calls.last().arguments)
    }
}

/// The estimated tokens of a message: its content, its reasoning, and the names
/// and arguments of its calls. A list of parts counts as the JSON text of the
/// message.
pub open spec fn row_tokens(m: MessageView) -> nat {
    (match m.content {
        ContentView::Text(s) => tokens(s),
        ContentView::Parts(parts) => tokens(parts_wire(m, parts)),
    }) + (match m.reasoning_content {
        Some(r) => tokens(r),
        None => 0,
    }) + (match m.tool_calls {
        Some(calls) => call_tokens(calls),
        None => 0,
    })
}

/// The estimated tokens of a conversation.
pub open spec fn message_tokens(s: Seq<MessageView>) -> nat
    decreases s.len(),
{
    if s.len() == 0 {
        0
    } else {
        message_tokens(s.drop_last()) + row_tokens(s.last())
    }
}

fn call_to_json(c: &trait_def::ToolCall) -> (r: String)
    ensures
        r@ == call_wire(c@),
{
    cat3("{\"id\":", json_string(c.id.as_str()).as_str(), ",\"type\":").concat(
        json_string(c.call_type.as_str()).as_str(),
    ).concat(",\"function\":{\"name\":").concat(
        json_string(c.function.name.as_str()).as_str(),
    ).concat(",\"arguments\":").concat(
        json_string(c.function.arguments.as_str()).as_str(),
    ).concat("}}")
}

fn calls_to_json(calls: &Vec<trait_def::ToolCall>) -> (r: String)
    ensures
        r@ == text::joined(call_wires(trait_def::call_views(calls@)), ","@),
{
    let ghost s = call_wires(trait_def::call_views(calls@));
    let n: usize = calls.len();
    let mut wires: Vec<String> = Vec::new();
    for i in 0..n
        invariant
            n == calls@.len() == s.len(),
            s == call_wires(trait_def::call_views(calls@)),
            text::texts(wires@) == s.take(i as int),
    {
        let one = call_to_json(&calls[i]);
        proof {
            text::lemma_texts_push(wires@, one);
            assert(s.take(i + 1) =~= s.take(i as int).push(s[i as int]));
        }
        wires.push(one);
    }
    assert(s.take(n as int) =~= s);
    join(&wires, ",")
}

fn optional_field_text(label: &str, value: &Option<String>) -> (r: String)
    ensures
        r@ == optional_field(label@, text::opt_text(*value)),
{
    match value {
        Some(v) => cat3(label, json_string(v.as_str()).as_str(), ""),
        None => "".to_string(),
    }
}

fn role_wire_name(role: Role) -> (r: &'static str)
    ensures
        r@ == role_wire(role),
{
    match role {
        Role::System => "system",
        Role::User => "user",
        Role::Assistant => "assistant",
        Role::Tool => "tool",
    }
}

fn parts_to_json(m: &Message, parts: &Vec<String>) -> (r: String)
    ensures
        r@ == parts_wire(m@, text::texts(parts@)),
{
    let calls = match &m.tool_calls {
        Some(v) => cat3(",\"tool_calls\":[", calls_to_json(v).as_str(), "]"),
        None => "".to_string(),
    };
    cat3("{\"role\":\"", role_wire_name(m.role), "\",\"content\":[").concat(
        join(parts, ",").as_str(),
    ).concat("]").concat(optional_field_text(",\"name\":", &m.name).as_str()).concat(
        calls.as_str(),
    ).concat(optional_field_text(",\"tool_call_id\":", &m.tool_call_id).as_str()).concat(
        optional_field_text(",\"reasoning_content\":", &m.reasoning_content).as_str(),
    ).concat("}")
}

fn count_call_tokens(calls: &Vec<trait_def::ToolCall>) -> (r: Option<u64>)
    ensures
        r == fitting(call_tokens(trait_def::call_views(calls@))),
{
    let ghost s = trait_def::call_views(calls@);
    let n: usize = calls.len();
    let mut sum: u64 = 0;
    for i in 0..n
        invariant
            n == calls@.len(),
            s == trait_def::call_views(calls@),
            sum == call_tokens(s.take(i as int)),
    {
        proof {
            assert(s.take(i + 1).drop_last() =~= s.take(i as int));
            lemma_call_tokens_monotone(s, i + 1);
        }
        let name: u64 = count_tokens(calls[i].function.name.as_str());
        let arguments: u64 = count_tokens(calls[i].function.arguments.as_str());
        if name > u64::MAX - sum || arguments > u64::MAX - sum - name {
            return None;
        }
        sum = sum + name + arguments;
    }
    assert(s.take(n as int) =~= s);
    Some(sum)
}

proof fn lemma_call_tokens_monotone(s: Seq<ToolCallView>, k: int)
    requires
        0 <= k <= s.len(),
    ensures
        call_tokens(s.take(k)) <= call_tokens(s),
    decreases s.len(),
{
    if k == s.len() {
        assert(s.take(k) =~= s);
    } else {
        assert(s.drop_last().take(k) =~= s.take(k));
        lemma_call_tokens_monotone(s.drop_last(), k);
    }
}

proof fn lemma_message_tokens_monotone(s: Seq<MessageView>, k: int)
    requires
        0 <= k <= s.len(),
    ensures
        message_tokens(s.take(k)) <= message_tokens(s),
    decreases s.len(),
{
    if k == s.len() {
        assert(s.take(k) =~= s);
    } else {
        assert(s.drop_last().take(k) =~= s.take(k));
        lemma_message_tokens_monotone(s.drop_last(), k);
    }
}

/// A number, where a `u64` can hold it.
pub open spec fn fitting(n: nat) -> Option<u64> {
    if n <= u64::MAX {
        Some(n as u64)
    } else {
        None
    }
}

fn count_row_tokens(m: &Message) -> (r: Option<u64>)
    ensures
        r == fitting(row_tokens(m@)),
{
    let body: u64 = match &m.content {
        MessageContent::Text(s) => count_tokens(s.as_str()),
        MessageContent::Parts(parts) => count_tokens(parts_to_json(m, parts).as_str()),
    };
    let reasoning: u64 = match &m.reasoning_content {
        Some(r) => count_tokens(r.as_str()),
        None => 0,
    };
    let calls: u64 = match &m.tool_calls {
        Some(v) => match count_call_tokens(v) {
            Some(c) => c,
            None => return None,
        },
        None => 0,
    };
    if reasoning > u64::MAX - body || calls > u64::MAX - body - reasoning {
        return None;
    }
    Some(body + reasoning + calls)
}

/// Estimates the tokens of a conversation; `None` where they do not fit.
pub fn conversation_tokens(messages: &[Message]) -> (r: Option<u64>)
    ensures
        r == fitting(message_tokens(trait_def::views(messages@))),
{
    let ghost s = trait_def::views(messages@);
    let n: usize = messages.len();
    let mut sum: u64 = 0;
    for i in 0..n
        invariant
            n == messages@.len(),
            s == trait_def::views(messages@),
            sum == message_tokens(s.take(i as int)),
    {
        proof {
            assert(s.take(i + 1).drop_last() =~= s.take(i as int));
            lemma_message_tokens_monotone(s, i + 1);
        }
        let row: u64 = match count_row_tokens(&messages[i]) {
            Some(t) => t,
            None => return None,
        };
        if row > u64::MAX - sum {
            return None;
        }
        sum = sum + row;
    }
    assert(s.take(n as int) =~= s);
    Some(sum)
}

/// The values of a list of message references.
pub open spec fn ref_views(v: Seq<&Message>) -> Seq<MessageView> {
    v.map_values(|m: &Message| m@)
}

/// Estimates the tokens of a list of messages.
pub fn count_message_tokens(messages: &[&Message]) -> (r: u64)
    requires
        message_tokens(ref_views(messages@)) <= u64::MAX,
    ensures
        r == message_tokens(ref_views(messages@)),
{
    let ghost s = ref_views(messages@);
    let n: usize = messages.len();
    let mut sum: u64 = 0;
    for i in 0..n
        invariant
            n == messages@.len(),
            s == ref_views(messages@),
            message_tokens(s) <= u64::MAX,
            sum == message_tokens(s.take(i as int)),
    {
        proof {
            assert(s.take(i + 1).drop_last() =~= s.take(i as int));
            lemma_message_tokens_monotone(s, i + 1);
        }
        match count_row_tokens(messages[i]) {
            Some(row) => {
                sum = sum + row;
            },
            None => {},
        }
    }
    assert(s.take(n as int) =~= s);
    sum
}

// ── Asking for a summary ────────────────────────────────────────────────────

/// The lines that a summary prompt quotes: the role and the first 800
/// characters of the text of each row.
pub open spec fn excerpts(s: Seq<MessageView>) -> Seq<char>
    decreases s.len(),
{
    if s.len() == 0 {
        Seq::empty()
    } else {
        excerpts(s.drop_last()) + ("["@ + trait_def::role_name(s.last().role) + "] "@)
            + text::first_chars(s.last().content.text(), 800) + "\n"@
    }
}

/// The prompt that asks the model to summarise the rows `s`.
pub open spec fn summary_prompt(s: Seq<MessageView>, max_summary_tokens: nat) -> Seq<char> {
    "Summarize the following conversation history concisely for future context. Preserve decisions, file paths, errors, and open TODOs. Aim for compact bullet points.\n\n---\n"@
        + excerpts(s) + "\n---\nKeep the summary under ~"@ + text::dec(max_summary_tokens)
        + " tokens."@
}

/// Builds the prompt that asks the model to compress older conversation into a
/// summary.
pub fn compression_prompt(old_messages: &[Message], max_summary_tokens: u64) -> (r: String)
    ensures
        r@ == summary_prompt(trait_def::views(old_messages@), max_summary_tokens as nat),
{
    let ghost s = trait_def::views(old_messages@);
    let n: usize = old_messages.len();
    let mut lines = String::new();
    for i in 0..n
        invariant
            n == old_messages@.len(),
            s == trait_def::views(old_messages@),
            lines@ == excerpts(s.take(i as int)),
    {
        proof {
            assert(s.take(i + 1).drop_last() =~= s.take(i as int));
        }
        lines.append(cat3("[", old_messages[i].role.name(), "] ").as_str());
        lines.append(take_chars(old_messages[i].content.text_or_empty(), 800).as_str());
        lines.append("\n");
    }
    assert(s.take(n as int) =~= s);
    cat3(
        "Summarize the following conversation history concisely for future context. Preserve decisions, file paths, errors, and open TODOs. Aim for compact bullet points.\n\n---\n",
        lines.as_str(),
        "\n---\nKeep the summary under ~",
    ).concat(decimal(max_summary_tokens).as_str()).concat(" tokens.")
}

// ── Laws ────────────────────────────────────────────────────────────────────

/// The history that is sent is as long as it may be: it is the newest `max` rows without
/// the tool rows that these start with, and the whole history where that is short enough
/// and starts with no tool row.
pub proof fn law_context_is_the_newest(s: Seq<MessageView>, max: nat)
    ensures
        ({
            let from = if s.len() > max {
                s.len() - max
            } else {
                0
            };
            &&& exists|k: int|
                {
                    &&& from <= k <= s.len()
                    &&& recent(s, max) == #[trigger] s.skip(k)
                    &&& forall|j: int| from <= j < k ==> (#[trigger] s[j]).role == Role::Tool
                }
            &&& s.len() <= max && (s.len() == 0 || s[0].role != Role::Tool) ==> recent(s, max) == s
        }),
{
    let from = if s.len() > max {
        s.len() - max
    } else {
        0
    };
    lemma_past_tool_rows(s, from);
    assert(recent(s, max) == s.skip(past_tool_rows(s, from)));
    assert(s.skip(0) =~= s);
}

proof fn lemma_wide_add(a: Seq<char>, b: Seq<char>)
    ensures
        wide_chars(a + b) == wide_chars(a) + wide_chars(b),
        wide_chars(b) <= b.len(),
    decreases b.len(),
{
    if b.len() == 0 {
        assert(a + b =~= a);
    } else {
        assert((a + b).drop_last() =~= a + b.drop_last());
        assert((a + b).last() == b.last());
        lemma_wide_add(a, b.drop_last());
    }
}

/// Tokens are estimated by characters, four to a token and a wide one for itself: where in
/// the text they stand makes no difference, a wide character more is a token more, and
/// text never costs less for being longer.
pub proof fn law_tokens_are_by_character(a: Seq<char>, b: Seq<char>, c: char)
    ensures
        tokens(a + b) == tokens(b + a),
        tokens(a) <= tokens(a + b) <= tokens(a) + tokens(b),
        is_wide(c) ==> tokens(a.push(c)) == tokens(a) + 1,
        (forall|i: int| 0 <= i < a.len() ==> is_wide(#[trigger] a[i])) ==> tokens(a) == a.len(),
        (forall|i: int| 0 <= i < a.len() ==> !is_wide(#[trigger] a[i])) ==> tokens(a) == (a.len()
            + 3) / 4,
{
    lemma_wide_add(a, b);
    lemma_wide_add(b, a);
    lemma_wide_all(a);
    assert(a.push(c).drop_last() =~= a);
}

proof fn lemma_wide_all(a: Seq<char>)
    ensures
        wide_chars(a) <= a.len(),
        (forall|i: int| 0 <= i < a.len() ==> is_wide(#[trigger] a[i])) ==> wide_chars(a) == a.len(),
        (forall|i: int| 0 <= i < a.len() ==> !is_wide(#[trigger] a[i])) ==> wide_chars(a) == 0,
    decreases a.len(),
{
    if a.len() > 0 {
        lemma_wide_all(a.drop_last());
        assert(a.last() == a[a.len() - 1]);
        assert forall|i: int| 0 <= i < a.len() - 1 implies a.drop_last()[i] == #[trigger] a[i] by {}
    }
}

/// Every row of a conversation counts, once, and so does all that a row holds: its text,
/// its reasoning, and the names and arguments of its calls.
pub proof fn law_every_row_counts(a: Seq<MessageView>, b: Seq<MessageView>, m: MessageView)
    ensures
        message_tokens(a + b) == message_tokens(a) + message_tokens(b),
        message_tokens(seq![m]) == row_tokens(m),
        m.content matches ContentView::Text(s) ==> row_tokens(m) == tokens(s) + (
        match m.reasoning_content {
            Some(r) => tokens(r),
            None => 0,
        }) + (match m.tool_calls {
            Some(calls) => call_tokens(calls),
            None => 0,
        }),
    decreases b.len(),
{
    assert(seq![m].drop_last() =~= Seq::<MessageView>::empty());
    assert(message_tokens(seq![m].drop_last()) == 0);
    if b.len() == 0 {
        assert(a + b =~= a);
    } else {
        assert((a + b).drop_last() =~= a + b.drop_last());
        assert((a + b).last() == b.last());
        law_every_row_counts(a, b.drop_last(), m);
    }
}

/// Every call of a row counts, once, by its name and its arguments.
pub proof fn law_every_call_counts(a: Seq<ToolCallView>, c: ToolCallView)
    ensures
        call_tokens(a.push(c)) == call_tokens(a) + tokens(c.name) + tokens(c.arguments),
{
    assert(a.push(c).drop_last() =~= a);
}

} // verus!
