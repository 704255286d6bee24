//! Intact tool chains.
//!
//! A provider rejects a request in which an assistant's tool call is not
//! answered by a tool row right after it, or in which a tool row answers
//! nothing. [`validate_tool_chain_for_provider`] turns any conversation into
//! one that a provider accepts; [`law_chain_intact`] says so.

use crate::providers::trait_def;
use crate::providers::trait_def::{Message, MessageView, Role, ToolCall, ToolCallView};
use crate::text;
use crate::text::same;
use vstd::prelude::*;

verus! {

// ── Rows ────────────────────────────────────────────────────────────────────

/// Whether an assistant row asks for tools.
pub open spec fn asks_tools(m: MessageView) -> bool {
    &&& m.role == Role::Assistant
    &&& m.tool_calls is Some
    &&& m.tool_calls->0.len() > 0
}

/// Whether a row has some reasoning text.
pub open spec fn has_reasoning(m: MessageView) -> bool {
    m.reasoning_content is Some && m.reasoning_content->0.len() > 0
}

/// An assistant row that says nothing: no content, no tool calls, no reasoning.
pub open spec fn is_hollow(m: MessageView) -> bool {
    &&& m.role == Role::Assistant
    &&& m.content.is_empty()
    &&& m.tool_calls is None
    &&& !has_reasoning(m)
}

/// Whether a row is the answer to the tool call `id`.
pub open spec fn answers(m: MessageView, id: Seq<char>) -> bool {
    m.role == Role::Tool && m.tool_call_id == Some(id)
}

/// Whether one of the calls has the id.
pub open spec fn has_id(calls: Seq<ToolCallView>, id: Seq<char>) -> bool {
    exists|k: int| 0 <= k < calls.len() && (#[trigger] calls[k]).id == id
}

/// A list of calls, absent when it is empty.
pub open spec fn some_calls(calls: Seq<ToolCallView>) -> Option<Seq<ToolCallView>> {
    if calls.len() == 0 {
        None
    } else {
        Some(calls)
    }
}

pub fn row_asks_tools(m: &Message) -> (b: bool)
    ensures
        b == asks_tools(m@),
{
    match &m.tool_calls {
        Some(v) => m.role == Role::Assistant && v.len() > 0,
        None => false,
    }
}

fn row_has_reasoning(m: &Message) -> (b: bool)
    ensures
        b == has_reasoning(m@),
{
    match &m.reasoning_content {
        Some(s) => !s.as_str().is_empty(),
        None => false,
    }
}

fn row_is_hollow(m: &Message) -> (b: bool)
    ensures
        b == is_hollow(m@),
{
    m.role == Role::Assistant && m.content.is_empty() && m.tool_calls.is_none()
        && !row_has_reasoning(m)
}

fn row_answers(m: &Message, id: &str) -> (b: bool)
    ensures
        b == answers(m@, id@),
{
    match &m.tool_call_id {
        Some(x) => m.role == Role::Tool && same(x.as_str(), id),
        None => false,
    }
}

fn calls_have_id(calls: &Vec<ToolCall>, id: &str) -> (b: bool)
    ensures
        b == has_id(trait_def::call_views(calls@), id@),
{
    let n: usize = calls.len();
    for i in 0..n
        invariant
            n == calls@.len(),
            forall|k: int| 0 <= k < i ==> (#[trigger] trait_def::call_views(calls@)[k]).id != id@,
    {
        if same(calls[i].id.as_str(), id) {
            assert(trait_def::call_views(calls@)[i as int].id == id@);
            return true;
        }
    }
    false
}

// ── Orphans ─────────────────────────────────────────────────────────────────

/// Whether some tool row answers the call `id`.
pub open spec fn responded(s: Seq<MessageView>, id: Seq<char>) -> bool {
    exists|i: int| 0 <= i < s.len() && answers(#[trigger] s[i], id)
}

/// Whether some row carries a call with the id.
pub open spec fn declared(s: Seq<MessageView>, id: Seq<char>) -> bool {
    exists|i: int|
        0 <= i < s.len() && (#[trigger] s[i]).tool_calls is Some && has_id(s[i].tool_calls->0, id)
}

/// The calls that have an answer somewhere in `s`.
pub open spec fn responded_calls(s: Seq<MessageView>) -> spec_fn(ToolCallView) -> bool {
    |c: ToolCallView| responded(s, c.id)
}

/// A row without its unanswered calls; an assistant row without a call id.
pub open spec fn detached(m: MessageView, s: Seq<MessageView>) -> MessageView {
    MessageView {
        tool_calls: match m.tool_calls {
            Some(calls) => some_calls(calls.filter(responded_calls(s))),
            None => None,
        },
        tool_call_id: if m.role == Role::Assistant {
            None
        } else {
            m.tool_call_id
        },
        ..m
    }
}

/// Every row detached.
pub open spec fn all_detached(s: Seq<MessageView>) -> Seq<MessageView> {
    s.map_values(|m: MessageView| detached(m, s))
}

/// The rows worth keeping: no tool row that answers nothing, no hollow row.
pub open spec fn attached(s: Seq<MessageView>) -> spec_fn(MessageView) -> bool {
    |m: MessageView|
        {
            &&& m.role == Role::Tool ==> m.tool_call_id is Some && declared(s, m.tool_call_id->0)
            &&& !is_hollow(m)
        }
}

/// A conversation without orphans: calls without an answer anywhere, tool rows
/// without a call anywhere, and the assistant rows that this leaves hollow.
pub open spec fn cleaned(s: Seq<MessageView>) -> Seq<MessageView> {
    all_detached(s).filter(attached(all_detached(s)))
}

fn is_responded(messages: &Vec<Message>, id: &str) -> (b: bool)
    ensures
        b == responded(trait_def::views(messages@), id@),
{
    let n: usize = messages.len();
    for i in 0..n
        invariant
            n == messages@.len(),
            forall|k: int|
                0 <= k < i ==> !answers(#[trigger] trait_def::views(messages@)[k], id@),
    {
        if row_answers(&messages[i], id) {
            assert(answers(trait_def::views(messages@)[i as int], id@));
            return true;
        }
    }
    false
}

fn is_declared(messages: &Vec<Message>, id: &str) -> (b: bool)
    ensures
        b == declared(trait_def::views(messages@), id@),
{
    let n: usize = messages.len();
    let ghost s = trait_def::views(messages@);
    for i in 0..n
        invariant
            n == messages@.len(),
            s == trait_def::views(messages@),
            forall|k: int|
                0 <= k < i ==> !((#[trigger] s[k]).tool_calls is Some && has_id(
                    s[k].tool_calls->0,
                    id@,
                )),
    {
        if let Some(calls) = &messages[i].tool_calls {
            if calls_have_id(calls, id) {
                assert(s[i as int].tool_calls is Some);
                return true;
            }
        }
    }
    false
}

fn detach(messages: &Vec<Message>, i: usize) -> (r: Message)
    requires
        i < messages@.len(),
    ensures
        r@ == detached(messages@[i as int]@, trait_def::views(messages@)),
{
    let ghost s = trait_def::views(messages@);
    let mut m = messages[i].clone();
    let mut left: Vec<ToolCall> = Vec::new();
    if let Some(calls) = &messages[i].tool_calls {
        let n: usize = calls.len();
        let ghost cs = trait_def::call_views(calls@);
        let ghost p = responded_calls(s);
        proof {
            reveal(Seq::filter);
            assert(trait_def::call_views(left@) =~= cs.take(0).filter(p));
        }
        for k in 0..n
            invariant
                n == calls@.len(),
                s == trait_def::views(messages@),
                cs == trait_def::call_views(calls@),
                p == responded_calls(s),
                trait_def::call_views(left@) == cs.take(k as int).filter(p),
        {
            let c = calls[k].clone();
            proof {
                text::lemma_filter_take(cs, k as int, p);
                trait_def::lemma_call_views_push(left@, c);
            }
            if is_responded(messages, c.id.as_str()) {
                left.push(c);
            }
        }
        assert(cs.take(n as int) =~= cs);
    }
    m.tool_calls = if m.tool_calls.is_some() && left.len() > 0 {
        Some(left)
    } else {
        None
    };
    if m.role == Role::Assistant {
        m.tool_call_id = None;
    }
    m
}

/// Drops the orphans of a conversation.
pub fn clean_orphaned_tool_calls(messages: &mut Vec<Message>)
    ensures
        trait_def::views(final(messages)@) == cleaned(trait_def::views(old(messages)@)),
{
    let ghost s = trait_def::views(messages@);
    let ghost t = all_detached(s);
    let mut loose: Vec<Message> = Vec::new();
    let n: usize = messages.len();
    assert(trait_def::views(loose@) =~= t.take(0));
    for i in 0..n
        invariant
            n == messages@.len(),
            s == trait_def::views(messages@),
            t == all_detached(s),
            trait_def::views(loose@) == t.take(i as int),
    {
        let d = detach(messages, i);
        proof {
            trait_def::lemma_views_push(loose@, d);
            assert(t.take(i + 1) =~= t.take(i as int).push(t[i as int]));
        }
        loose.push(d);
    }
    assert(t.take(n as int) =~= t);
    let mut kept: Vec<Message> = Vec::new();
    proof {
        reveal(Seq::filter);
        assert(trait_def::views(kept@) =~= t.take(0).filter(attached(t)));
    }
    for i in 0..n
        invariant
            n == loose@.len(),
            t == trait_def::views(loose@),
            trait_def::views(kept@) == t.take(i as int).filter(attached(t)),
    {
        let m = loose[i].clone();
        let known = match &m.tool_call_id {
            Some(id) => is_declared(&loose, id.as_str()),
            None => false,
        };
        proof {
            text::lemma_filter_take(t, i as int, attached(t));
            trait_def::lemma_views_push(kept@, m);
        }
        if (m.role != Role::Tool || known) && !row_is_hollow(&m) {
            kept.push(m);
        }
    }
    assert(t.take(n as int) =~= t);
    *messages = kept;
}

// ── Repeated rows ───────────────────────────────────────────────────────────

/// The ids of a list of calls.
pub open spec fn ids_of(calls: Option<Seq<ToolCallView>>) -> Option<Seq<Seq<char>>> {
    match calls {
        Some(cs) => Some(cs.map_values(|c: ToolCallView| c.id)),
        None => None,
    }
}

/// Whether the tool or assistant row `b` repeats the row `a` before it.
///
/// A user who sends the same text twice did ask twice: user and system rows
/// never count as repeated.
pub open spec fn repeats(a: MessageView, b: MessageView) -> bool {
    &&& b.role == Role::Tool || b.role == Role::Assistant
    &&& a.role == b.role
    &&& a.content == b.content
    &&& ids_of(a.tool_calls) == ids_of(b.tool_calls)
    &&& a.tool_call_id == b.tool_call_id
    &&& a.reasoning_content == b.reasoning_content
    &&& a.name == b.name
}

/// A conversation without the rows that repeat the row before them.
pub open spec fn deduplicated(s: Seq<MessageView>) -> Seq<MessageView>
    decreases s.len(),
{
    if s.len() == 0 {
        Seq::empty()
    } else {
        let d = deduplicated(s.drop_last());
        if d.len() > 0 && repeats(d.last(), s.last()) {
            d
        } else {
            d.push(s.last())
        }
    }
}

fn same_ids(a: &Option<Vec<ToolCall>>, b: &Option<Vec<ToolCall>>) -> (r: bool)
    ensures
        r == (ids_of(trait_def::opt_calls(*a)) == ids_of(trait_def::opt_calls(*b))),
{
    match (a, b) {
        (Some(x), Some(y)) => {
            let n: usize = x.len();
            let ghost xs = ids_of(trait_def::opt_calls(*a))->0;
            let ghost ys = ids_of(trait_def::opt_calls(*b))->0;
            assert(xs.len() == x@.len() && ys.len() == y@.len());
            if n != y.len() {
                return false;
            }
            for i in 0..n
                invariant
                    n == x@.len() == y@.len() == xs.len() == ys.len(),
                    forall|k: int| 0 <= k < n ==> #[trigger] xs[k] == x@[k].id@,
                    forall|k: int| 0 <= k < n ==> #[trigger] ys[k] == y@[k].id@,
                    forall|k: int| 0 <= k < i ==> xs[k] == ys[k],
                    ids_of(trait_def::opt_calls(*a)) == Some(xs),
                    ids_of(trait_def::opt_calls(*b)) == Some(ys),
            {
                if !same(x[i].id.as_str(), y[i].id.as_str()) {
                    assert(xs[i as int] != ys[i as int]);
                    return false;
                }
            }
            assert(xs =~= ys);
            true
        },
        (None, None) => true,
        _ => false,
    }
}

fn row_repeats(a: &Message, b: &Message) -> (r: bool)
    ensures
        r == repeats(a@, b@),
{
    (b.role == Role::Tool || b.role == Role::Assistant) && a.role == b.role && a.content.same_as(
        &b.content,
    ) && same_ids(&a.tool_calls, &b.tool_calls) && text::same_option(
        &a.tool_call_id,
        &b.tool_call_id,
    ) && text::same_option(&a.reasoning_content, &b.reasoning_content) && text::same_option(
        &a.name,
        &b.name,
    )
}

fn drop_repeated_rows(messages: Vec<Message>) -> (r: Vec<Message>)
    ensures
        trait_def::views(r@) == deduplicated(trait_def::views(messages@)),
{
    let ghost all = messages@;
    let ghost s = trait_def::views(all);
    let mut r: Vec<Message> = Vec::new();
    assert(trait_def::views(r@) =~= deduplicated(s.take(0)));
    for m in it: messages
        invariant
            it.seq() == all,
            s == trait_def::views(all),
            trait_def::views(r@) == deduplicated(s.take(it.index() as int)),
    {
        proof {
            assert(s.take(it.index() + 1).drop_last() =~= s.take(it.index() as int));
            trait_def::lemma_views_push(r@, m);
            assert(r@.len() == trait_def::views(r@).len());
        }
        let repeated = r.len() > 0 && row_repeats(&r[r.len() - 1], &m);
        if !repeated {
            r.push(m);
        }
    }
    assert(s.take(s.len() as int) =~= s);
    r
}

// ── Split assistants ────────────────────────────────────────────────────────

/// `a` followed by the calls of `b` whose ids are not there yet.
pub open spec fn united(a: Seq<ToolCallView>, b: Seq<ToolCallView>) -> Seq<ToolCallView>
    decreases b.len(),
{
    if b.len() == 0 {
        a
    } else {
        let u = united(a, b.drop_last());
        if has_id(u, b.last().id) {
            u
        } else {
            u.push(b.last())
        }
    }
}

/// One assistant row that says what `a` and then `b` say: all calls, the first
/// content and the first reasoning that are not empty.
pub open spec fn absorbed(a: MessageView, b: MessageView) -> MessageView {
    MessageView {
        tool_calls: Some(united(a.tool_calls->0, b.tool_calls->0)),
        content: if a.content.is_empty() && !b.content.is_empty() {
            b.content
        } else {
            a.content
        },
        reasoning_content: if !has_reasoning(a) && has_reasoning(b) {
            b.reasoning_content
        } else {
            a.reasoning_content
        },
        ..a
    }
}

/// A conversation in which neighbouring assistant rows with calls are one row.
pub open spec fn merged(s: Seq<MessageView>) -> Seq<MessageView>
    decreases s.len(),
{
    if s.len() == 0 {
        Seq::empty()
    } else {
        let d = merged(s.drop_last());
        if d.len() > 0 && asks_tools(d.last()) && asks_tools(s.last()) {
            d.drop_last().push(absorbed(d.last(), s.last()))
        } else {
            d.push(s.last())
        }
    }
}

fn unite(a: Vec<ToolCall>, b: Vec<ToolCall>) -> (r: Vec<ToolCall>)
    ensures
        trait_def::call_views(r@) == united(
            trait_def::call_views(a@),
            trait_def::call_views(b@),
        ),
{
    let ghost first = trait_def::call_views(a@);
    let ghost all = b@;
    let ghost s = trait_def::call_views(all);
    let mut r: Vec<ToolCall> = a;
    for c in it: b
        invariant
            it.seq() == all,
            s == trait_def::call_views(all),
            trait_def::call_views(r@) == united(first, s.take(it.index() as int)),
    {
        proof {
            assert(s.take(it.index() + 1).drop_last() =~= s.take(it.index() as int));
            trait_def::lemma_call_views_push(r@, c);
        }
        if !calls_have_id(&r, c.id.as_str()) {
            r.push(c);
        }
    }
    assert(s.take(s.len() as int) =~= s);
    r
}

fn absorb(a: Message, b: Message) -> (r: Message)
    requires
        asks_tools(a@),
        asks_tools(b@),
    ensures
        r@ == absorbed(a@, b@),
{
    let take_content = a.content.is_empty() && !b.content.is_empty();
    let take_reasoning = !row_has_reasoning(&a) && row_has_reasoning(&b);
    let content = if take_content {
        b.content
    } else {
        a.content
    };
    let reasoning_content = if take_reasoning {
        b.reasoning_content
    } else {
        a.reasoning_content
    };
    let calls = match (a.tool_calls, b.tool_calls) {
        (Some(x), Some(y)) => unite(x, y),
        _ => Vec::new(),
    };
    Message {
        role: a.role,
        content,
        name: a.name,
        tool_calls: Some(calls),
        tool_call_id: a.tool_call_id,
        reasoning_content,
        created_at: a.created_at,
    }
}

/// Collapses neighbouring assistant rows that each carry tool calls into one.
pub fn merge_consecutive_tool_call_assistants(messages: &mut Vec<Message>)
    ensures
        trait_def::views(final(messages)@) == merged(trait_def::views(old(messages)@)),
{
    let ghost all = messages@;
    let ghost s = trait_def::views(all);
    let mut taken: Vec<Message> = Vec::new();
    std::mem::swap(&mut taken, messages);
    let mut r: Vec<Message> = Vec::new();
    assert(trait_def::views(r@) =~= merged(s.take(0)));
    for m in it: taken
        invariant
            it.seq() == all,
            s == trait_def::views(all),
            trait_def::views(r@) == merged(s.take(it.index() as int)),
    {
        let ghost d = trait_def::views(r@);
        proof {
            assert(s.take(it.index() + 1).drop_last() =~= s.take(it.index() as int));
            assert(d.len() == r@.len());
        }
        let joins = r.len() > 0 && row_asks_tools(&r[r.len() - 1]) && row_asks_tools(&m);
        if joins {
            if let Some(last) = r.pop() {
                assert(trait_def::views(r@) =~= d.drop_last());
                let one = absorb(last, m);
                proof {
                    trait_def::lemma_views_push(r@, one);
                }
                r.push(one);
            }
        } else {
            proof {
                trait_def::lemma_views_push(r@, m);
            }
            r.push(m);
        }
    }
    assert(s.take(s.len() as int) =~= s);
    *messages = r;
}

// ── Pairing calls with answers ──────────────────────────────────────────────

/// The row that the run of tool rows before `p` follows, or -1.
pub open spec fn owner(s: Seq<MessageView>, p: int) -> int
    decreases p,
{
    if p <= 0 {
        -1
    } else if s[p - 1].role != Role::Tool {
        p - 1
    } else {
        owner(s, p - 1)
    }
}

/// How many rows between `i` and `p` answer the call `id`.
pub open spec fn earlier_answers(s: Seq<MessageView>, i: int, p: int, id: Seq<char>) -> nat
    decreases p - i,
{
    if p <= i + 1 {
        0
    } else {
        earlier_answers(s, i, p - 1, id) + (if answers(s[p - 1], id) {
            1nat
        } else {
            0
        })
    }
}

/// How many of the calls have the id.
pub open spec fn times_called(calls: Seq<ToolCallView>, id: Seq<char>) -> nat
    decreases calls.len(),
{
    if calls.len() == 0 {
        0
    } else {
        times_called(calls.drop_last(), id) + (if calls.last().id == id {
            1nat
        } else {
            0
        })
    }
}

/// Whether the tool row `p` is paired: it belongs to the run right after an
/// assistant that makes the call, and fewer earlier rows of the run answer that
/// call than times it is made.
pub open spec fn paired(s: Seq<MessageView>, p: int) -> bool {
    let i = owner(s, p);
    &&& s[p].tool_call_id is Some
    &&& i >= 0
    &&& s[i].role == Role::Assistant
    &&& s[i].tool_calls is Some
    &&& earlier_answers(s, i, p, s[p].tool_call_id->0) < times_called(
        s[i].tool_calls->0,
        s[p].tool_call_id->0,
    )
}

/// Whether a row of the run right after row `i` answers the call `id`.
pub open spec fn answered_after(s: Seq<MessageView>, i: int, id: Seq<char>) -> bool {
    exists|p: int| i < p < s.len() && #[trigger] owner(s, p) == i && answers(s[p], id)
}

/// The calls that row `i` keeps: those answered in the run right after it, each
/// id once.
pub open spec fn kept_calls(s: Seq<MessageView>, i: int, calls: Seq<ToolCallView>) -> Seq<
    ToolCallView,
>
    decreases calls.len(),
{
    if calls.len() == 0 {
        Seq::empty()
    } else {
        let k = kept_calls(s, i, calls.drop_last());
        if answered_after(s, i, calls.last().id) && !has_id(k, calls.last().id) {
            k.push(calls.last())
        } else {
            k
        }
    }
}

/// The assistant row `i` with the calls that it keeps.
pub open spec fn pruned(s: Seq<MessageView>, i: int) -> MessageView {
    MessageView {
        tool_calls: match s[i].tool_calls {
            Some(calls) => some_calls(kept_calls(s, i, calls)),
            None => None,
        },
        ..s[i]
    }
}

/// The first `n` rows of `s`, the assistants pruned, without the tool rows that
/// are not paired and without hollow rows.
pub open spec fn rebuilt(s: Seq<MessageView>, n: int) -> Seq<MessageView>
    decreases n,
{
    if n <= 0 {
        Seq::empty()
    } else {
        let o = rebuilt(s, n - 1);
        if s[n - 1].role == Role::Tool {
            if paired(s, n - 1) {
                o.push(s[n - 1])
            } else {
                o
            }
        } else if s[n - 1].role == Role::Assistant {
            if is_hollow(pruned(s, n - 1)) {
                o
            } else {
                o.push(pruned(s, n - 1))
            }
        } else {
            o.push(s[n - 1])
        }
    }
}

/// What a provider is sent of the conversation `s`.
pub open spec fn validated(s: Seq<MessageView>) -> Seq<MessageView> {
    let t = merged(deduplicated(cleaned(s)));
    rebuilt(t, t.len() as int)
}

fn find_owner(messages: &Vec<Message>, p: usize) -> (r: Option<usize>)
    requires
        p <= messages@.len(),
    ensures
        match r {
            Some(i) => i < p && owner(trait_def::views(messages@), p as int) == i,
            None => owner(trait_def::views(messages@), p as int) == -1,
        },
{
    let ghost s = trait_def::views(messages@);
    let mut q: usize = p;
    while q > 0
        invariant
            q <= p <= messages@.len(),
            s == trait_def::views(messages@),
            owner(s, p as int) == owner(s, q as int),
        decreases q,
    {
        if messages[q - 1].role != Role::Tool {
            return Some(q - 1);
        }
        q = q - 1;
    }
    None
}

fn count_earlier_answers(messages: &Vec<Message>, i: usize, p: usize, id: &str) -> (r: usize)
    requires
        i < p <= messages@.len(),
    ensures
        r == earlier_answers(trait_def::views(messages@), i as int, p as int, id@),
{
    let ghost s = trait_def::views(messages@);
    let mut r: usize = 0;
    let mut q: usize = i + 1;
    while q < p
        invariant
            i < q <= p <= messages@.len(),
            s == trait_def::views(messages@),
            r == earlier_answers(s, i as int, q as int, id@),
            r <= q,
        decreases p - q,
    {
        if row_answers(&messages[q], id) {
            r = r + 1;
        }
        q = q + 1;
    }
    r
}

fn count_calls(calls: &Vec<ToolCall>, id: &str) -> (r: usize)
    ensures
        r == times_called(trait_def::call_views(calls@), id@),
{
    let ghost s = trait_def::call_views(calls@);
    let n: usize = calls.len();
    let mut r: usize = 0;
    for i in 0..n
        invariant
            n == calls@.len(),
            s == trait_def::call_views(calls@),
            r == times_called(s.take(i as int), id@),
            r <= i,
    {
        assert(s.take(i + 1).drop_last() =~= s.take(i as int));
        if same(calls[i].id.as_str(), id) {
            r = r + 1;
        }
    }
    assert(s.take(n as int) =~= s);
    r
}

fn is_paired(messages: &Vec<Message>, p: usize) -> (b: bool)
    requires
        p < messages@.len(),
    ensures
        b == paired(trait_def::views(messages@), p as int),
{
    let id = match &messages[p].tool_call_id {
        Some(id) => id,
        None => return false,
    };
    match find_owner(messages, p) {
        Some(i) => match &messages[i].tool_calls {
            Some(calls) => messages[i].role == Role::Assistant && count_earlier_answers(
                messages,
                i,
                p,
                id.as_str(),
            ) < count_calls(calls, id.as_str()),
            None => false,
        },
        None => false,
    }
}

fn is_answered_after(messages: &Vec<Message>, i: usize, id: &str) -> (b: bool)
    requires
        i < messages@.len(),
        messages@[i as int].role == Role::Assistant,
    ensures
        b == answered_after(trait_def::views(messages@), i as int, id@),
{
    let ghost s = trait_def::views(messages@);
    let n: usize = messages.len();
    let mut p: usize = i + 1;
    while p < n && messages[p].role == Role::Tool
        invariant
            i < p <= n == messages@.len(),
            s == trait_def::views(messages@),
            owner(s, p as int) == i,
            forall|q: int|
                i < q < p ==> !(#[trigger] owner(s, q) == i && answers(s[q], id@)),
        decreases n - p,
    {
        if row_answers(&messages[p], id) {
            assert(owner(s, p as int) == i && answers(s[p as int], id@));
            return true;
        }
        p = p + 1;
    }
    proof {
        if p < n {
            assert forall|q: int| p <= q < n implies !(#[trigger] owner(s, q) == i && answers(
                s[q],
                id@,
            )) by {
                if q > p {
                    lemma_owner_after(s, p as int, q);
                }
            }
        }
    }
    false
}

fn keep_calls(messages: &Vec<Message>, i: usize, calls: &Vec<ToolCall>) -> (r: Vec<ToolCall>)
    requires
        i < messages@.len(),
        messages@[i as int].role == Role::Assistant,
    ensures
        trait_def::call_views(r@) == kept_calls(
            trait_def::views(messages@),
            i as int,
            trait_def::call_views(calls@),
        ),
{
    let ghost s = trait_def::views(messages@);
    let ghost cs = trait_def::call_views(calls@);
    let n: usize = calls.len();
    let mut r: Vec<ToolCall> = Vec::new();
    assert(trait_def::call_views(r@) =~= kept_calls(s, i as int, cs.take(0)));
    for k in 0..n
        invariant
            n == calls@.len(),
            i < messages@.len(),
            messages@[i as int].role == Role::Assistant,
            s == trait_def::views(messages@),
            cs == trait_def::call_views(calls@),
            trait_def::call_views(r@) == kept_calls(s, i as int, cs.take(k as int)),
    {
        let c = calls[k].clone();
        proof {
            assert(cs.take(k + 1).drop_last() =~= cs.take(k as int));
            trait_def::lemma_call_views_push(r@, c);
        }
        if is_answered_after(messages, i, c.id.as_str()) && !calls_have_id(&r, c.id.as_str()) {
            r.push(c);
        }
    }
    assert(cs.take(n as int) =~= cs);
    r
}

fn prune(messages: &Vec<Message>, i: usize) -> (r: Message)
    requires
        i < messages@.len(),
        messages@[i as int].role == Role::Assistant,
    ensures
        r@ == pruned(trait_def::views(messages@), i as int),
{
    let mut m = messages[i].clone();
    m.tool_calls = match &messages[i].tool_calls {
        Some(calls) => {
            let kept = keep_calls(messages, i, calls);
            if kept.len() == 0 {
                None
            } else {
                Some(kept)
            }
        },
        None => None,
    };
    m
}

/// Turns a conversation into one with intact tool chains: orphaned tool rows
/// dropped, unpaired calls stripped, repeated rows dropped, split assistants
/// merged, hollow assistants removed.
///
/// A call is paired with a response that comes after the assistant that makes
/// it, with nothing but tool rows between them. Only paired responses and
/// paired calls are kept.
pub fn validate_tool_chain_for_provider(messages: Vec<Message>) -> (r: Vec<Message>)
    ensures
        trait_def::views(r@) == validated(trait_def::views(messages@)),
{
    let mut rows = messages;
    clean_orphaned_tool_calls(&mut rows);
    let mut rows = drop_repeated_rows(rows);
    merge_consecutive_tool_call_assistants(&mut rows);
    let ghost s = trait_def::views(rows@);
    let n: usize = rows.len();
    let mut r: Vec<Message> = Vec::new();
    assert(trait_def::views(r@) =~= rebuilt(s, 0));
    for i in 0..n
        invariant
            n == rows@.len(),
            s == trait_def::views(rows@),
            trait_def::views(r@) == rebuilt(s, i as int),
    {
        let role = rows[i].role;
        if role == Role::Tool {
            if is_paired(&rows, i) {
                let m = rows[i].clone();
                proof {
                    trait_def::lemma_views_push(r@, m);
                }
                r.push(m);
            }
        } else if role == Role::Assistant {
            let m = prune(&rows, i);
            proof {
                trait_def::lemma_views_push(r@, m);
            }
            if !row_is_hollow(&m) {
                r.push(m);
            }
        } else {
            let m = rows[i].clone();
            proof {
                trait_def::lemma_views_push(r@, m);
            }
            r.push(m);
        }
    }
    r
}

// ── Laws ────────────────────────────────────────────────────────────────────

/// The owner of a run that lies behind a non-tool row is not before that row.
proof fn lemma_owner_after(s: Seq<MessageView>, p: int, q: int)
    requires
        0 <= p < q <= s.len(),
        s[p].role != Role::Tool,
    ensures
        owner(s, q) >= p,
    decreases q,
{
    if s[q - 1].role == Role::Tool {
        lemma_owner_after(s, p, q - 1);
    }
}

/// An owner is before its run and not a tool row, and nothing but tool rows
/// stands between them.
proof fn lemma_owner(s: Seq<MessageView>, p: int)
    requires
        0 <= p <= s.len(),
    ensures
        -1 <= owner(s, p) < p,
        owner(s, p) >= 0 ==> s[owner(s, p)].role != Role::Tool,
        forall|q: int| owner(s, p) < q < p ==> (#[trigger] s[q]).role == Role::Tool,
    decreases p,
{
    if p > 0 && s[p - 1].role == Role::Tool {
        lemma_owner(s, p - 1);
    }
}

/// The owner depends on the rows before the run alone.
proof fn lemma_owner_push(s: Seq<MessageView>, m: MessageView, p: int)
    requires
        0 <= p <= s.len(),
    ensures
        owner(s.push(m), p) == owner(s, p),
    decreases p,
{
    if p > 0 {
        assert(s.push(m)[p - 1] == s[p - 1]);
        lemma_owner_push(s, m, p - 1);
    }
}

proof fn lemma_times_called(calls: Seq<ToolCallView>, id: Seq<char>)
    ensures
        times_called(calls, id) > 0 <==> has_id(calls, id),
    decreases calls.len(),
{
    if calls.len() > 0 {
        let front = calls.drop_last();
        lemma_times_called(front, id);
        if has_id(front, id) {
            let k = choose|k: int| 0 <= k < front.len() && (#[trigger] front[k]).id == id;
            assert(calls[k].id == id);
        }
        if has_id(calls, id) {
            let k = choose|k: int| 0 <= k < calls.len() && (#[trigger] calls[k]).id == id;
            if k < front.len() {
                assert(front[k].id == id);
            }
        }
        if calls.last().id == id {
            assert(calls[calls.len() - 1].id == id);
        }
    }
}

/// The kept calls: answered, made by the row, each id once, and none missing.
proof fn lemma_kept_calls(s: Seq<MessageView>, i: int, calls: Seq<ToolCallView>)
    ensures
        distinct_ids(kept_calls(s, i, calls)),
        forall|k: int|
            0 <= k < kept_calls(s, i, calls).len() ==> answered_after(
                s,
                i,
                (#[trigger] kept_calls(s, i, calls)[k]).id,
            ) && has_id(calls, kept_calls(s, i, calls)[k].id),
        forall|id: Seq<char>|
            has_id(calls, id) && answered_after(s, i, id) ==> #[trigger] has_id(
                kept_calls(s, i, calls),
                id,
            ),
    decreases calls.len(),
{
    let kept = kept_calls(s, i, calls);
    if calls.len() > 0 {
        let front = calls.drop_last();
        let before = kept_calls(s, i, front);
        lemma_kept_calls(s, i, front);
        assert forall|k: int| 0 <= k < kept.len() implies answered_after(
            s,
            i,
            (#[trigger] kept[k]).id,
        ) && has_id(calls, kept[k].id) by {
            if k < before.len() {
                assert(kept[k] == before[k]);
                let q = choose|q: int|
                    0 <= q < front.len() && (#[trigger] front[q]).id == kept[k].id;
                assert(calls[q].id == kept[k].id);
            } else {
                assert(calls[calls.len() - 1].id == kept[k].id);
            }
        }
        assert forall|id: Seq<char>| has_id(calls, id) && answered_after(s, i, id) implies has_id(
            kept,
            id,
        ) by {
            let q = choose|q: int| 0 <= q < calls.len() && (#[trigger] calls[q]).id == id;
            if q < front.len() {
                assert(front[q].id == id);
                assert(has_id(front, id));
            }
            if has_id(before, id) {
                let k = choose|k: int| 0 <= k < before.len() && (#[trigger] before[k]).id == id;
                assert(kept[k].id == id);
            } else {
                assert(kept[kept.len() - 1].id == id);
            }
        }
        assert forall|a: int, b: int| 0 <= a < b < kept.len() implies (#[trigger] kept[a]).id != (
        #[trigger] kept[b]).id by {
            if b < before.len() {
                assert(before[a].id != before[b].id);
            } else {
                assert(before[a] == kept[a]);
            }
        }
    }
}

/// The first answer in a run is not preceded by another one.
proof fn lemma_first_answer(s: Seq<MessageView>, i: int, p: int, id: Seq<char>) -> (q: int)
    requires
        0 <= i < p < s.len(),
        owner(s, p) == i,
        answers(s[p], id),
    ensures
        i < q <= p,
        owner(s, q) == i,
        answers(s[q], id),
        earlier_answers(s, i, q, id) == 0,
    decreases p,
{
    if earlier_answers(s, i, p, id) == 0 {
        p
    } else {
        let q = lemma_some_earlier_answer(s, i, p, id);
        lemma_owner_within(s, i, q, p);
        lemma_first_answer(s, i, q, id)
    }
}

proof fn lemma_some_earlier_answer(s: Seq<MessageView>, i: int, p: int, id: Seq<char>) -> (q: int)
    requires
        0 <= i < p <= s.len(),
        earlier_answers(s, i, p, id) > 0,
    ensures
        i < q < p,
        answers(s[q], id),
    decreases p - i,
{
    if answers(s[p - 1], id) {
        p - 1
    } else {
        lemma_some_earlier_answer(s, i, p - 1, id)
    }
}

/// A position inside a run has the owner of the run.
proof fn lemma_owner_within(s: Seq<MessageView>, i: int, q: int, p: int)
    requires
        0 <= i < q <= p <= s.len(),
        owner(s, p) == i,
    ensures
        owner(s, q) == i,
    decreases p,
{
    if q < p {
        lemma_owner(s, p);
        assert(s[p - 1].role == Role::Tool);
        lemma_owner_within(s, i, q, p - 1);
    }
}

/// Whether no two calls have the same id.
pub open spec fn distinct_ids(calls: Seq<ToolCallView>) -> bool {
    forall|a: int, b: int|
        0 <= a < b < calls.len() ==> (#[trigger] calls[a]).id != (#[trigger] calls[b]).id
}

/// Whether row `i` is an assistant that makes the call.
pub open spec fn asks_for(t: Seq<MessageView>, i: int, id: Option<Seq<char>>) -> bool {
    &&& id is Some
    &&& 0 <= i < t.len()
    &&& asks_tools(t[i])
    &&& has_id(t[i].tool_calls->0, id->0)
}

/// Whether every tool row answers a call of the assistant that its run follows.
pub open spec fn every_answer_is_asked_for(t: Seq<MessageView>) -> bool {
    forall|p: int|
        0 <= p < t.len() && (#[trigger] t[p]).role == Role::Tool ==> asks_for(
            t,
            owner(t, p),
            t[p].tool_call_id,
        )
}

/// Whether every call of an assistant is answered in the run right after it.
pub open spec fn every_call_is_answered(t: Seq<MessageView>) -> bool {
    forall|i: int, k: int|
        0 <= i < t.len() && t[i].role == Role::Assistant && t[i].tool_calls is Some && 0 <= k
            < t[i].tool_calls->0.len() ==> answered_after(
            t,
            i,
            (#[trigger] t[i].tool_calls->0[k]).id,
        )
}

/// The owner of a run behind a row that is no tool row is the same among the
/// rows from that one on.
proof fn lemma_owner_skip(t: Seq<MessageView>, k: int, p: int)
    requires
        0 <= k < p <= t.len(),
        t[k].role != Role::Tool,
    ensures
        owner(t.skip(k), p - k) == owner(t, p) - k,
        owner(t, p) >= k,
    decreases p,
{
    assert(t.skip(k)[p - k - 1] == t[p - 1]);
    if t[p - 1].role == Role::Tool {
        lemma_owner_skip(t, k, p - 1);
    }
}

/// A split before a row that is no tool row parts no call from its answer.
pub proof fn lemma_split_keeps_pairs(t: Seq<MessageView>, k: int)
    requires
        0 <= k < t.len(),
        t[k].role != Role::Tool,
    ensures
        every_answer_is_asked_for(t) ==> every_answer_is_asked_for(t.skip(k)),
        every_call_is_answered(t) ==> every_call_is_answered(t.skip(k)),
{
    let r = t.skip(k);
    if every_answer_is_asked_for(t) {
        assert forall|p: int| 0 <= p < r.len() && (#[trigger] r[p]).role == Role::Tool implies asks_for(
            r,
            owner(r, p),
            r[p].tool_call_id,
        ) by {
            assert(r[p] == t[p + k]);
            assert(p > 0);
            lemma_owner_skip(t, k, p + k);
            lemma_owner(t, p + k);
            assert(r[owner(r, p)] == t[owner(t, p + k)]);
        }
    }
    if every_call_is_answered(t) {
        assert forall|i: int, j: int|
            0 <= i < r.len() && r[i].role == Role::Assistant && r[i].tool_calls is Some && 0 <= j
                < r[i].tool_calls->0.len() implies answered_after(
            r,
            i,
            (#[trigger] r[i].tool_calls->0[j]).id,
        ) by {
            let id = r[i].tool_calls->0[j].id;
            assert(r[i] == t[i + k]);
            assert(t[i + k].tool_calls->0[j].id == id);
            assert(answered_after(t, i + k, id));
            let p = choose|p: int|
                i + k < p < t.len() && #[trigger] owner(t, p) == i + k && answers(t[p], id);
            lemma_owner_skip(t, k, p);
            assert(r[p - k] == t[p]);
            assert(owner(r, p - k) == i);
        }
    }
}

/// Whether the calls of an assistant row, if it has any list of them, are at
/// least one and repeat no id.
pub open spec fn calls_are_sound(m: MessageView) -> bool {
    m.role == Role::Assistant && m.tool_calls is Some ==> m.tool_calls->0.len() > 0 && distinct_ids(
        m.tool_calls->0,
    )
}

/// Whether the call lists of all rows are sound.
pub open spec fn call_lists_are_sound(t: Seq<MessageView>) -> bool {
    forall|i: int| 0 <= i < t.len() ==> calls_are_sound(#[trigger] t[i])
}

/// Whether no assistant row is hollow.
pub open spec fn no_row_is_hollow(t: Seq<MessageView>) -> bool {
    forall|i: int| 0 <= i < t.len() ==> !is_hollow(#[trigger] t[i])
}

/// A paired answer to `id` that is still to come after the first `n` rows, in
/// the run that these rows end in.
spec fn to_come(s: Seq<MessageView>, n: int, id: Seq<char>) -> bool {
    exists|q: int|
        n <= q < s.len() && #[trigger] owner(s, q) == owner(s, n) && answers(s[q], id) && paired(s, q)
}

/// Whether every call of the rows `o` is answered, or is a call of the last
/// non-tool row and has its answer still to come.
#[verifier::opaque]
spec fn answered_or_to_come(s: Seq<MessageView>, n: int, o: Seq<MessageView>) -> bool {
    forall|i: int, k: int|
        0 <= i < o.len() && o[i].role == Role::Assistant && o[i].tool_calls is Some && 0 <= k
            < o[i].tool_calls->0.len() ==> answered_after(
            o,
            i,
            (#[trigger] o[i].tool_calls->0[k]).id,
        ) || (owner(o, o.len() as int) == i && to_come(s, n, o[i].tool_calls->0[k].id))
}

/// What the rebuilt rows keep without regard to what is to come.
#[verifier::opaque]
spec fn rows_are_sound(o: Seq<MessageView>) -> bool {
    every_answer_is_asked_for(o) && call_lists_are_sound(o) && no_row_is_hollow(o)
}

/// What holds of the first `n` rebuilt rows.
spec fn rebuilt_so_far(s: Seq<MessageView>, n: int) -> bool {
    let o = rebuilt(s, n);
    let last = owner(o, o.len() as int);
    let w = owner(s, n);
    &&& rows_are_sound(o)
    &&& answered_or_to_come(s, n, o)
    &&& (w >= 0 && s[w].role == Role::Assistant && !is_hollow(pruned(s, w)) ==> last >= 0 && o[last]
        == pruned(s, w))
}

proof fn lemma_answered_push(o: Seq<MessageView>, m: MessageView, i: int, id: Seq<char>)
    requires
        answered_after(o, i, id),
    ensures
        answered_after(o.push(m), i, id),
{
    let p = choose|p: int| i < p < o.len() && #[trigger] owner(o, p) == i && answers(o[p], id);
    lemma_owner_push(o, m, p);
    assert(o.push(m)[p] == o[p]);
    assert(owner(o.push(m), p) == i);
}

proof fn lemma_asked_push(o: Seq<MessageView>, m: MessageView)
    requires
        every_answer_is_asked_for(o),
        m.role == Role::Tool ==> asks_for(o, owner(o, o.len() as int), m.tool_call_id),
    ensures
        every_answer_is_asked_for(o.push(m)),
{
    let t = o.push(m);
    assert forall|p: int| 0 <= p < t.len() && (#[trigger] t[p]).role == Role::Tool implies asks_for(
        t,
        owner(t, p),
        t[p].tool_call_id,
    ) by {
        lemma_owner_push(o, m, p);
        lemma_owner(o, p);
        if p < o.len() {
            assert(o[p] == t[p]);
            assert(asks_for(o, owner(o, p), o[p].tool_call_id));
        }
        assert(t[owner(o, p)] == o[owner(o, p)]);
    }
}

proof fn lemma_lists_push(o: Seq<MessageView>, m: MessageView)
    requires
        call_lists_are_sound(o),
        no_row_is_hollow(o),
        calls_are_sound(m),
        !is_hollow(m),
    ensures
        call_lists_are_sound(o.push(m)),
        no_row_is_hollow(o.push(m)),
{
    let t = o.push(m);
    assert forall|i: int| 0 <= i < t.len() implies calls_are_sound(#[trigger] t[i]) && !is_hollow(
        t[i],
    ) by {
        if i < o.len() {
            assert(t[i] == o[i]);
        }
    }
}

proof fn lemma_sound_push(o: Seq<MessageView>, m: MessageView)
    requires
        rows_are_sound(o),
        m.role == Role::Tool ==> asks_for(o, owner(o, o.len() as int), m.tool_call_id),
        calls_are_sound(m),
        !is_hollow(m),
    ensures
        rows_are_sound(o.push(m)),
{
    reveal(rows_are_sound);
    lemma_asked_push(o, m);
    lemma_lists_push(o, m);
}

/// After a row that is not a tool row, no answer to an earlier call can come.
proof fn lemma_nothing_to_come(s: Seq<MessageView>, n: int, id: Seq<char>)
    requires
        0 <= n < s.len(),
        s[n].role != Role::Tool,
    ensures
        !to_come(s, n, id),
{
    if to_come(s, n, id) {
        let q = choose|q: int|
            n <= q < s.len() && #[trigger] owner(s, q) == owner(s, n) && answers(s[q], id)
                && paired(s, q);
        lemma_owner(s, n);
        if q > n {
            lemma_owner_after(s, n, q);
        }
    }
}

/// A tool row that is not paired leaves what is to come.
proof fn lemma_skip_row(s: Seq<MessageView>, n: int, o: Seq<MessageView>)
    requires
        0 <= n < s.len(),
        s[n].role == Role::Tool,
        !paired(s, n),
        answered_or_to_come(s, n, o),
    ensures
        answered_or_to_come(s, n + 1, o),
{
    reveal(answered_or_to_come);
    assert(owner(s, n + 1) == owner(s, n));
    assert forall|i: int, k: int|
        0 <= i < o.len() && o[i].role == Role::Assistant && o[i].tool_calls is Some && 0 <= k
            < o[i].tool_calls->0.len() implies answered_after(
        o,
        i,
        (#[trigger] o[i].tool_calls->0[k]).id,
    ) || (owner(o, o.len() as int) == i && to_come(s, n + 1, o[i].tool_calls->0[k].id)) by {
        let c = o[i].tool_calls->0[k].id;
        if !answered_after(o, i, c) {
            let q = choose|q: int|
                n <= q < s.len() && #[trigger] owner(s, q) == owner(s, n) && answers(s[q], c)
                    && paired(s, q);
            assert(owner(s, q) == owner(s, n + 1));
        }
    }
}

/// A paired tool row is one of the answers that were to come.
proof fn lemma_pair_row(s: Seq<MessageView>, n: int, o: Seq<MessageView>)
    requires
        0 <= n < s.len(),
        s[n].role == Role::Tool,
        answered_or_to_come(s, n, o),
    ensures
        answered_or_to_come(s, n + 1, o.push(s[n])),
{
    reveal(answered_or_to_come);
    let m = s[n];
    let t = o.push(m);
    assert(owner(s, n + 1) == owner(s, n));
    lemma_owner_push(o, m, o.len() as int);
    assert(t[o.len() as int] == m);
    assert(owner(t, t.len() as int) == owner(t, o.len() as int));
    assert forall|i: int, k: int|
        0 <= i < t.len() && t[i].role == Role::Assistant && t[i].tool_calls is Some && 0 <= k
            < t[i].tool_calls->0.len() implies answered_after(
        t,
        i,
        (#[trigger] t[i].tool_calls->0[k]).id,
    ) || (owner(t, t.len() as int) == i && to_come(s, n + 1, t[i].tool_calls->0[k].id)) by {
        assert(t[i] == o[i]);
        let c = o[i].tool_calls->0[k].id;
        if answered_after(o, i, c) {
            lemma_answered_push(o, m, i, c);
        } else {
            let q = choose|q: int|
                n <= q < s.len() && #[trigger] owner(s, q) == owner(s, n) && answers(s[q], c)
                    && paired(s, q);
            if q == n {
                assert(owner(t, o.len() as int) == i && answers(t[o.len() as int], c));
            } else {
                assert(owner(s, q) == owner(s, n + 1));
            }
        }
    }
}

/// A row that is not a tool row ends the run before it, and what its own calls
/// keep is to come.
proof fn lemma_turn_row(s: Seq<MessageView>, n: int, o: Seq<MessageView>, m: MessageView)
    requires
        0 <= n < s.len(),
        s[n].role != Role::Tool,
        m.role != Role::Tool,
        answered_or_to_come(s, n, o),
        m.role == Role::Assistant && m.tool_calls is Some ==> forall|k: int|
            0 <= k < m.tool_calls->0.len() ==> to_come(
                s,
                n + 1,
                (#[trigger] m.tool_calls->0[k]).id,
            ),
    ensures
        answered_or_to_come(s, n + 1, o),
        answered_or_to_come(s, n + 1, o.push(m)),
{
    reveal(answered_or_to_come);
    let t = o.push(m);
    assert forall|i: int, k: int|
        0 <= i < o.len() && o[i].role == Role::Assistant && o[i].tool_calls is Some && 0 <= k
            < o[i].tool_calls->0.len() implies answered_after(
        o,
        i,
        (#[trigger] o[i].tool_calls->0[k]).id,
    ) by {
        lemma_nothing_to_come(s, n, o[i].tool_calls->0[k].id);
    }
    assert(t[o.len() as int] == m);
    assert(owner(t, t.len() as int) == o.len());
    assert forall|i: int, k: int|
        0 <= i < t.len() && t[i].role == Role::Assistant && t[i].tool_calls is Some && 0 <= k
            < t[i].tool_calls->0.len() implies answered_after(
        t,
        i,
        (#[trigger] t[i].tool_calls->0[k]).id,
    ) || (owner(t, t.len() as int) == i && to_come(s, n + 1, t[i].tool_calls->0[k].id)) by {
        if i < o.len() {
            assert(t[i] == o[i]);
            assert(answered_after(o, i, o[i].tool_calls->0[k].id));
            lemma_answered_push(o, m, i, t[i].tool_calls->0[k].id);
        }
    }
}

/// Each call that an assistant row keeps has a paired answer to come.
proof fn lemma_kept_calls_to_come(s: Seq<MessageView>, n: int, k: int)
    requires
        0 <= n < s.len(),
        s[n].role == Role::Assistant,
        s[n].tool_calls is Some,
        0 <= k < kept_calls(s, n, s[n].tool_calls->0).len(),
    ensures
        to_come(s, n + 1, kept_calls(s, n, s[n].tool_calls->0)[k].id),
{
    let calls = s[n].tool_calls->0;
    let c = kept_calls(s, n, calls)[k].id;
    lemma_kept_calls(s, n, calls);
    assert(answered_after(s, n, kept_calls(s, n, calls)[k].id));
    let p = choose|p: int| n < p < s.len() && #[trigger] owner(s, p) == n && answers(s[p], c);
    let q = lemma_first_answer(s, n, p, c);
    lemma_times_called(calls, c);
    assert(paired(s, q));
    assert(owner(s, n + 1) == n);
    assert(owner(s, q) == owner(s, n + 1));
}

/// A paired tool row answers a call that its owner keeps.
proof fn lemma_paired_is_kept(s: Seq<MessageView>, p: int)
    requires
        0 <= p < s.len(),
        s[p].role == Role::Tool,
        paired(s, p),
    ensures
        asks_tools(pruned(s, owner(s, p))),
        has_id(pruned(s, owner(s, p)).tool_calls->0, s[p].tool_call_id->0),
{
    let w = owner(s, p);
    let id = s[p].tool_call_id->0;
    let calls = s[w].tool_calls->0;
    lemma_owner(s, p);
    lemma_times_called(calls, id);
    lemma_kept_calls(s, w, calls);
    assert(owner(s, p) == w && answers(s[p], id));
    assert(answered_after(s, w, id));
    assert(has_id(kept_calls(s, w, calls), id));
    let k = choose|k: int|
        0 <= k < kept_calls(s, w, calls).len() && (#[trigger] kept_calls(s, w, calls)[k]).id == id;
}

proof fn lemma_rebuilt(s: Seq<MessageView>, n: int)
    requires
        0 <= n <= s.len(),
    ensures
        rebuilt_so_far(s, n),
    decreases n,
{
    if n == 0 {
        reveal(answered_or_to_come);
        reveal(rows_are_sound);
    } else {
        lemma_rebuilt(s, n - 1);
        let m = s[n - 1];
        let o = rebuilt(s, n - 1);
        if m.role == Role::Tool {
            if paired(s, n - 1) {
                lemma_paired_is_kept(s, n - 1);
                lemma_pair_row(s, n - 1, o);
                lemma_owner(o, o.len() as int);
                lemma_sound_push(o, m);
                lemma_owner_push(o, m, o.len() as int);
                assert(o.push(m)[o.len() as int] == m);
            } else {
                lemma_skip_row(s, n - 1, o);
            }
        } else if m.role == Role::Assistant {
            let r = pruned(s, n - 1);
            if s[n - 1].tool_calls is Some {
                lemma_kept_calls(s, n - 1, s[n - 1].tool_calls->0);
                assert forall|k: int|
                    0 <= k < kept_calls(s, n - 1, s[n - 1].tool_calls->0).len() implies to_come(
                    s,
                    n,
                    (#[trigger] kept_calls(s, n - 1, s[n - 1].tool_calls->0)[k]).id,
                ) by {
                    lemma_kept_calls_to_come(s, n - 1, k);
                }
            }
            lemma_turn_row(s, n - 1, o, r);
            if !is_hollow(r) {
                lemma_sound_push(o, r);
                assert(o.push(r)[o.len() as int] == r);
            }
        } else {
            lemma_turn_row(s, n - 1, o, m);
            lemma_sound_push(o, m);
            assert(o.push(m)[o.len() as int] == m);
        }
    }
}

/// What a provider is sent has intact tool chains, whatever the conversation
/// was: every tool row answers a call of the assistant row that its run of tool
/// rows directly follows, every call is answered there, no assistant lists an
/// id twice or an empty list, and no assistant row is hollow.
pub proof fn law_chain_intact(s: Seq<MessageView>)
    ensures
        every_answer_is_asked_for(validated(s)),
        every_call_is_answered(validated(s)),
        call_lists_are_sound(validated(s)),
        no_row_is_hollow(validated(s)),
{
    let t = merged(deduplicated(cleaned(s)));
    let o = rebuilt(t, t.len() as int);
    lemma_rebuilt(t, t.len() as int);
    reveal(rows_are_sound);
    reveal(answered_or_to_come);
    assert forall|i: int, k: int|
        0 <= i < o.len() && o[i].role == Role::Assistant && o[i].tool_calls is Some && 0 <= k
            < o[i].tool_calls->0.len() implies answered_after(
        o,
        i,
        (#[trigger] o[i].tool_calls->0[k]).id,
    ) by {
        assert(!to_come(t, t.len() as int, o[i].tool_calls->0[k].id));
    }
}

/// The user and system rows of a conversation, apart from any tool calls.
pub open spec fn spoken(s: Seq<MessageView>) -> Seq<MessageView>
    decreases s.len(),
{
    if s.len() == 0 {
        Seq::empty()
    } else if s.last().role == Role::User || s.last().role == Role::System {
        spoken(s.drop_last()).push(MessageView { tool_calls: None, ..s.last() })
    } else {
        spoken(s.drop_last())
    }
}

proof fn lemma_spoken_push(s: Seq<MessageView>, m: MessageView)
    ensures
        spoken(s.push(m)) == (if m.role == Role::User || m.role == Role::System {
            spoken(s).push(MessageView { tool_calls: None, ..m })
        } else {
            spoken(s)
        }),
{
    assert(s.push(m).drop_last() =~= s);
}

proof fn lemma_spoken_cleaned(s: Seq<MessageView>, k: int)
    requires
        0 <= k <= s.len(),
    ensures
        spoken(all_detached(s).take(k).filter(attached(all_detached(s)))) == spoken(s.take(k)),
    decreases k,
{
    let t = all_detached(s);
    let p = attached(t);
    if k == 0 {
        reveal(Seq::filter);
        assert(t.take(0).filter(p) =~= Seq::empty());
        assert(s.take(0) =~= Seq::empty());
    } else {
        lemma_spoken_cleaned(s, k - 1);
        text::lemma_filter_take(t, k - 1, p);
        lemma_spoken_push(t.take(k - 1).filter(p), t[k - 1]);
        assert(s.take(k) =~= s.take(k - 1).push(s[k - 1]));
        lemma_spoken_push(s.take(k - 1), s[k - 1]);
    }
}

proof fn lemma_spoken_deduplicated(s: Seq<MessageView>)
    ensures
        spoken(deduplicated(s)) == spoken(s),
    decreases s.len(),
{
    if s.len() > 0 {
        lemma_spoken_deduplicated(s.drop_last());
        lemma_spoken_push(deduplicated(s.drop_last()), s.last());
    }
}

proof fn lemma_spoken_merged(s: Seq<MessageView>)
    ensures
        spoken(merged(s)) == spoken(s),
    decreases s.len(),
{
    if s.len() > 0 {
        lemma_spoken_merged(s.drop_last());
        let d = merged(s.drop_last());
        lemma_spoken_push(d, s.last());
        if d.len() > 0 {
            lemma_spoken_push(d.drop_last(), absorbed(d.last(), s.last()));
        }
    }
}

proof fn lemma_spoken_rebuilt(s: Seq<MessageView>, n: int)
    requires
        0 <= n <= s.len(),
    ensures
        spoken(rebuilt(s, n)) == spoken(s.take(n)),
    decreases n,
{
    if n > 0 {
        lemma_spoken_rebuilt(s, n - 1);
        let o = rebuilt(s, n - 1);
        assert(s.take(n) =~= s.take(n - 1).push(s[n - 1]));
        lemma_spoken_push(s.take(n - 1), s[n - 1]);
        lemma_spoken_push(o, s[n - 1]);
        lemma_spoken_push(o, pruned(s, n - 1));
    }
}

/// What a provider is sent holds every user and system row of the conversation,
/// in its order and with its text.
pub proof fn law_spoken_rows_are_kept(s: Seq<MessageView>)
    ensures
        spoken(validated(s)) == spoken(s),
{
    let c = cleaned(s);
    let d = deduplicated(c);
    let t = merged(d);
    lemma_spoken_cleaned(s, s.len() as int);
    assert(all_detached(s).take(s.len() as int) =~= all_detached(s));
    assert(s.take(s.len() as int) =~= s);
    lemma_spoken_deduplicated(c);
    lemma_spoken_merged(d);
    lemma_spoken_rebuilt(t, t.len() as int);
    assert(t.take(t.len() as int) =~= t);
}

/// Whether a conversation is already as a provider may be sent it: every tool row
/// answers a call of the assistant that its run follows, and no other row of the run
/// answers it before; every call is answered; no call list is empty or repeats an id,
/// and only assistants have one; no assistant answers a call or says nothing; and no
/// tool or assistant row repeats the row before it.
pub open spec fn is_intact(s: Seq<MessageView>) -> bool {
    &&& every_answer_is_asked_for(s)
    &&& every_call_is_answered(s)
    &&& call_lists_are_sound(s)
    &&& no_row_is_hollow(s)
    &&& forall|p: int|
        0 <= p < s.len() && (#[trigger] s[p]).role == Role::Tool ==> earlier_answers(
            s,
            owner(s, p),
            p,
            s[p].tool_call_id->0,
        ) == 0
    &&& forall|i: int|
        0 <= i < s.len() ==> if (#[trigger] s[i]).role == Role::Assistant {
            s[i].tool_call_id is None
        } else {
            s[i].tool_calls is None
        }
    &&& forall|i: int| 0 < i < s.len() ==> !repeats(s[i - 1], #[trigger] s[i])
}

proof fn lemma_intact_detached(s: Seq<MessageView>)
    requires
        is_intact(s),
    ensures
        all_detached(s) == s,
{
    assert forall|i: int| 0 <= i < s.len() implies #[trigger] all_detached(s)[i] == s[i] by {
        let m = s[i];
        assert(calls_are_sound(m));
        if m.tool_calls is Some {
            let calls = m.tool_calls->0;
            assert forall|k: int| 0 <= k < calls.len() implies responded_calls(s)(
                #[trigger] calls[k],
            ) by {
                assert(answered_after(s, i, s[i].tool_calls->0[k].id));
                let p = choose|p: int|
                    i < p < s.len() && #[trigger] owner(s, p) == i && answers(s[p], calls[k].id);
                assert(answers(s[p], calls[k].id));
            }
            text::lemma_filter_all(calls, responded_calls(s));
        }
        assert(detached(m, s) =~= m);
    }
    assert(all_detached(s) =~= s);
}

proof fn lemma_intact_cleaned(s: Seq<MessageView>)
    requires
        is_intact(s),
    ensures
        cleaned(s) == s,
{
    lemma_intact_detached(s);
    assert forall|i: int| 0 <= i < s.len() implies attached(s)(#[trigger] s[i]) by {
        assert(!is_hollow(s[i]));
        if s[i].role == Role::Tool {
            assert(asks_for(s, owner(s, i), s[i].tool_call_id));
            assert(s[owner(s, i)].tool_calls is Some);
            assert(declared(s, s[i].tool_call_id->0));
        }
    }
    text::lemma_filter_all(s, attached(s));
}

proof fn lemma_intact_deduplicated(s: Seq<MessageView>)
    requires
        forall|i: int| 0 < i < s.len() ==> !repeats(s[i - 1], #[trigger] s[i]),
    ensures
        deduplicated(s) == s,
    decreases s.len(),
{
    if s.len() > 0 {
        let front = s.drop_last();
        assert forall|i: int| 0 < i < front.len() implies !repeats(front[i - 1], #[trigger] front[i]) by {
            assert(!repeats(s[i - 1], s[i]));
        }
        lemma_intact_deduplicated(front);
        if front.len() > 0 {
            assert(!repeats(s[s.len() - 2], s[s.len() - 1]));
        }
        assert(front.push(s.last()) =~= s);
    } else {
        assert(deduplicated(s) =~= s);
    }
}

/// A row behind an assistant whose calls are answered is a tool row.
proof fn lemma_answers_follow(s: Seq<MessageView>, i: int)
    requires
        every_call_is_answered(s),
        0 <= i < s.len(),
        asks_tools(s[i]),
    ensures
        i + 1 < s.len(),
        s[i + 1].role == Role::Tool,
{
    let id = s[i].tool_calls->0[0].id;
    assert(answered_after(s, i, id));
    let p = choose|p: int| i < p < s.len() && #[trigger] owner(s, p) == i && answers(s[p], id);
    lemma_owner(s, p);
    if p > i + 1 {
        assert(s[i + 1].role == Role::Tool);
    }
}

proof fn lemma_intact_merged(s: Seq<MessageView>)
    requires
        forall|i: int| 0 < i < s.len() && asks_tools(s[i - 1]) ==> !asks_tools(#[trigger] s[i]),
    ensures
        merged(s) == s,
    decreases s.len(),
{
    if s.len() > 0 {
        let front = s.drop_last();
        assert forall|i: int| 0 < i < front.len() && asks_tools(front[i - 1]) implies !asks_tools(
            #[trigger] front[i],
        ) by {
            assert(s[i] == front[i] && s[i - 1] == front[i - 1]);
        }
        lemma_intact_merged(front);
        if front.len() > 0 {
            assert(front.last() == s[s.len() - 2]);
            assert(asks_tools(s[s.len() - 2]) ==> !asks_tools(s[s.len() - 1]));
        }
        assert(front.push(s.last()) =~= s);
    } else {
        assert(merged(s) =~= s);
    }
}

proof fn lemma_intact_calls(s: Seq<MessageView>, i: int, calls: Seq<ToolCallView>)
    requires
        distinct_ids(calls),
        forall|k: int| 0 <= k < calls.len() ==> answered_after(s, i, (#[trigger] calls[k]).id),
    ensures
        kept_calls(s, i, calls) == calls,
    decreases calls.len(),
{
    if calls.len() > 0 {
        let front = calls.drop_last();
        let last = calls.last();
        assert(distinct_ids(front)) by {
            assert forall|a: int, b: int| 0 <= a < b < front.len() implies (#[trigger] front[a]).id
                != (#[trigger] front[b]).id by {
                assert(calls[a] == front[a] && calls[b] == front[b]);
            }
        }
        assert forall|k: int| 0 <= k < front.len() implies answered_after(
            s,
            i,
            (#[trigger] front[k]).id,
        ) by {
            assert(calls[k] == front[k]);
        }
        lemma_intact_calls(s, i, front);
        assert(!has_id(front, last.id)) by {
            if has_id(front, last.id) {
                let k = choose|k: int| 0 <= k < front.len() && (#[trigger] front[k]).id == last.id;
                assert(calls[k].id != calls[calls.len() - 1].id);
            }
        }
        assert(answered_after(s, i, calls[calls.len() - 1].id));
        assert(front.push(last) =~= calls);
    } else {
        assert(kept_calls(s, i, calls) =~= calls);
    }
}

proof fn lemma_intact_rebuilt(s: Seq<MessageView>, n: int)
    requires
        is_intact(s),
        0 <= n <= s.len(),
    ensures
        rebuilt(s, n) == s.take(n),
    decreases n,
{
    if n > 0 {
        lemma_intact_rebuilt(s, n - 1);
        let m = s[n - 1];
        assert(calls_are_sound(m));
        assert(!is_hollow(m));
        if m.role == Role::Tool {
            let i = owner(s, n - 1);
            lemma_owner(s, n - 1);
            assert(asks_for(s, i, m.tool_call_id));
            lemma_times_called(s[i].tool_calls->0, m.tool_call_id->0);
            assert(paired(s, n - 1));
        } else if m.role == Role::Assistant && m.tool_calls is Some {
            let calls = m.tool_calls->0;
            assert forall|k: int| 0 <= k < calls.len() implies answered_after(
                s,
                n - 1,
                (#[trigger] calls[k]).id,
            ) by {
                assert(answered_after(s, n - 1, s[n - 1].tool_calls->0[k].id));
            }
            lemma_intact_calls(s, n - 1, calls);
            assert(pruned(s, n - 1) =~= m);
        } else if m.role == Role::Assistant {
            assert(pruned(s, n - 1) =~= m);
        }
        assert(s.take(n - 1).push(m) =~= s.take(n));
    } else {
        assert(s.take(n) =~= Seq::empty());
    }
}

/// A conversation whose tool chains are intact is sent as it is.
pub proof fn law_intact_history_is_unchanged(s: Seq<MessageView>)
    requires
        is_intact(s),
    ensures
        validated(s) == s,
{
    lemma_intact_cleaned(s);
    lemma_intact_deduplicated(s);
    assert forall|i: int| 0 < i < s.len() && asks_tools(s[i - 1]) implies !asks_tools(
        #[trigger] s[i],
    ) by {
        lemma_answers_follow(s, i - 1);
    }
    lemma_intact_merged(s);
    lemma_intact_rebuilt(s, s.len() as int);
    assert(s.take(s.len() as int) =~= s);
}

/// Uniting two lists of calls loses none: an id is called for exactly where one of the lists
/// called for it, those of the first list come first and as they were, and every call is one
/// of the two lists.
pub proof fn law_united_calls_are_all_there(
    a: Seq<ToolCallView>,
    b: Seq<ToolCallView>,
    id: Seq<char>,
)
    ensures
        has_id(united(a, b), id) <==> has_id(a, id) || has_id(b, id),
        a.is_prefix_of(united(a, b)),
        forall|k: int|
            0 <= k < united(a, b).len() ==> a.contains(#[trigger] united(a, b)[k]) || b.contains(
                united(a, b)[k],
            ),
    decreases b.len(),
{
    if b.len() == 0 {
        assert(a =~= a.subrange(0, a.len() as int));
        assert forall|k: int| 0 <= k < a.len() implies a.contains(#[trigger] a[k]) by {}
    } else {
        let front = b.drop_last();
        let u = united(a, front);
        let all = united(a, b);
        let last = b.last();
        law_united_calls_are_all_there(a, front, id);
        law_united_calls_are_all_there(a, front, last.id);
        assert(b[b.len() - 1] == last);
        if has_id(front, id) {
            let k = choose|k: int| 0 <= k < front.len() && (#[trigger] front[k]).id == id;
            assert(b[k].id == id);
        }
        if has_id(b, id) && last.id != id {
            let k = choose|k: int| 0 <= k < b.len() && (#[trigger] b[k]).id == id;
            assert(front[k].id == id);
        }
        if has_id(u, id) {
            let k = choose|k: int| 0 <= k < u.len() && (#[trigger] u[k]).id == id;
            assert(all[k].id == id);
        }
        if !has_id(u, last.id) {
            assert(all[u.len() as int] == last);
        }
        if has_id(all, id) && last.id != id {
            let k = choose|k: int| 0 <= k < all.len() && (#[trigger] all[k]).id == id;
            assert(u[k].id == id);
        }
        assert(a =~= all.subrange(0, a.len() as int)) by {
            assert(a =~= u.subrange(0, a.len() as int));
            assert forall|i: int| 0 <= i < a.len() implies a[i] == #[trigger] all[i] by {
                assert(a[i] == u.subrange(0, a.len() as int)[i]);
            }
        }
        assert forall|k: int| 0 <= k < all.len() implies a.contains(#[trigger] all[k]) || b.contains(
            all[k],
        ) by {
            if k < u.len() {
                assert(all[k] == u[k]);
                if front.contains(u[k]) {
                    let j = choose|j: int| 0 <= j < front.len() && front[j] == u[k];
                    assert(b[j] == u[k]);
                }
            } else {
                assert(all[k] == last);
            }
        }
    }
}

/// Whether a tool row of the one conversation stands in the other: the same answer to the
/// same call.
pub open spec fn answer_stands(s: Seq<MessageView>, m: MessageView) -> bool {
    exists|i: int|
        0 <= i < s.len() && (#[trigger] s[i]).role == Role::Tool && s[i].content == m.content
            && s[i].tool_call_id == m.tool_call_id
}

/// Whether all tool rows of the second conversation stand in the first.
pub open spec fn answers_stand(s: Seq<MessageView>, t: Seq<MessageView>) -> bool {
    forall|p: int| 0 <= p < t.len() && (#[trigger] t[p]).role == Role::Tool ==> answer_stands(s, t[p])
}

proof fn lemma_answers_cleaned(s: Seq<MessageView>)
    ensures
        answers_stand(s, cleaned(s)),
{
    let d = all_detached(s);
    let c = cleaned(s);
    assert forall|p: int| 0 <= p < c.len() && (#[trigger] c[p]).role == Role::Tool implies answer_stands(
        s,
        c[p],
    ) by {
        assert(c.contains(c[p]));
        d.lemma_filter_contains_rev(attached(d), c[p]);
        let i = choose|i: int| 0 <= i < d.len() && d[i] == c[p];
        assert(d[i] == detached(s[i], s));
        assert(s[i].role == Role::Tool);
    }
}

proof fn lemma_answers_deduplicated(s: Seq<MessageView>, t: Seq<MessageView>)
    requires
        answers_stand(s, t),
    ensures
        answers_stand(s, deduplicated(t)),
    decreases t.len(),
{
    if t.len() > 0 {
        let f = t.drop_last();
        assert forall|p: int| 0 <= p < f.len() && (#[trigger] f[p]).role == Role::Tool implies answer_stands(
            s,
            f[p],
        ) by {
            assert(f[p] == t[p]);
        }
        lemma_answers_deduplicated(s, f);
        let d = deduplicated(f);
        let all = deduplicated(t);
        assert(t[t.len() - 1] == t.last());
        assert forall|p: int| 0 <= p < all.len() && (#[trigger] all[p]).role == Role::Tool implies answer_stands(
            s,
            all[p],
        ) by {
            if p < d.len() {
                assert(all[p] == d[p]);
            } else {
                assert(all[p] == t.last());
            }
        }
    }
}

proof fn lemma_answers_merged(s: Seq<MessageView>, t: Seq<MessageView>)
    requires
        answers_stand(s, t),
    ensures
        answers_stand(s, merged(t)),
    decreases t.len(),
{
    if t.len() > 0 {
        let f = t.drop_last();
        assert forall|p: int| 0 <= p < f.len() && (#[trigger] f[p]).role == Role::Tool implies answer_stands(
            s,
            f[p],
        ) by {
            assert(f[p] == t[p]);
        }
        lemma_answers_merged(s, f);
        let d = merged(f);
        let all = merged(t);
        assert(t[t.len() - 1] == t.last());
        assert forall|p: int| 0 <= p < all.len() && (#[trigger] all[p]).role == Role::Tool implies answer_stands(
            s,
            all[p],
        ) by {
            if p < d.len() && !(d.len() > 0 && asks_tools(d.last()) && asks_tools(t.last()) && p
                == d.len() - 1) {
                assert(all[p] == d[p]);
            } else if p == d.len() {
                assert(all[p] == t.last());
            }
        }
    }
}

proof fn lemma_answers_rebuilt(s: Seq<MessageView>, t: Seq<MessageView>, n: int)
    requires
        answers_stand(s, t),
        0 <= n <= t.len(),
    ensures
        answers_stand(s, rebuilt(t, n)),
    decreases n,
{
    if n > 0 {
        lemma_answers_rebuilt(s, t, n - 1);
        let d = rebuilt(t, n - 1);
        let all = rebuilt(t, n);
        assert forall|p: int| 0 <= p < all.len() && (#[trigger] all[p]).role == Role::Tool implies answer_stands(
            s,
            all[p],
        ) by {
            if p < d.len() {
                assert(all[p] == d[p]);
            } else {
                assert(all[p].content == t[n - 1].content);
                assert(all[p].tool_call_id == t[n - 1].tool_call_id);
                assert(t[n - 1].role == Role::Tool);
            }
        }
    }
}

/// No answer is made up or altered: every tool row that the model is sent stands in the
/// conversation, with the same text and for the same call.
pub proof fn law_answers_are_not_made_up(s: Seq<MessageView>)
    ensures
        answers_stand(s, validated(s)),
{
    lemma_answers_cleaned(s);
    lemma_answers_deduplicated(s, cleaned(s));
    lemma_answers_merged(s, deduplicated(cleaned(s)));
    let t = merged(deduplicated(cleaned(s)));
    lemma_answers_rebuilt(s, t, t.len() as int);
}

/// Cleaning a conversation that has nothing to clean leaves it as it is.
pub proof fn law_intact_history_is_clean(s: Seq<MessageView>)
    requires
        is_intact(s),
    ensures
        cleaned(s) == s,
{
    lemma_intact_cleaned(s);
}

/// No row is sent twice in a row, and no two rows that ask for tools stand one behind the
/// other: what repeats is dropped, and the calls of the others are united.
pub proof fn law_repeats_are_dropped(s: Seq<MessageView>)
    ensures
        forall|i: int|
            0 < i < deduplicated(s).len() ==> !repeats(
                deduplicated(s)[i - 1],
                #[trigger] deduplicated(s)[i],
            ),
        forall|i: int|
            0 < i < merged(s).len() ==> !(asks_tools(merged(s)[i - 1]) && asks_tools(
                #[trigger] merged(s)[i],
            )),
        deduplicated(s).len() <= s.len(),
        s.len() > 0 ==> deduplicated(s).len() > 0 && merged(s).len() > 0,
    decreases s.len(),
{
    if s.len() > 0 {
        let f = s.drop_last();
        law_repeats_are_dropped(f);
        let d = deduplicated(f);
        let all = deduplicated(s);
        assert forall|i: int| 0 < i < all.len() implies !repeats(all[i - 1], #[trigger] all[i]) by {
            if i < d.len() {
                assert(all[i] == d[i] && all[i - 1] == d[i - 1]);
            }
        }
        let e = merged(f);
        let m = merged(s);
        assert forall|i: int| 0 < i < m.len() implies !(asks_tools(m[i - 1]) && asks_tools(
            #[trigger] m[i],
        )) by {
            if i < e.len() - 1 {
                assert(m[i] == e[i] && m[i - 1] == e[i - 1]);
            } else if i == e.len() - 1 {
                assert(m[i - 1] == e[i - 1]);
                assert(asks_tools(m[i]) ==> asks_tools(e[i]));
            }
        }
    }
}

} // verus!
