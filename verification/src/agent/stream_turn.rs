//! Putting a streamed reply together.
//!
//! [`StreamAccumulator`] takes the pieces as they come and says what to show.
//! When the stream ends, for whatever reason, it says whether what came is a
//! reply, a reply that broke off, or nothing, in which case the caller asks
//! again without a stream.

use crate::agent::stream;
use crate::agent::stream::{EventView, StreamEvent};
use crate::ident::fresh_id;
use crate::providers::trait_def;
use crate::providers::trait_def::{
    ChatResponse, ChatResponseView, ChunkView, DeltaView, FunctionCall, StreamChunk, ToolCall,
    ToolCallDelta, ToolCallView, UsageInfo,
};
use crate::text;
use crate::text::cat2;
use vstd::prelude::*;
use vstd::string::*;

verus! {

// ── Tool calls in pieces ────────────────────────────────────────────────────

/// A tool call as far as it has come.
#[derive(Debug)]
pub struct CallSlot {
    pub index: u32,
    pub id: String,
    pub name: String,
    pub arguments: String,
}

/// A tool call as far as it has come, as a value.
#[verifier::ext_equal]
pub struct SlotView {
    pub index: u32,
    pub id: Seq<char>,
    pub name: Seq<char>,
    pub arguments: Seq<char>,
}

impl View for CallSlot {
    type V = SlotView;

    open spec fn view(&self) -> SlotView {
        SlotView {
            index: self.index,
            id: self.id@,
            name: self.name@,
            arguments: self.arguments@,
        }
    }
}

/// The values of the slots.
pub open spec fn slot_views(v: Seq<CallSlot>) -> Seq<SlotView> {
    v.map_values(|s: CallSlot| s@)
}

/// A slot with one more piece. A name is set once and never extended: gateways
/// repeat it on every piece. Arguments are extended.
pub open spec fn extended(s: SlotView, d: DeltaView) -> SlotView {
    SlotView {
        index: s.index,
        id: match d.id {
            Some(id) => if id.len() > 0 {
                id
            } else {
                s.id
            },
            None => s.id,
        },
        name: match d.name {
            Some(name) => if s.name.len() == 0 {
                name
            } else {
                s.name
            },
            None => s.name,
        },
        arguments: match d.arguments {
            Some(a) => s.arguments + a,
            None => s.arguments,
        },
    }
}

/// A slot that nothing has come for.
pub open spec fn fresh_slot(index: u32) -> SlotView {
    SlotView { index, id: Seq::empty(), name: Seq::empty(), arguments: Seq::empty() }
}

/// Where the slot `index` is, or belongs, from `k` on.
pub open spec fn slot_position(s: Seq<SlotView>, index: u32, k: int) -> int
    decreases s.len() - k,
{
    if 0 <= k < s.len() && s[k].index < index {
        slot_position(s, index, k + 1)
    } else {
        k
    }
}

/// The slots with one more piece.
pub open spec fn with_delta(s: Seq<SlotView>, d: DeltaView) -> Seq<SlotView> {
    let p = slot_position(s, d.index, 0);
    if p < s.len() && s[p].index == d.index {
        s.update(p, extended(s[p], d))
    } else {
        s.insert(p, extended(fresh_slot(d.index), d))
    }
}

/// The slots with some more pieces.
pub open spec fn with_deltas(s: Seq<SlotView>, ds: Seq<DeltaView>) -> Seq<SlotView>
    decreases ds.len(),
{
    if ds.len() == 0 {
        s
    } else {
        with_delta(with_deltas(s, ds.drop_last()), ds.last())
    }
}

/// Whether the slots are in the order of their indices, each once.
pub open spec fn in_order(s: Seq<SlotView>) -> bool {
    forall|a: int, b: int| 0 <= a < b < s.len() ==> (#[trigger] s[a]).index < (#[trigger] s[b]).index
}

proof fn lemma_slot_position(s: Seq<SlotView>, index: u32, k: int)
    requires
        0 <= k <= s.len(),
    ensures
        k <= slot_position(s, index, k) <= s.len(),
        forall|j: int| k <= j < slot_position(s, index, k) ==> (#[trigger] s[j]).index < index,
        slot_position(s, index, k) < s.len() ==> s[slot_position(s, index, k)].index >= index,
    decreases s.len() - k,
{
    if k < s.len() && s[k].index < index {
        lemma_slot_position(s, index, k + 1);
    }
}

proof fn lemma_with_delta_in_order(s: Seq<SlotView>, d: DeltaView)
    requires
        in_order(s),
    ensures
        in_order(with_delta(s, d)),
{
    let p = slot_position(s, d.index, 0);
    lemma_slot_position(s, d.index, 0);
    let t = with_delta(s, d);
    if p < s.len() && s[p].index == d.index {
        assert forall|a: int, b: int| 0 <= a < b < t.len() implies (#[trigger] t[a]).index < (
        #[trigger] t[b]).index by {
            assert(s[a].index < s[b].index);
        }
    } else {
        assert forall|a: int, b: int| 0 <= a < b < t.len() implies (#[trigger] t[a]).index < (
        #[trigger] t[b]).index by {
            let x = if a < p {
                a
            } else {
                a - 1
            };
            let y = if b < p {
                b
            } else {
                b - 1
            };
            if a != p && b != p {
                assert(s[x].index < s[y].index);
                assert(t[a] == s[x] && t[b] == s[y]);
            } else if a == p {
                assert(t[b] == s[y]);
                if y > p {
                    assert(s[p].index < s[y].index);
                }
            } else {
                assert(t[a] == s[a]);
            }
        }
    }
}

/// However the pieces come, the slots stay in the order of their indices, each
/// once.
pub proof fn law_slots_stay_in_order(s: Seq<SlotView>, ds: Seq<DeltaView>)
    requires
        in_order(s),
    ensures
        in_order(with_deltas(s, ds)),
    decreases ds.len(),
{
    if ds.len() > 0 {
        law_slots_stay_in_order(s, ds.drop_last());
        lemma_with_delta_in_order(with_deltas(s, ds.drop_last()), ds.last());
    }
}

fn extend_slot(slot: CallSlot, d: ToolCallDelta) -> (r: CallSlot)
    ensures
        r@ == extended(slot@, d@),
{
    let mut slot = slot;
    match d.id {
        Some(id) => {
            if !id.as_str().is_empty() {
                slot.id = id;
            }
        },
        None => {},
    }
    match d.function {
        Some(f) => {
            match f.name {
                Some(name) => {
                    if slot.name.as_str().is_empty() {
                        slot.name = name;
                    }
                },
                None => {},
            }
            match f.arguments {
                Some(a) => {
                    slot.arguments.append(a.as_str());
                },
                None => {},
            }
        },
        None => {},
    }
    slot
}

fn add_delta(slots: &mut Vec<CallSlot>, d: ToolCallDelta)
    ensures
        slot_views(final(slots)@) == with_delta(slot_views(old(slots)@), d@),
{
    let ghost s = slot_views(slots@);
    let ghost all = slots@;
    let n: usize = slots.len();
    let mut p: usize = 0;
    while p < n && slots[p].index < d.index
        invariant
            p <= n == slots@.len(),
            slots@ == all,
            s == slot_views(all),
            slot_position(s, d.index, 0) == slot_position(s, d.index, p as int),
        decreases n - p,
    {
        p = p + 1;
    }
    let found = p < n && slots[p].index == d.index;
    let ghost dv = d@;
    if found {
        let slot = slots.remove(p);
        assert(slot@ == s[p as int]);
        let one = extend_slot(slot, d);
        slots.insert(p, one);
        assert(slot_views(slots@) =~= s.update(p as int, extended(s[p as int], dv)));
    } else {
        let empty = CallSlot {
            index: d.index,
            id: String::new(),
            name: String::new(),
            arguments: String::new(),
        };
        assert(empty@ == fresh_slot(d.index));
        let one = extend_slot(empty, d);
        slots.insert(p, one);
        assert(slot_views(slots@) =~= s.insert(p as int, extended(fresh_slot(dv.index), dv)));
    }
}

// ── The pieces of a reply ───────────────────────────────────────────────────

/// A streamed reply as far as it has come.
#[derive(Debug)]
pub struct StreamAccumulator {
    pub content: String,
    pub reasoning: String,
    pub slots: Vec<CallSlot>,
    pub usage: Option<UsageInfo>,
    pub finish_reason: Option<String>,
    /// Whether any piece had something in it: frames that only keep the
    /// connection alive do not count.
    pub got_payload: bool,
}

/// A streamed reply as far as it has come, as a value.
#[verifier::ext_equal]
pub struct AccView {
    pub content: Seq<char>,
    pub reasoning: Seq<char>,
    pub slots: Seq<SlotView>,
    pub usage: Option<UsageInfo>,
    pub finish_reason: Option<Seq<char>>,
    pub got_payload: bool,
}

impl View for StreamAccumulator {
    type V = AccView;

    open spec fn view(&self) -> AccView {
        AccView {
            content: self.content@,
            reasoning: self.reasoning@,
            slots: slot_views(self.slots@),
            usage: self.usage,
            finish_reason: text::opt_text(self.finish_reason),
            got_payload: self.got_payload,
        }
    }
}

/// A reply of which nothing has come.
pub open spec fn nothing_yet() -> AccView {
    AccView {
        content: Seq::empty(),
        reasoning: Seq::empty(),
        slots: Seq::empty(),
        usage: None,
        finish_reason: None,
        got_payload: false,
    }
}

/// A reply with one more piece.
pub open spec fn with_chunk(a: AccView, c: ChunkView) -> AccView {
    AccView {
        content: a.content + c.content,
        reasoning: a.reasoning + c.reasoning,
        slots: with_deltas(a.slots, c.deltas),
        usage: if c.usage is Some {
            c.usage
        } else {
            a.usage
        },
        finish_reason: if c.finish_reason is Some {
            c.finish_reason
        } else {
            a.finish_reason
        },
        got_payload: a.got_payload || c.reasoning.len() > 0 || c.content.len() > 0
            || c.deltas.len() > 0,
    }
}

/// What a piece shows.
pub open spec fn chunk_events(c: ChunkView, iteration: u32) -> Seq<EventView> {
    (if c.reasoning.len() > 0 {
        seq![EventView::Thinking { content: c.reasoning, step: iteration }]
    } else {
        Seq::empty()
    }) + (if c.content.len() > 0 {
        seq![EventView::Token { content: c.content }]
    } else {
        Seq::empty()
    })
}

/// Whether something came that a reply could be made of.
pub open spec fn has_something(a: AccView) -> bool {
    a.content.len() > 0 || a.slots.len() > 0
}

// ── How a stream ends ───────────────────────────────────────────────────────

/// What to do when a stream does not go on.
#[derive(Debug)]
pub enum StreamEnd {
    /// Make a reply of what came; it broke off where there is a reason.
    Finish(Option<String>),
    /// Ask again without a stream.
    FallBack,
    /// Give the error to the caller.
    Fail,
}

/// What to do when a stream does not go on, as a value.
pub enum EndView {
    Finish(Option<Seq<char>>),
    FallBack,
    Fail,
}

impl View for StreamEnd {
    type V = EndView;

    open spec fn view(&self) -> EndView {
        match self {
            StreamEnd::Finish(r) => EndView::Finish(text::opt_text(*r)),
            StreamEnd::FallBack => EndView::FallBack,
            StreamEnd::Fail => EndView::Fail,
        }
    }
}

/// What to do when the stream could not be opened. A rejection of the prompt as
/// too long would meet the same call without a stream.
pub fn stream_open_failed(over_window: bool) -> (r: StreamEnd)
    ensures
        r@ == (if over_window {
            EndView::Fail
        } else {
            EndView::FallBack
        }),
{
    if over_window {
        StreamEnd::Fail
    } else {
        StreamEnd::FallBack
    }
}

/// One provider turn, and what a reply cannot carry.
#[derive(Debug)]
pub struct StreamedTurn {
    pub response: ChatResponse,
    /// Why the reply broke off, where it did: it must not be acted on.
    pub truncated: Option<String>,
    /// Why the provider stopped.
    pub finish_reason: Option<String>,
}

/// A provider turn as a value.
#[verifier::ext_equal]
pub struct TurnView {
    pub response: ChatResponseView,
    pub truncated: Option<Seq<char>>,
    pub finish_reason: Option<Seq<char>>,
}

impl View for StreamedTurn {
    type V = TurnView;

    open spec fn view(&self) -> TurnView {
        TurnView {
            response: self.response@,
            truncated: text::opt_text(self.truncated),
            finish_reason: text::opt_text(self.finish_reason),
        }
    }
}

/// What a reply without a stream shows.
pub open spec fn response_events(r: ChatResponseView, iteration: u32) -> Seq<EventView> {
    (match r.reasoning_content {
        Some(t) => if t.len() > 0 {
            seq![EventView::Thinking { content: t, step: iteration }]
        } else {
            Seq::empty()
        },
        None => Seq::empty(),
    }) + (if r.content.len() > 0 {
        seq![EventView::Token { content: r.content }]
    } else {
        Seq::empty()
    })
}

/// Wraps a reply without a stream as a complete turn, with what it shows.
pub fn completed_turn(response: ChatResponse, iteration: u32) -> (r: (
    StreamedTurn,
    Vec<StreamEvent>,
))
    ensures
        r.0@ == (TurnView { response: response@, truncated: None, finish_reason: None }),
        stream::event_views(r.1@) == response_events(response@, iteration),
{
    let mut events: Vec<StreamEvent> = Vec::new();
    if let Some(t) = &response.reasoning_content {
        if !t.as_str().is_empty() {
            events.push(StreamEvent::Thinking { content: t.clone(), step: iteration });
        }
    }
    if !response.content.as_str().is_empty() {
        events.push(StreamEvent::Token { content: response.content.clone() });
    }
    assert(stream::event_views(events@) =~= response_events(response@, iteration));
    (StreamedTurn { response, truncated: None, finish_reason: None }, events)
}

/// How many of the slots have no id.
pub open spec fn missing_ids(s: Seq<SlotView>) -> nat
    decreases s.len(),
{
    if s.len() == 0 {
        0
    } else {
        missing_ids(s.drop_last()) + (if s.last().id.len() == 0 {
            1nat
        } else {
            0
        })
    }
}

/// The tool calls of the slots: those with a name, in order. Slots without an id
/// take one of `ids`, in order.
pub open spec fn calls_from(s: Seq<SlotView>, ids: Seq<Seq<char>>) -> Seq<ToolCallView>
    decreases s.len(),
{
    if s.len() == 0 {
        Seq::empty()
    } else {
        let front = calls_from(s.drop_last(), ids);
        let slot = s.last();
        if slot.name.len() == 0 {
            front
        } else {
            front.push(
                ToolCallView {
                    id: if slot.id.len() == 0 {
                        ids[missing_ids(s.drop_last()) as int]
                    } else {
                        slot.id
                    },
                    call_type: "function"@,
                    name: slot.name,
                    arguments: slot.arguments,
                },
            )
        }
    }
}

/// The turn that what came makes, with `ids` for the calls that came without
/// one: nothing where nothing came. A reply that the provider ended itself did
/// not break off.
pub open spec fn turn_from(a: AccView, reason: Option<Seq<char>>, ids: Seq<Seq<char>>) -> Option<
    TurnView,
> {
    if !a.got_payload && !has_something(a) {
        None
    } else {
        Some(
            TurnView {
                response: ChatResponseView {
                    content: a.content,
                    tool_calls: calls_from(a.slots, ids),
                    usage: a.usage,
                    reasoning_content: if a.reasoning.len() == 0 {
                        None
                    } else {
                        Some(a.reasoning)
                    },
                },
                truncated: if a.finish_reason is Some {
                    None
                } else {
                    reason
                },
                finish_reason: a.finish_reason,
            },
        )
    }
}

/// The value of an optional turn.
pub open spec fn opt_turn(o: Option<StreamedTurn>) -> Option<TurnView> {
    match o {
        Some(t) => Some(t@),
        None => None,
    }
}

fn build_calls(slots: Vec<CallSlot>, ids: &Vec<String>) -> (r: Vec<ToolCall>)
    requires
        ids@.len() >= missing_ids(slot_views(slots@)),
    ensures
        trait_def::call_views(r@) == calls_from(slot_views(slots@), text::texts(ids@)),
{
    let ghost all = slots@;
    let ghost s = slot_views(all);
    let ghost t = text::texts(ids@);
    let total: usize = ids.len();
    let mut used: usize = 0;
    let mut r: Vec<ToolCall> = Vec::new();
    assert(trait_def::call_views(r@) =~= calls_from(s.take(0), t));
    for slot in it: slots
        invariant
            it.seq() == all,
            s == slot_views(all),
            t == text::texts(ids@),
            ids@.len() >= missing_ids(s),
            used == missing_ids(s.take(it.index() as int)),
            used <= total == ids@.len(),
            trait_def::call_views(r@) == calls_from(s.take(it.index() as int), t),
    {
        proof {
            assert(s.take(it.index() + 1).drop_last() =~= s.take(it.index() as int));
            lemma_missing_ids(s, it.index() + 1);
        }
        let no_id = slot.id.as_str().is_empty();
        let named = !slot.name.as_str().is_empty();
        let id = if no_id {
            ids[used].clone()
        } else {
            slot.id
        };
        if no_id {
            used = used + 1;
        }
        if named {
            let call = ToolCall {
                id,
                call_type: "function".to_string(),
                function: FunctionCall { name: slot.name, arguments: slot.arguments },
            };
            proof {
                trait_def::lemma_call_views_push(r@, call);
            }
            r.push(call);
        }
    }
    assert(s.take(s.len() as int) =~= s);
    r
}

proof fn lemma_missing_ids(s: Seq<SlotView>, k: int)
    requires
        0 <= k <= s.len(),
    ensures
        missing_ids(s.take(k)) <= missing_ids(s),
    decreases s.len(),
{
    if k == s.len() {
        assert(s.take(k) =~= s);
    } else {
        assert(s.drop_last().take(k) =~= s.take(k));
        lemma_missing_ids(s.drop_last(), k);
    }
}

impl StreamAccumulator {
    /// A reply of which nothing has come.
    pub fn new() -> (r: Self)
        ensures
            r@ == nothing_yet(),
    {
        let r = StreamAccumulator {
            content: String::new(),
            reasoning: String::new(),
            slots: Vec::new(),
            usage: None,
            finish_reason: None,
            got_payload: false,
        };
        assert(r@ =~= nothing_yet());
        r
    }

    /// Takes a piece, and says what it shows.
    pub fn on_chunk(&mut self, chunk: StreamChunk, iteration: u32) -> (events: Vec<StreamEvent>)
        ensures
            final(self)@ == with_chunk(old(self)@, chunk@),
            stream::event_views(events@) == chunk_events(chunk@, iteration),
    {
        let ghost before = self@;
        let mut events: Vec<StreamEvent> = Vec::new();
        match chunk.reasoning_content {
            Some(t) => {
                if !t.as_str().is_empty() {
                    self.got_payload = true;
                    self.reasoning.append(t.as_str());
                    events.push(StreamEvent::Thinking { content: t, step: iteration });
                }
            },
            None => {},
        }
        match chunk.content {
            Some(t) => {
                if !t.as_str().is_empty() {
                    self.got_payload = true;
                    self.content.append(t.as_str());
                    events.push(StreamEvent::Token { content: t });
                }
            },
            None => {},
        }
        assert(stream::event_views(events@) =~= chunk_events(chunk@, iteration));
        assert(self.content@ =~= before.content + chunk@.content);
        assert(self.reasoning@ =~= before.reasoning + chunk@.reasoning);
        match chunk.tool_calls {
            Some(deltas) => {
                if deltas.len() > 0 {
                    self.got_payload = true;
                }
                let ghost all = deltas@;
                let ghost ds = trait_def::delta_views(all);
                let mut slots: Vec<CallSlot> = Vec::new();
                std::mem::swap(&mut slots, &mut self.slots);
                assert(slot_views(slots@) =~= with_deltas(before.slots, ds.take(0)));
                for d in it: deltas
                    invariant
                        it.seq() == all,
                        ds == trait_def::delta_views(all),
                        slot_views(slots@) == with_deltas(before.slots, ds.take(it.index() as int)),
                {
                    proof {
                        assert(ds.take(it.index() + 1).drop_last() =~= ds.take(it.index() as int));
                    }
                    add_delta(&mut slots, d);
                }
                assert(ds.take(ds.len() as int) =~= ds);
                self.slots = slots;
            },
            None => {},
        }
        if chunk.usage.is_some() {
            self.usage = chunk.usage;
        }
        if chunk.finish_reason.is_some() {
            self.finish_reason = chunk.finish_reason;
        }
        assert(self@ =~= with_chunk(before, chunk@));
        events
    }

    /// What to do when a piece fails to come: an error in the middle of a reply
    /// breaks it off; a rejection of the prompt as too long goes to the caller;
    /// else the caller asks again without a stream.
    pub fn on_error(&self, over_window: bool, error: &str) -> (r: StreamEnd)
        ensures
            r@ == (if self@.got_payload && has_something(self@) {
                EndView::Finish(Some("stream error mid-response: "@ + error@))
            } else if over_window {
                EndView::Fail
            } else {
                EndView::FallBack
            }),
            r@ == after_error(self@, over_window, error@),
    {
        if self.got_payload && (!self.content.as_str().is_empty() || self.slots.len() > 0) {
            StreamEnd::Finish(Some(cat2("stream error mid-response: ", error)))
        } else if over_window {
            StreamEnd::Fail
        } else {
            StreamEnd::FallBack
        }
    }

    /// What to do when the stream has been silent for too long.
    pub fn on_idle(&self) -> (r: StreamEnd)
        ensures
            r@ == (if self@.got_payload {
                EndView::Finish(Some("no data for 90s"@))
            } else {
                EndView::FallBack
            }),
            r@ == after_silence(self@),
    {
        if self.got_payload {
            StreamEnd::Finish(Some("no data for 90s".to_string()))
        } else {
            StreamEnd::FallBack
        }
    }

    /// What to do when the budget of the stream is used up.
    pub fn on_budget_spent(&self) -> (r: StreamEnd)
        ensures
            r@ == EndView::Finish(Some("no completion after 300s"@)),
    {
        StreamEnd::Finish(Some("no completion after 300s".to_string()))
    }

    /// Makes a turn of what came, with `ids` for the calls that came without
    /// one; nothing where nothing came, and the caller asks again without a
    /// stream.
    pub fn finish_with(self, reason: Option<String>, ids: &Vec<String>) -> (r: Option<StreamedTurn>)
        requires
            ids@.len() >= missing_ids(self@.slots),
        ensures
            opt_turn(r) == turn_from(self@, text::opt_text(reason), text::texts(ids@)),
    {
        if !self.got_payload && self.content.as_str().is_empty() && self.slots.len() == 0 {
            return None;
        }
        let truncated = if self.finish_reason.is_some() {
            None
        } else {
            reason
        };
        let tool_calls = build_calls(self.slots, ids);
        let reasoning_content = if self.reasoning.as_str().is_empty() {
            None
        } else {
            Some(self.reasoning)
        };
        Some(
            StreamedTurn {
                response: ChatResponse {
                    content: self.content,
                    tool_calls,
                    usage: self.usage,
                    reasoning_content,
                },
                truncated,
                finish_reason: self.finish_reason,
            },
        )
    }

    /// Makes a turn of what came, with new ids for the calls that came without
    /// one.
    pub fn finish(self, reason: Option<String>) -> (r: Option<StreamedTurn>)
        ensures
            exists|ids: Seq<Seq<char>>|
                {
                    &&& ids.len() == self@.slots.len()
                    &&& forall|k: int| 0 <= k < ids.len() ==> (#[trigger] ids[k]).len() == 36
                    &&& opt_turn(r) == #[trigger] turn_from(self@, text::opt_text(reason), ids)
                },
    {
        let n: usize = self.slots.len();
        let mut ids: Vec<String> = Vec::new();
        for i in 0..n
            invariant
                ids@.len() == i,
                forall|k: int| 0 <= k < i ==> (#[trigger] ids@[k])@.len() == 36,
        {
            ids.push(fresh_id());
        }
        proof {
            lemma_missing_at_most(self@.slots);
            assert forall|k: int| 0 <= k < text::texts(ids@).len() implies (#[trigger] text::texts(
                ids@,
            )[k]).len() == 36 by {
                assert(ids@[k]@.len() == 36);
            }
        }
        self.finish_with(reason, &ids)
    }
}

proof fn lemma_missing_at_most(s: Seq<SlotView>)
    ensures
        missing_ids(s) <= s.len(),
    decreases s.len(),
{
    if s.len() > 0 {
        lemma_missing_at_most(s.drop_last());
    }
}

// ── Laws ────────────────────────────────────────────────────────────────────

/// The reply after some pieces.
pub open spec fn after_chunks(cs: Seq<ChunkView>) -> AccView
    decreases cs.len(),
{
    if cs.len() == 0 {
        nothing_yet()
    } else {
        with_chunk(after_chunks(cs.drop_last()), cs.last())
    }
}

/// The text that some events show.
pub open spec fn shown_text(es: Seq<EventView>) -> Seq<char>
    decreases es.len(),
{
    if es.len() == 0 {
        Seq::empty()
    } else {
        shown_text(es.drop_last()) + (match es.last() {
            EventView::Token { content } => content,
            _ => Seq::empty(),
        })
    }
}

/// All that some pieces show.
pub open spec fn all_events(cs: Seq<ChunkView>, iteration: u32) -> Seq<EventView>
    decreases cs.len(),
{
    if cs.len() == 0 {
        Seq::empty()
    } else {
        all_events(cs.drop_last(), iteration) + chunk_events(cs.last(), iteration)
    }
}

proof fn lemma_shown_add(a: Seq<EventView>, b: Seq<EventView>)
    ensures
        shown_text(a + b) == shown_text(a) + shown_text(b),
    decreases b.len(),
{
    if b.len() == 0 {
        assert(a + b =~= a);
        assert(shown_text(a) + shown_text(b) =~= shown_text(a));
    } else {
        assert((a + b).drop_last() =~= a + b.drop_last());
        lemma_shown_add(a, b.drop_last());
        assert(shown_text(a + b) =~= shown_text(a) + shown_text(b));
    }
}

proof fn lemma_chunk_shows(c: ChunkView, iteration: u32)
    ensures
        shown_text(chunk_events(c, iteration)) == c.content,
{
    let es = chunk_events(c, iteration);
    reveal_with_fuel(shown_text, 3);
    if es.len() == 2 {
        assert(es.drop_last().drop_last() =~= Seq::<EventView>::empty());
    }
    assert(shown_text(es) =~= c.content);
}

/// What was shown of a streamed reply is the content that the reply records.
pub proof fn law_shown_is_recorded(cs: Seq<ChunkView>, iteration: u32)
    ensures
        shown_text(all_events(cs, iteration)) == after_chunks(cs).content,
    decreases cs.len(),
{
    if cs.len() > 0 {
        law_shown_is_recorded(cs.drop_last(), iteration);
        lemma_shown_add(all_events(cs.drop_last(), iteration), chunk_events(cs.last(), iteration));
        lemma_chunk_shows(cs.last(), iteration);
    }
}

/// A reply that the provider ended itself never counts as broken off.
pub proof fn law_ended_reply_is_whole(a: AccView, reason: Option<Seq<char>>, ids: Seq<Seq<char>>)
    requires
        a.finish_reason is Some,
    ensures
        turn_from(a, reason, ids) matches Some(t) ==> t.truncated is None,
{
}

/// The pieces of arguments that came for the call `index`, one behind the other.
pub open spec fn pieces(ds: Seq<DeltaView>, index: u32) -> Seq<char>
    decreases ds.len(),
{
    if ds.len() == 0 {
        Seq::empty()
    } else {
        pieces(ds.drop_last(), index) + (if ds.last().index == index && ds.last().arguments is Some {
            ds.last().arguments->0
        } else {
            Seq::empty()
        })
    }
}

/// Whether a piece names the call `index`.
pub open spec fn names_call(d: DeltaView, index: u32) -> bool {
    d.index == index && d.name is Some && d.name->0.len() > 0
}

/// The first name that came for the call `index`; empty where none did.
pub open spec fn first_name(ds: Seq<DeltaView>, index: u32) -> Seq<char>
    decreases ds.len(),
{
    if ds.len() == 0 {
        Seq::empty()
    } else if first_name(ds.drop_last(), index).len() > 0 {
        first_name(ds.drop_last(), index)
    } else if names_call(ds.last(), index) {
        ds.last().name->0
    } else {
        Seq::empty()
    }
}

/// The last id that came for the call `index`; empty where none did.
pub open spec fn last_id(ds: Seq<DeltaView>, index: u32) -> Seq<char>
    decreases ds.len(),
{
    if ds.len() == 0 {
        Seq::empty()
    } else if ds.last().index == index && ds.last().id is Some && ds.last().id->0.len() > 0 {
        ds.last().id->0
    } else {
        last_id(ds.drop_last(), index)
    }
}

/// All pieces of calls in some chunks, in order.
pub open spec fn all_deltas(cs: Seq<ChunkView>) -> Seq<DeltaView>
    decreases cs.len(),
{
    if cs.len() == 0 {
        Seq::empty()
    } else {
        all_deltas(cs.drop_last()) + cs.last().deltas
    }
}

/// What came for the call `index`: the first name, the last id and all the
/// arguments in order.
pub open spec fn gathered(ds: Seq<DeltaView>, index: u32) -> SlotView {
    SlotView {
        index,
        id: last_id(ds, index),
        name: first_name(ds, index),
        arguments: pieces(ds, index),
    }
}

/// Whether a piece of the call `index` came.
pub open spec fn came(ds: Seq<DeltaView>, index: u32) -> bool {
    exists|j: int| 0 <= j < ds.len() && (#[trigger] ds[j]).index == index
}

/// Whether there is a slot for the call `index`.
pub open spec fn has_slot(s: Seq<SlotView>, index: u32) -> bool {
    exists|k: int| 0 <= k < s.len() && (#[trigger] s[k]).index == index
}

/// Whether slots hold what came: one for every call of which a piece came and no
/// other, in the order of their indices.
pub open spec fn gathers(s: Seq<SlotView>, ds: Seq<DeltaView>) -> bool {
    &&& in_order(s)
    &&& forall|k: int| 0 <= k < s.len() ==> #[trigger] s[k] == gathered(ds, s[k].index)
    &&& forall|i: u32| #[trigger] has_slot(s, i) <==> came(ds, i)
}

proof fn lemma_nothing_came(ds: Seq<DeltaView>, index: u32)
    requires
        !came(ds, index),
    ensures
        gathered(ds, index) == fresh_slot(index),
    decreases ds.len(),
{
    if ds.len() > 0 {
        let front = ds.drop_last();
        assert(ds[ds.len() - 1].index != index);
        if came(front, index) {
            let j = choose|j: int| 0 <= j < front.len() && (#[trigger] front[j]).index == index;
            assert(ds[j].index == index);
        }
        lemma_nothing_came(front, index);
        assert(pieces(ds, index) =~= Seq::<char>::empty());
    }
}

proof fn lemma_one_more_came(ds: Seq<DeltaView>, index: u32)
    requires
        ds.len() > 0,
    ensures
        came(ds, index) <==> came(ds.drop_last(), index) || ds.last().index == index,
        ds.last().index == index ==> gathered(ds, index) == extended(
            gathered(ds.drop_last(), index),
            ds.last(),
        ),
        ds.last().index != index ==> gathered(ds, index) == gathered(ds.drop_last(), index),
{
    let front = ds.drop_last();
    assert(ds[ds.len() - 1] == ds.last());
    if came(front, index) {
        let j = choose|j: int| 0 <= j < front.len() && (#[trigger] front[j]).index == index;
        assert(ds[j].index == index);
    }
    if came(ds, index) && ds.last().index != index {
        let j = choose|j: int| 0 <= j < ds.len() && (#[trigger] ds[j]).index == index;
        assert(front[j].index == index);
    }
    if ds.last().index == index {
        assert(gathered(ds, index) =~= extended(gathered(front, index), ds.last()));
    } else {
        assert(gathered(ds, index) =~= gathered(front, index));
    }
}

proof fn lemma_with_delta_has(s: Seq<SlotView>, d: DeltaView, i: u32)
    requires
        in_order(s),
    ensures
        has_slot(with_delta(s, d), i) <==> has_slot(s, i) || i == d.index,
{
    let p = slot_position(s, d.index, 0);
    lemma_slot_position(s, d.index, 0);
    let t = with_delta(s, d);
    let found = p < s.len() && s[p].index == d.index;
    assert(t[p].index == d.index);
    if has_slot(s, i) {
        let m = choose|k: int| 0 <= k < s.len() && (#[trigger] s[k]).index == i;
        let k = if found || m < p {
            m
        } else {
            m + 1
        };
        assert(t[k].index == i);
    }
    if has_slot(t, i) && i != d.index {
        let k = choose|k: int| 0 <= k < t.len() && (#[trigger] t[k]).index == i;
        let m = if found || k < p {
            k
        } else {
            k - 1
        };
        assert(s[m].index == i);
    }
}

proof fn lemma_with_delta_slot(s: Seq<SlotView>, d: DeltaView, k: int)
    requires
        in_order(s),
        0 <= k < with_delta(s, d).len(),
    ensures
        with_delta(s, d)[k].index != d.index ==> s.contains(with_delta(s, d)[k]),
        with_delta(s, d)[k].index == d.index && !has_slot(s, d.index) ==> with_delta(s, d)[k]
            == extended(fresh_slot(d.index), d),
        with_delta(s, d)[k].index == d.index && has_slot(s, d.index) ==> exists|m: int|
            0 <= m < s.len() && (#[trigger] s[m]).index == d.index && with_delta(s, d)[k]
                == extended(s[m], d),
{
    let p = slot_position(s, d.index, 0);
    lemma_slot_position(s, d.index, 0);
    lemma_with_delta_in_order(s, d);
    let t = with_delta(s, d);
    let found = p < s.len() && s[p].index == d.index;
    assert(t[p].index == d.index);
    if k != p {
        let m = if found || k < p {
            k
        } else {
            k - 1
        };
        assert(t[k] == s[m]);
        if k < p {
            assert(t[k].index < t[p].index);
        } else {
            assert(t[p].index < t[k].index);
        }
    } else if found {
        assert(t[k] == extended(s[p], d));
    } else if has_slot(s, d.index) {
        let m = choose|k: int| 0 <= k < s.len() && (#[trigger] s[k]).index == d.index;
        assert(m >= p);
        if m > p {
            assert(s[p].index < s[m].index);
        }
    }
}

proof fn lemma_gathers_one_more(s: Seq<SlotView>, ds: Seq<DeltaView>)
    requires
        ds.len() > 0,
        gathers(s, ds.drop_last()),
    ensures
        gathers(with_delta(s, ds.last()), ds),
{
    let d = ds.last();
    let front = ds.drop_last();
    let t = with_delta(s, d);
    lemma_with_delta_in_order(s, d);
    assert forall|k: int| 0 <= k < t.len() implies #[trigger] t[k] == gathered(
        ds,
        t[k].index,
    ) by {
        let i = t[k].index;
        lemma_with_delta_slot(s, d, k);
        lemma_one_more_came(ds, i);
        if i != d.index {
            let m = choose|m: int| 0 <= m < s.len() && s[m] == t[k];
            assert(s[m] == gathered(front, i));
        } else if has_slot(s, i) {
            let m = choose|m: int|
                0 <= m < s.len() && (#[trigger] s[m]).index == i && t[k] == extended(s[m], d);
            assert(s[m] == gathered(front, i));
        } else {
            assert(has_slot(s, i) <==> came(front, i));
            lemma_nothing_came(front, i);
        }
    }
    assert forall|i: u32| #[trigger] has_slot(t, i) <==> came(ds, i) by {
        lemma_with_delta_has(s, d, i);
        lemma_one_more_came(ds, i);
        assert(has_slot(s, i) <==> came(front, i));
    }
}

proof fn lemma_deltas_gather(ds: Seq<DeltaView>)
    ensures
        gathers(with_deltas(Seq::empty(), ds), ds),
    decreases ds.len(),
{
    if ds.len() > 0 {
        lemma_deltas_gather(ds.drop_last());
        lemma_gathers_one_more(with_deltas(Seq::empty(), ds.drop_last()), ds);
    }
}

proof fn lemma_deltas_add(s: Seq<SlotView>, a: Seq<DeltaView>, b: Seq<DeltaView>)
    ensures
        with_deltas(s, a + b) == with_deltas(with_deltas(s, a), b),
    decreases b.len(),
{
    if b.len() == 0 {
        assert(a + b =~= a);
    } else {
        assert((a + b).drop_last() =~= a + b.drop_last());
        assert((a + b).last() == b.last());
        lemma_deltas_add(s, a, b.drop_last());
    }
}

proof fn lemma_slots_of_chunks(cs: Seq<ChunkView>)
    ensures
        after_chunks(cs).slots == with_deltas(Seq::empty(), all_deltas(cs)),
    decreases cs.len(),
{
    if cs.len() > 0 {
        lemma_slots_of_chunks(cs.drop_last());
        lemma_deltas_add(Seq::empty(), all_deltas(cs.drop_last()), cs.last().deltas);
    }
}

/// However a stream is cut into chunks, every call of which a piece came is there
/// once, in the order of the indices, and its arguments are the pieces of arguments
/// that came for it, in order and unaltered, under the first name that came for it
/// and the last id.
pub proof fn law_calls_are_put_together(cs: Seq<ChunkView>)
    ensures
        gathers(after_chunks(cs).slots, all_deltas(cs)),
{
    lemma_slots_of_chunks(cs);
    lemma_deltas_gather(all_deltas(cs));
}

/// Cutting a piece of arguments in two makes no difference to the calls, wherever
/// in the stream it stands.
#[verifier::rlimit(40)]
pub proof fn law_cut_piece_is_one_piece(
    s: Seq<SlotView>,
    before: Seq<DeltaView>,
    d: DeltaView,
    more: Seq<char>,
    behind: Seq<DeltaView>,
)
    requires
        d.arguments is Some,
    ensures
        with_deltas(
            s,
            before + seq![
                d,
                DeltaView { index: d.index, id: None, name: None, arguments: Some(more) },
            ] + behind,
        ) == with_deltas(
            s,
            before + seq![DeltaView { arguments: Some(d.arguments->0 + more), ..d }] + behind,
        ),
{
    let e = DeltaView { index: d.index, id: None, name: None, arguments: Some(more) };
    let whole = DeltaView { arguments: Some(d.arguments->0 + more), ..d };
    lemma_deltas_add(s, before + seq![d, e], behind);
    lemma_deltas_add(s, before + seq![whole], behind);
    lemma_deltas_add(s, before, seq![d, e]);
    lemma_deltas_add(s, before, seq![whole]);
    let a = with_deltas(s, before);
    assert(seq![d, e].drop_last() =~= seq![d]);
    assert(seq![d].drop_last() =~= Seq::<DeltaView>::empty());
    assert(seq![whole].drop_last() =~= Seq::<DeltaView>::empty());
    reveal_with_fuel(with_deltas, 3);
    assert(with_deltas(a, seq![d, e]) == with_delta(with_delta(a, d), e));
    assert(with_deltas(a, seq![whole]) == with_delta(a, whole));
    let p = slot_position(a, d.index, 0);
    lemma_slot_position(a, d.index, 0);
    let t = with_delta(a, d);
    let q = slot_position(t, d.index, 0);
    lemma_slot_position(t, d.index, 0);
    assert(t[p].index == d.index);
    assert(q == p) by {
        if q < p {
            assert(t[q] == a[q]);
        }
    }
    let was = if p < a.len() && a[p].index == d.index {
        a[p]
    } else {
        fresh_slot(d.index)
    };
    assert(extended(extended(was, d), e) =~= extended(was, whole));
    assert(with_delta(t, e) =~= with_delta(a, whole));
}

/// Two chunks say the same as one that holds what both held: where a stream is cut
/// makes no difference to the reply.
pub proof fn law_cut_chunk_is_one_chunk(a: AccView, c: ChunkView, d: ChunkView)
    ensures
        with_chunk(with_chunk(a, c), d) == with_chunk(
            a,
            ChunkView {
                content: c.content + d.content,
                reasoning: c.reasoning + d.reasoning,
                deltas: c.deltas + d.deltas,
                usage: if d.usage is Some {
                    d.usage
                } else {
                    c.usage
                },
                finish_reason: if d.finish_reason is Some {
                    d.finish_reason
                } else {
                    c.finish_reason
                },
            },
        ),
{
    lemma_deltas_add(a.slots, c.deltas, d.deltas);
    assert(a.content + c.content + d.content =~= a.content + (c.content + d.content));
    assert(a.reasoning + c.reasoning + d.reasoning =~= a.reasoning + (c.reasoning + d.reasoning));
}

/// The contents of some chunks.
pub open spec fn contents(cs: Seq<ChunkView>) -> Seq<Seq<char>> {
    cs.map_values(|c: ChunkView| c.content)
}

/// The reasonings of some chunks.
pub open spec fn reasonings(cs: Seq<ChunkView>) -> Seq<Seq<char>> {
    cs.map_values(|c: ChunkView| c.reasoning)
}

/// What a reply says is what its chunks said, one behind the other and unaltered,
/// and likewise for the reasoning. Why it ended, and what it used, are what the
/// last chunk that told so told.
pub proof fn law_text_is_put_together(cs: Seq<ChunkView>)
    ensures
        after_chunks(cs).content == text::joined(contents(cs), Seq::empty()),
        after_chunks(cs).reasoning == text::joined(reasonings(cs), Seq::empty()),
        after_chunks(cs).finish_reason is Some <==> exists|i: int|
            0 <= i < cs.len() && (#[trigger] cs[i]).finish_reason is Some,
        after_chunks(cs).usage is Some <==> exists|i: int|
            0 <= i < cs.len() && (#[trigger] cs[i]).usage is Some,
        cs.len() > 0 && cs.last().finish_reason is Some ==> after_chunks(cs).finish_reason
            == cs.last().finish_reason,
        cs.len() > 0 && cs.last().usage is Some ==> after_chunks(cs).usage == cs.last().usage,
    decreases cs.len(),
{
    let none = Seq::<char>::empty();
    if cs.len() > 0 {
        let front = cs.drop_last();
        law_text_is_put_together(front);
        assert(contents(cs).drop_last() =~= contents(front));
        assert(reasonings(cs).drop_last() =~= reasonings(front));
        assert(after_chunks(cs).content =~= text::joined(contents(cs), none));
        assert(after_chunks(cs).reasoning =~= text::joined(reasonings(cs), none));
        assert(cs.last() == cs[cs.len() - 1]);
        if front.len() > 0 {
            assert forall|i: int| 0 <= i < front.len() implies #[trigger] cs[i] == front[i] by {}
        }
        if after_chunks(front).finish_reason is Some {
            let i = choose|i: int| 0 <= i < front.len() && (#[trigger] front[i]).finish_reason is Some;
            assert(cs[i].finish_reason is Some);
        }
        if after_chunks(front).usage is Some {
            let i = choose|i: int| 0 <= i < front.len() && (#[trigger] front[i]).usage is Some;
            assert(cs[i].usage is Some);
        }
        assert forall|i: int| 0 <= i < cs.len() && (#[trigger] cs[i]).finish_reason is Some implies
            after_chunks(cs).finish_reason is Some by {
            if i < front.len() {
                assert(front[i].finish_reason is Some);
            }
        }
        assert forall|i: int| 0 <= i < cs.len() && (#[trigger] cs[i]).usage is Some implies
            after_chunks(cs).usage is Some by {
            if i < front.len() {
                assert(front[i].usage is Some);
            }
        }
    }
}

/// Slots with a name.
pub open spec fn is_named() -> spec_fn(SlotView) -> bool {
    |s: SlotView| s.name.len() > 0
}

#[verifier::rlimit(40)]
proof fn lemma_calls_from(s: Seq<SlotView>, ids: Seq<Seq<char>>)
    ensures
        ({
            let named = s.filter(is_named());
            let calls = calls_from(s, ids);
            &&& calls.len() == named.len()
            &&& forall|k: int|
                0 <= k < named.len() ==> {
                    &&& (#[trigger] calls[k]).name == named[k].name
                    &&& calls[k].arguments == named[k].arguments
                    &&& calls[k].call_type == "function"@
                    &&& named[k].id.len() > 0 ==> calls[k].id == named[k].id
                    &&& named[k].id.len() == 0 ==> exists|m: int|
                        0 <= m < missing_ids(s) && calls[k].id == #[trigger] ids[m]
                }
            &&& ids.len() >= missing_ids(s) && ids.no_duplicates() ==> forall|j: int, k: int|
                0 <= j < k < named.len() && named[j].id.len() == 0 && named[k].id.len() == 0
                    ==> (#[trigger] calls[j]).id != (#[trigger] calls[k]).id
        }),
    decreases s.len(),
{
    reveal(Seq::filter);
    if s.len() > 0 {
        let front = s.drop_last();
        lemma_calls_from(front, ids);
        let named = s.filter(is_named());
        let calls = calls_from(s, ids);
        let fcalls = calls_from(front, ids);
        let fnamed = front.filter(is_named());
        assert(missing_ids(front) <= missing_ids(s));
        assert forall|k: int| 0 <= k < named.len() implies {
            &&& (#[trigger] calls[k]).name == named[k].name
            &&& calls[k].arguments == named[k].arguments
            &&& calls[k].call_type == "function"@
            &&& named[k].id.len() > 0 ==> calls[k].id == named[k].id
            &&& named[k].id.len() == 0 ==> exists|m: int|
                0 <= m < missing_ids(s) && calls[k].id == #[trigger] ids[m]
        } by {
            if k < fnamed.len() {
                assert(calls[k] == fcalls[k]);
                assert(named[k] == fnamed[k]);
            } else {
                let m = missing_ids(front) as int;
                assert(ids[m] == ids[m]);
            }
        }
        if ids.len() >= missing_ids(s) && ids.no_duplicates() {
            assert forall|j: int, k: int|
                0 <= j < k < named.len() && named[j].id.len() == 0 && named[k].id.len() == 0 implies (
            #[trigger] calls[j]).id != (#[trigger] calls[k]).id by {
                assert(calls[j] == fcalls[j] && named[j] == fnamed[j]);
                if k < fnamed.len() {
                    assert(calls[k] == fcalls[k] && named[k] == fnamed[k]);
                } else {
                    let m = choose|m: int|
                        0 <= m < missing_ids(front) && fcalls[j].id == #[trigger] ids[m];
                    assert(calls[k].id == ids[missing_ids(front) as int]);
                }
            }
        }
    }
}

/// A reply is made of what came wherever anything came. It says what came, and asks
/// for exactly the calls that have a name, in their order, with their names and
/// arguments and under their ids; those that came without an id get different ones.
pub proof fn law_turn_holds_what_came(
    a: AccView,
    reason: Option<Seq<char>>,
    ids: Seq<Seq<char>>,
)
    ensures
        turn_from(a, reason, ids) is None <==> !a.got_payload && a.content.len() == 0
            && a.slots.len() == 0,
        turn_from(a, reason, ids) matches Some(t) ==> {
            let named = a.slots.filter(is_named());
            let calls = t.response.tool_calls;
            &&& t.response.content == a.content
            &&& t.response.usage == a.usage
            &&& t.response.reasoning_content is Some <==> a.reasoning.len() > 0
            &&& t.response.reasoning_content matches Some(r) ==> r == a.reasoning
            &&& t.finish_reason == a.finish_reason
            &&& a.finish_reason is None ==> t.truncated == reason
            &&& calls.len() == named.len()
            &&& forall|k: int|
                0 <= k < named.len() ==> {
                    &&& (#[trigger] calls[k]).name == named[k].name
                    &&& calls[k].arguments == named[k].arguments
                    &&& calls[k].call_type == "function"@
                    &&& named[k].id.len() > 0 ==> calls[k].id == named[k].id
                }
            &&& ids.len() >= missing_ids(a.slots) && ids.no_duplicates() ==> forall|j: int, k: int|
                0 <= j < k < named.len() && named[j].id.len() == 0 && named[k].id.len() == 0
                    ==> (#[trigger] calls[j]).id != (#[trigger] calls[k]).id
        },
{
    lemma_calls_from(a.slots, ids);
}

/// What to do when a piece fails to come.
pub open spec fn after_error(a: AccView, over_window: bool, error: Seq<char>) -> EndView {
    if a.got_payload && has_something(a) {
        EndView::Finish(Some("stream error mid-response: "@ + error))
    } else if over_window {
        EndView::Fail
    } else {
        EndView::FallBack
    }
}

/// What to do when the stream has been silent for too long.
pub open spec fn after_silence(a: AccView) -> EndView {
    if a.got_payload {
        EndView::Finish(Some("no data for 90s"@))
    } else {
        EndView::FallBack
    }
}

/// A stream that fails before anything came is asked for again without a stream, unless the
/// prompt was too long. One that fails after something came, before the provider ended it,
/// gives a reply that broke off, for the reason that is given; it is never taken for whole.
pub proof fn law_broken_stream_is_no_reply(
    cs: Seq<ChunkView>,
    over_window: bool,
    error: Seq<char>,
    ids: Seq<Seq<char>>,
)
    ensures
        ({
            let a = after_chunks(cs);
            let said_something = exists|i: int| 0 <= i < cs.len() && (#[trigger] cs[i]).content.len() > 0;
            &&& cs.len() == 0 ==> after_error(a, over_window, error) == (if over_window {
                EndView::Fail
            } else {
                EndView::FallBack
            }) && after_silence(a) == EndView::FallBack
            &&& said_something ==> {
                &&& after_error(a, over_window, error) matches EndView::Finish(reason)
                &&& reason is Some
                &&& text::ends(reason->0, error)
                &&& a.finish_reason is None ==> (turn_from(a, reason, ids) matches Some(t)
                    && t.truncated == reason)
                &&& after_silence(a) matches EndView::Finish(why) && why is Some
            }
        }),
{
    let a = after_chunks(cs);
    let none = Seq::<char>::empty();
    let h = "stream error mid-response: "@;
    text::lemma_part_at(h, error, none);
    assert(h + error + none =~= h + error);
    if exists|i: int| 0 <= i < cs.len() && (#[trigger] cs[i]).content.len() > 0 {
        let i = choose|i: int| 0 <= i < cs.len() && (#[trigger] cs[i]).content.len() > 0;
        lemma_content_came(cs, i);
    }
}

proof fn lemma_content_came(cs: Seq<ChunkView>, i: int)
    requires
        0 <= i < cs.len(),
        cs[i].content.len() > 0,
    ensures
        after_chunks(cs).got_payload,
        after_chunks(cs).content.len() > 0,
    decreases cs.len(),
{
    if i < cs.len() - 1 {
        assert(cs.drop_last()[i] == cs[i]);
        lemma_content_came(cs.drop_last(), i);
    }
}

/// The reasoning that some events show.
pub open spec fn shown_reasoning(es: Seq<EventView>) -> Seq<char>
    decreases es.len(),
{
    if es.len() == 0 {
        Seq::empty()
    } else {
        shown_reasoning(es.drop_last()) + (match es.last() {
            EventView::Thinking { content, .. } => content,
            _ => Seq::empty(),
        })
    }
}

proof fn lemma_reasoning_add(a: Seq<EventView>, b: Seq<EventView>)
    ensures
        shown_reasoning(a + b) == shown_reasoning(a) + shown_reasoning(b),
    decreases b.len(),
{
    if b.len() == 0 {
        assert(a + b =~= a);
        assert(shown_reasoning(a) + shown_reasoning(b) =~= shown_reasoning(a));
    } else {
        assert((a + b).drop_last() =~= a + b.drop_last());
        lemma_reasoning_add(a, b.drop_last());
        assert(shown_reasoning(a + b) =~= shown_reasoning(a) + shown_reasoning(b));
    }
}

/// The reasoning that was shown of a streamed reply is the reasoning that the reply records.
pub proof fn law_shown_reasoning_is_recorded(cs: Seq<ChunkView>, iteration: u32)
    ensures
        shown_reasoning(all_events(cs, iteration)) == after_chunks(cs).reasoning,
    decreases cs.len(),
{
    if cs.len() > 0 {
        law_shown_reasoning_is_recorded(cs.drop_last(), iteration);
        let es = chunk_events(cs.last(), iteration);
        lemma_reasoning_add(all_events(cs.drop_last(), iteration), es);
        reveal_with_fuel(shown_reasoning, 3);
        if es.len() == 2 {
            assert(es.drop_last().drop_last() =~= Seq::<EventView>::empty());
        }
        assert(shown_reasoning(es) =~= cs.last().reasoning);
    }
}

} // verus!
