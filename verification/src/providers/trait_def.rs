//! Messages, tool calls, tool definitions and provider replies.
//!
//! Every type has a view in which strings are character sequences; contracts
//! speak of the views.

use crate::text;
use crate::text::{copy_option, copy_texts, same};
use vstd::prelude::*;

verus! {

// ── Roles ───────────────────────────────────────────────────────────────────

/// Who a message is from.
#[derive(Debug, Clone, Copy, PartialEq, Eq, Structural)]
pub enum Role {
    System,
    User,
    Assistant,
    Tool,
}

/// The name of a role.
pub open spec fn role_name(role: Role) -> Seq<char> {
    match role {
        Role::System => "System"@,
        Role::User => "User"@,
        Role::Assistant => "Assistant"@,
        Role::Tool => "Tool"@,
    }
}

impl Role {
    /// The name of the role.
    pub fn name(&self) -> (s: &'static str)
        ensures
            s@ == role_name(*self),
    {
        match self {
            Role::System => "System",
            Role::User => "User",
            Role::Assistant => "Assistant",
            Role::Tool => "Tool",
        }
    }
}

// ── Contents ────────────────────────────────────────────────────────────────

/// The body of a message: plain text, or a list of parts, each in its JSON text.
#[derive(Debug, PartialEq, Eq)]
pub enum MessageContent {
    Text(String),
    Parts(Vec<String>),
}

/// A message body as a value.
#[verifier::ext_equal]
pub enum ContentView {
    Text(Seq<char>),
    Parts(Seq<Seq<char>>),
}

impl View for MessageContent {
    type V = ContentView;

    open spec fn view(&self) -> ContentView {
        match self {
            MessageContent::Text(s) => ContentView::Text(s@),
            MessageContent::Parts(ps) => ContentView::Parts(text::texts(ps@)),
        }
    }
}

impl ContentView {
    /// The plain text, where the body is one.
    pub open spec fn as_text(self) -> Option<Seq<char>> {
        match self {
            ContentView::Text(s) => Some(s),
            ContentView::Parts(_) => None,
        }
    }

    /// The plain text, empty where the body is a list of parts.
    pub open spec fn text(self) -> Seq<char> {
        match self {
            ContentView::Text(s) => s,
            ContentView::Parts(_) => Seq::empty(),
        }
    }

    /// Whether there is no text and no part.
    pub open spec fn is_empty(self) -> bool {
        match self {
            ContentView::Text(s) => s.len() == 0,
            ContentView::Parts(ps) => ps.len() == 0,
        }
    }
}

impl MessageContent {
    /// The plain text, where the body is one.
    pub fn as_text(&self) -> (r: Option<&str>)
        ensures
            match r {
                Some(s) => self@.as_text() == Some(s@),
                None => self@.as_text() is None,
            },
    {
        match self {
            MessageContent::Text(s) => Some(s.as_str()),
            MessageContent::Parts(_) => None,
        }
    }

    /// The plain text, empty where the body is a list of parts.
    pub fn text_or_empty(&self) -> (r: &str)
        ensures
            r@ == self@.text(),
    {
        match self {
            MessageContent::Text(s) => s.as_str(),
            MessageContent::Parts(_) => {
                proof {
                    reveal_strlit("");
                }
                assert(""@ =~= Seq::<char>::empty());
                ""
            },
        }
    }

    /// Whether there is no text and no part.
    pub fn is_empty(&self) -> (b: bool)
        ensures
            b == self@.is_empty(),
    {
        match self {
            MessageContent::Text(s) => s.as_str().is_empty(),
            MessageContent::Parts(ps) => ps.len() == 0,
        }
    }

    /// Whether two bodies are the same.
    pub fn same_as(&self, other: &MessageContent) -> (r: bool)
        ensures
            r == (self@ == other@),
    {
        match (self, other) {
            (MessageContent::Text(a), MessageContent::Text(b)) => same(a.as_str(), b.as_str()),
            (MessageContent::Parts(a), MessageContent::Parts(b)) => same_texts(a, b),
            _ => false,
        }
    }
}

/// Whether two lists of strings hold the same texts in the same order.
pub fn same_texts(a: &Vec<String>, b: &Vec<String>) -> (r: bool)
    ensures
        r == (text::texts(a@) == text::texts(b@)),
{
    let n: usize = a.len();
    if n != b.len() {
        assert(text::texts(a@).len() != text::texts(b@).len());
        return false;
    }
    for i in 0..n
        invariant
            n == a@.len() == b@.len(),
            forall|k: int| 0 <= k < i ==> text::texts(a@)[k] == text::texts(b@)[k],
    {
        if !same(a[i].as_str(), b[i].as_str()) {
            assert(text::texts(a@)[i as int] != text::texts(b@)[i as int]);
            return false;
        }
    }
    assert(text::texts(a@) =~= text::texts(b@));
    true
}

impl Clone for MessageContent {
    fn clone(&self) -> (r: Self)
        ensures
            r@ == self@,
    {
        match self {
            MessageContent::Text(s) => MessageContent::Text(s.clone()),
            MessageContent::Parts(ps) => MessageContent::Parts(copy_texts(ps)),
        }
    }
}

// ── Tool calls ──────────────────────────────────────────────────────────────

/// The function a tool call asks for, with its arguments as JSON text.
#[derive(Debug, PartialEq, Eq)]
pub struct FunctionCall {
    pub name: String,
    pub arguments: String,
}

/// One tool call of an assistant.
#[derive(Debug, PartialEq, Eq)]
pub struct ToolCall {
    pub id: String,
    pub call_type: String,
    pub function: FunctionCall,
}

/// A tool call as a value.
#[verifier::ext_equal]
pub struct ToolCallView {
    pub id: Seq<char>,
    pub call_type: Seq<char>,
    pub name: Seq<char>,
    pub arguments: Seq<char>,
}

impl View for ToolCall {
    type V = ToolCallView;

    open spec fn view(&self) -> ToolCallView {
        ToolCallView {
            id: self.id@,
            call_type: self.call_type@,
            name: self.function.name@,
            arguments: self.function.arguments@,
        }
    }
}

impl Clone for FunctionCall {
    fn clone(&self) -> (r: Self)
        ensures
            r == *self,
    {
        FunctionCall { name: self.name.clone(), arguments: self.arguments.clone() }
    }
}

impl Clone for ToolCall {
    fn clone(&self) -> (r: Self)
        ensures
            r == *self,
    {
        ToolCall {
            id: self.id.clone(),
            call_type: self.call_type.clone(),
            function: self.function.clone(),
        }
    }
}

/// The values of a sequence of tool calls.
pub open spec fn call_views(v: Seq<ToolCall>) -> Seq<ToolCallView> {
    v.map_values(|c: ToolCall| c@)
}

/// Adding one call adds one value.
pub broadcast proof fn lemma_call_views_push(v: Seq<ToolCall>, c: ToolCall)
    ensures
        #[trigger] call_views(v.push(c)) == call_views(v).push(c@),
{
    assert(call_views(v.push(c)) =~= call_views(v).push(c@));
}

/// The values of an optional list of tool calls.
pub open spec fn opt_calls(o: Option<Vec<ToolCall>>) -> Option<Seq<ToolCallView>> {
    match o {
        Some(v) => Some(call_views(v@)),
        None => None,
    }
}

/// A copy of a list of tool calls.
pub fn copy_calls(v: &Vec<ToolCall>) -> (r: Vec<ToolCall>)
    ensures
        call_views(r@) == call_views(v@),
        r@ == v@,
{
    let mut r: Vec<ToolCall> = Vec::new();
    let n: usize = v.len();
    for i in 0..n
        invariant
            n == v@.len(),
            r@ == v@.take(i as int),
    {
        r.push(v[i].clone());
    }
    assert(r@ =~= v@);
    r
}

// ── Messages ────────────────────────────────────────────────────────────────

/// One message of a conversation.
#[derive(Debug, PartialEq, Eq)]
pub struct Message {
    pub role: Role,
    pub content: MessageContent,
    pub name: Option<String>,
    pub tool_calls: Option<Vec<ToolCall>>,
    pub tool_call_id: Option<String>,
    pub reasoning_content: Option<String>,
    pub created_at: i64,
}

/// A message as a value.
#[verifier::ext_equal]
pub struct MessageView {
    pub role: Role,
    pub content: ContentView,
    pub name: Option<Seq<char>>,
    pub tool_calls: Option<Seq<ToolCallView>>,
    pub tool_call_id: Option<Seq<char>>,
    pub reasoning_content: Option<Seq<char>>,
    pub created_at: i64,
}

impl View for Message {
    type V = MessageView;

    open spec fn view(&self) -> MessageView {
        MessageView {
            role: self.role,
            content: self.content@,
            name: text::opt_text(self.name),
            tool_calls: opt_calls(self.tool_calls),
            tool_call_id: text::opt_text(self.tool_call_id),
            reasoning_content: text::opt_text(self.reasoning_content),
            created_at: self.created_at,
        }
    }
}

impl Clone for Message {
    fn clone(&self) -> (r: Self)
        ensures
            r@ == self@,
    {
        Message {
            role: self.role,
            content: self.content.clone(),
            name: copy_option(&self.name),
            tool_calls: match &self.tool_calls {
                Some(v) => Some(copy_calls(v)),
                None => None,
            },
            tool_call_id: copy_option(&self.tool_call_id),
            reasoning_content: copy_option(&self.reasoning_content),
            created_at: self.created_at,
        }
    }
}

impl Default for Message {
    /// An empty user message.
    fn default() -> (r: Self)
        ensures
            r@ == text_message(Role::User, Seq::empty()),
    {
        let r = Message {
            role: Role::User,
            content: MessageContent::Text(String::new()),
            name: None,
            tool_calls: None,
            tool_call_id: None,
            reasoning_content: None,
            created_at: 0,
        };
        r
    }
}

/// A message with a role and a plain text, and nothing else.
pub open spec fn text_message(role: Role, text: Seq<char>) -> MessageView {
    MessageView {
        role,
        content: ContentView::Text(text),
        name: None,
        tool_calls: None,
        tool_call_id: None,
        reasoning_content: None,
        created_at: 0,
    }
}

/// The answer to the tool call `id`.
pub open spec fn tool_message(id: Seq<char>, text: Seq<char>) -> MessageView {
    MessageView { tool_call_id: Some(id), ..text_message(Role::Tool, text) }
}

impl Message {
    /// A message with a role and a plain text, and nothing else.
    pub fn from_text(role: Role, text: String) -> (r: Self)
        ensures
            r@ == text_message(role, text@),
    {
        Message {
            role,
            content: MessageContent::Text(text),
            name: None,
            tool_calls: None,
            tool_call_id: None,
            reasoning_content: None,
            created_at: 0,
        }
    }

    /// The answer to the tool call `id`.
    pub fn tool_answer(id: String, text: String) -> (r: Self)
        ensures
            r@ == tool_message(id@, text@),
    {
        Message {
            role: Role::Tool,
            content: MessageContent::Text(text),
            name: None,
            tool_calls: None,
            tool_call_id: Some(id),
            reasoning_content: None,
            created_at: 0,
        }
    }
}

/// The values of a conversation.
pub open spec fn views(v: Seq<Message>) -> Seq<MessageView> {
    v.map_values(|m: Message| m@)
}

/// Adding one message adds one value.
pub broadcast proof fn lemma_views_push(v: Seq<Message>, m: Message)
    ensures
        #[trigger] views(v.push(m)) == views(v).push(m@),
{
    assert(views(v.push(m)) =~= views(v).push(m@));
}

/// Copies the messages from `from` on to the end of `out`.
pub fn copy_onto(out: &mut Vec<Message>, v: &[Message], from: usize)
    requires
        from <= v@.len(),
    ensures
        views(final(out)@) == views(old(out)@) + views(v@).skip(from as int),
{
    let n: usize = v.len();
    let ghost start = views(out@);
    assert(views(v@).subrange(from as int, from as int) =~= Seq::empty());
    assert(views(out@) =~= start + views(v@).subrange(from as int, from as int));
    for i in from..n
        invariant
            from <= i <= n == v@.len(),
            views(out@) == start + views(v@).subrange(from as int, i as int),
    {
        let m = v[i].clone();
        proof {
            lemma_views_push(out@, m);
        }
        out.push(m);
        proof {
            assert(views(v@).subrange(from as int, i + 1) =~= views(v@).subrange(
                from as int,
                i as int,
            ).push(views(v@)[i as int]));
        }
        assert(views(out@) =~= start + views(v@).subrange(from as int, i + 1));
    }
    assert(views(v@).subrange(from as int, n as int) =~= views(v@).skip(from as int));
}

/// A copy of a conversation.
pub fn copy_messages(v: &[Message]) -> (r: Vec<Message>)
    ensures
        views(r@) == views(v@),
{
    let mut r: Vec<Message> = Vec::new();
    copy_onto(&mut r, v, 0);
    assert(views(r@) =~= views(v@));
    r
}

// ── Tool definitions ────────────────────────────────────────────────────────

/// What a tool is called, what it does, and the JSON text of its parameter
/// schema.
#[derive(Debug, PartialEq, Eq)]
pub struct FunctionDef {
    pub name: String,
    pub description: Option<String>,
    pub parameters: String,
}

/// One tool that the model may call.
#[derive(Debug, PartialEq, Eq)]
pub struct ToolDef {
    pub function: FunctionDef,
}

/// A tool definition as a value.
#[verifier::ext_equal]
pub struct ToolDefView {
    pub name: Seq<char>,
    pub description: Option<Seq<char>>,
    pub parameters: Seq<char>,
}

impl View for ToolDef {
    type V = ToolDefView;

    open spec fn view(&self) -> ToolDefView {
        ToolDefView {
            name: self.function.name@,
            description: text::opt_text(self.function.description),
            parameters: self.function.parameters@,
        }
    }
}

impl ToolDef {
    /// A tool with a name, a description and the JSON text of its parameters.
    pub fn new(name: &str, description: &str, parameters: &str) -> (r: Self)
        ensures
            r@ == (ToolDefView {
                name: name@,
                description: Some(description@),
                parameters: parameters@,
            }),
    {
        ToolDef {
            function: FunctionDef {
                name: name.to_string(),
                description: Some(description.to_string()),
                parameters: parameters.to_string(),
            },
        }
    }
}

impl Clone for ToolDef {
    fn clone(&self) -> (r: Self)
        ensures
            r@ == self@,
    {
        ToolDef {
            function: FunctionDef {
                name: self.function.name.clone(),
                description: copy_option(&self.function.description),
                parameters: self.function.parameters.clone(),
            },
        }
    }
}

/// The values of a list of tool definitions.
pub open spec fn tool_views(v: Seq<ToolDef>) -> Seq<ToolDefView> {
    v.map_values(|t: ToolDef| t@)
}

/// A copy of a list of tool definitions.
pub fn copy_tools(v: &[ToolDef]) -> (r: Vec<ToolDef>)
    ensures
        tool_views(r@) == tool_views(v@),
{
    let mut r: Vec<ToolDef> = Vec::new();
    let n: usize = v.len();
    for i in 0..n
        invariant
            n == v@.len(),
            r@.len() == i,
            forall|k: int| 0 <= k < i ==> tool_views(r@)[k] == tool_views(v@)[k],
    {
        r.push(v[i].clone());
    }
    assert(tool_views(r@) =~= tool_views(v@));
    r
}

// ── Replies ─────────────────────────────────────────────────────────────────

/// What a provider reports as used by one call.
#[derive(Debug, Clone, Copy, PartialEq, Eq, Structural)]
pub struct UsageInfo {
    pub input_tokens: u64,
    pub output_tokens: u64,
    pub cache_read_tokens: u64,
    pub cache_write_tokens: u64,
}

impl Default for UsageInfo {
    fn default() -> (r: Self)
        ensures
            r == (UsageInfo {
                input_tokens: 0,
                output_tokens: 0,
                cache_read_tokens: 0,
                cache_write_tokens: 0,
            }),
    {
        UsageInfo {
            input_tokens: 0,
            output_tokens: 0,
            cache_read_tokens: 0,
            cache_write_tokens: 0,
        }
    }
}

/// A complete reply of a provider.
#[derive(Debug)]
pub struct ChatResponse {
    pub content: String,
    pub tool_calls: Vec<ToolCall>,
    pub usage: Option<UsageInfo>,
    pub reasoning_content: Option<String>,
}

/// A reply as a value.
#[verifier::ext_equal]
pub struct ChatResponseView {
    pub content: Seq<char>,
    pub tool_calls: Seq<ToolCallView>,
    pub usage: Option<UsageInfo>,
    pub reasoning_content: Option<Seq<char>>,
}

impl View for ChatResponse {
    type V = ChatResponseView;

    open spec fn view(&self) -> ChatResponseView {
        ChatResponseView {
            content: self.content@,
            tool_calls: call_views(self.tool_calls@),
            usage: self.usage,
            reasoning_content: text::opt_text(self.reasoning_content),
        }
    }
}

/// A piece of a function call in a streamed reply.
#[derive(Debug)]
pub struct FunctionDelta {
    pub name: Option<String>,
    pub arguments: Option<String>,
}

/// A piece of the tool call `index` in a streamed reply.
#[derive(Debug)]
pub struct ToolCallDelta {
    pub index: u32,
    pub id: Option<String>,
    pub function: Option<FunctionDelta>,
}

/// A piece of a tool call as a value.
#[verifier::ext_equal]
pub struct DeltaView {
    pub index: u32,
    pub id: Option<Seq<char>>,
    pub name: Option<Seq<char>>,
    pub arguments: Option<Seq<char>>,
}

impl View for ToolCallDelta {
    type V = DeltaView;

    open spec fn view(&self) -> DeltaView {
        DeltaView {
            index: self.index,
            id: text::opt_text(self.id),
            name: match self.function {
                Some(f) => text::opt_text(f.name),
                None => None,
            },
            arguments: match self.function {
                Some(f) => text::opt_text(f.arguments),
                None => None,
            },
        }
    }
}

/// The values of the pieces of tool calls.
pub open spec fn delta_views(v: Seq<ToolCallDelta>) -> Seq<DeltaView> {
    v.map_values(|d: ToolCallDelta| d@)
}

/// One piece of a streamed reply.
#[derive(Debug)]
pub struct StreamChunk {
    pub reasoning_content: Option<String>,
    pub content: Option<String>,
    pub tool_calls: Option<Vec<ToolCallDelta>>,
    pub usage: Option<UsageInfo>,
    pub finish_reason: Option<String>,
}

/// A piece of a streamed reply as a value. Absent texts and lists are empty.
#[verifier::ext_equal]
pub struct ChunkView {
    pub reasoning: Seq<char>,
    pub content: Seq<char>,
    pub deltas: Seq<DeltaView>,
    pub usage: Option<UsageInfo>,
    pub finish_reason: Option<Seq<char>>,
}

/// The text of an optional string, empty where it is absent.
pub open spec fn text_or_empty(o: Option<String>) -> Seq<char> {
    match o {
        Some(s) => s@,
        None => Seq::empty(),
    }
}

impl View for StreamChunk {
    type V = ChunkView;

    open spec fn view(&self) -> ChunkView {
        ChunkView {
            reasoning: text_or_empty(self.reasoning_content),
            content: text_or_empty(self.content),
            deltas: match self.tool_calls {
                Some(v) => delta_views(v@),
                None => Seq::empty(),
            },
            usage: self.usage,
            finish_reason: text::opt_text(self.finish_reason),
        }
    }
}

/// Why a provider call failed.
#[derive(Debug, PartialEq, Eq)]
pub enum ProviderError {
    /// The provider answered with an error status.
    Api { status: u16, message: String },
    /// The request did not get through.
    Http(String),
    /// The reply could not be read.
    Parse(String),
    /// There is no key for the channel.
    NoApiKey,
    /// The reply broke off.
    StreamInterrupted(String),
}

/// A failure as a value.
pub enum ProviderErrorView {
    Api { status: u16, message: Seq<char> },
    Http(Seq<char>),
    Parse(Seq<char>),
    NoApiKey,
    StreamInterrupted(Seq<char>),
}

impl View for ProviderError {
    type V = ProviderErrorView;

    open spec fn view(&self) -> ProviderErrorView {
        match self {
            ProviderError::Api { status, message } => ProviderErrorView::Api {
                status: *status,
                message: message@,
            },
            ProviderError::Http(s) => ProviderErrorView::Http(s@),
            ProviderError::Parse(s) => ProviderErrorView::Parse(s@),
            ProviderError::NoApiKey => ProviderErrorView::NoApiKey,
            ProviderError::StreamInterrupted(s) => ProviderErrorView::StreamInterrupted(s@),
        }
    }
}

impl Clone for ProviderError {
    fn clone(&self) -> (r: Self)
        ensures
            r@ == self@,
    {
        match self {
            ProviderError::Api { status, message } => ProviderError::Api {
                status: *status,
                message: message.clone(),
            },
            ProviderError::Http(s) => ProviderError::Http(s.clone()),
            ProviderError::Parse(s) => ProviderError::Parse(s.clone()),
            ProviderError::NoApiKey => ProviderError::NoApiKey,
            ProviderError::StreamInterrupted(s) => ProviderError::StreamInterrupted(s.clone()),
        }
    }
}

} // verus!
