//! Tool servers that speak the Model Context Protocol.
//!
//! A server is a child process. Requests and replies are JSON objects, one on each
//! line; older servers put a `Content-Length` header before each. What is here says
//! what to write, what each line means and which reply answers which request; the
//! caller owns the process and its pipes.

use crate::config::settings;
use crate::config::settings::{apply_proxy_env_tokio, effective_proxy, EnvChange};
use crate::json;
use crate::json::json_string;
use crate::providers::trait_def::{ToolDef, ToolDefView};
use crate::text;
use crate::text::{
    cat2, cat3, char_width, chars_of, copy_texts, count_bytes, decimal, join, read_number, read_u64, same,
    signed_decimal, split, str_starts_with, take_last, text_of, trim,
};
use crate::text_map;
use crate::text_map::TextMap;
use vstd::prelude::*;
use vstd::slice::slice_subrange;
use vstd::string::*;

verus! {

/// How many bytes of one line of a server's error output are kept.
pub const MAX_STDERR_LINE_BYTES: usize = 65_536;

/// How many bytes of a server's error output are kept.
pub const STDERR_TAIL_BYTES: usize = 4096;

/// How many bytes a message may have.
pub const MAX_MCP_MESSAGE_BYTES: usize = 16_777_216;

/// How many bytes a line of a header may have.
pub const MAX_HEADER_LINE_BYTES: usize = 8192;

/// How many lines that are no messages are passed over.
pub const MAX_SKIPPED_LINES: u32 = 200;

/// How many seconds a tool may take, unless the environment says otherwise.
pub const DEFAULT_TOOL_CALL_TIMEOUT_SECS: u64 = 600;

/// How many seconds the first request may take.
pub const INITIALIZE_TIMEOUT_SECS: u64 = 120;

/// How many seconds any other request may take.
pub const REQUEST_TIMEOUT_SECS: u64 = 60;

// ── Settings of the environment ─────────────────────────────────────────────

/// The seconds that a tool may take by a setting of the environment.
pub open spec fn tool_timeout(setting: Option<Seq<char>>) -> u64 {
    match setting {
        Some(s) => match text::u64_of(text::number_of(text::trim_of(s))) {
            Some(v) => if v > 0 {
                v
            } else {
                DEFAULT_TOOL_CALL_TIMEOUT_SECS
            },
            None => DEFAULT_TOOL_CALL_TIMEOUT_SECS,
        },
        None => DEFAULT_TOOL_CALL_TIMEOUT_SECS,
    }
}

/// The seconds that a tool may take by a setting of the environment.
pub fn resolve_tool_call_timeout(setting: &Option<String>) -> (r: u64)
    ensures
        r == tool_timeout(text::opt_text(*setting)),
{
    if let Some(s) = setting {
        let all = chars_of(s.as_str());
        if let Some(v) = read_u64(trim(all.as_slice())) {
            if v > 0 {
                return v;
            }
        }
    }
    DEFAULT_TOOL_CALL_TIMEOUT_SECS
}

/// Colons.
pub open spec fn colon() -> spec_fn(char) -> bool {
    |c: char| c == ':'
}

fn is_colon(c: char) -> (b: bool)
    ensures
        b == colon()(c),
{
    c == ':'
}

/// A list with one more entry, unless it is there.
pub open spec fn with_entry(s: Seq<Seq<char>>, e: Seq<char>) -> Seq<Seq<char>> {
    if s.contains(e) {
        s
    } else {
        s.push(e)
    }
}

/// A search path for programs that holds the usual directories.
pub open spec fn usable_path(path: Seq<char>) -> Seq<char> {
    text::joined(
        with_entry(
            with_entry(
                with_entry(
                    with_entry(text::parts_of(path, colon()), "/usr/local/bin"@),
                    "/opt/homebrew/bin"@,
                ),
                "/usr/bin"@,
            ),
            "/bin"@,
        ),
        ":"@,
    )
}

fn add_entry(parts: &mut Vec<String>, e: &str)
    ensures
        text::texts(final(parts)@) == with_entry(text::texts(old(parts)@), e@),
{
    let ghost s = text::texts(parts@);
    let n: usize = parts.len();
    for i in 0..n
        invariant
            n == parts@.len(),
            s == text::texts(parts@),
            *parts == *old(parts),
            forall|k: int| 0 <= k < i ==> #[trigger] s[k] != e@,
    {
        assert(s[i as int] == parts@[i as int]@);
        if same(parts[i].as_str(), e) {
            assert(s.contains(e@));
            return;
        }
    }
    assert(!s.contains(e@));
    let t = e.to_string();
    proof {
        text::lemma_texts_push(parts@, t);
    }
    parts.push(t);
}

/// Adds the usual directories to a search path for programs, where they are not in
/// it.
pub fn extend_path(path: &str) -> (r: String)
    ensures
        r@ == usable_path(path@),
{
    let pieces = split(chars_of(path).as_slice(), is_colon, Ghost(colon()));
    let ghost all = text::char_views(pieces@);
    let n: usize = pieces.len();
    let mut parts: Vec<String> = Vec::new();
    assert(text::texts(parts@) =~= all.take(0));
    for i in 0..n
        invariant
            n == pieces@.len(),
            all == text::char_views(pieces@),
            text::texts(parts@) == all.take(i as int),
    {
        let t = text_of(pieces[i].as_slice());
        proof {
            text::lemma_texts_push(parts@, t);
            assert(all.take(i + 1) =~= all.take(i as int).push(all[i as int]));
        }
        parts.push(t);
    }
    assert(all.take(n as int) =~= all);
    add_entry(&mut parts, "/usr/local/bin");
    add_entry(&mut parts, "/opt/homebrew/bin");
    add_entry(&mut parts, "/usr/bin");
    add_entry(&mut parts, "/bin");
    join(&parts, ":")
}

// ── Lines ───────────────────────────────────────────────────────────────────

/// The first `max` of some bytes.
pub open spec fn clipped(s: Seq<u8>, max: usize) -> Seq<u8> {
    if s.len() <= max {
        s
    } else {
        s.take(max as int)
    }
}

/// The position of the first line feed from `k` on; the length where there is none.
pub open spec fn feed_at(s: Seq<u8>, k: int) -> int
    decreases s.len() - k,
{
    if 0 <= k < s.len() && s[k] != 10 {
        feed_at(s, k + 1)
    } else {
        k
    }
}

/// How many of some bytes belong to the present line.
pub open spec fn line_part(s: Seq<u8>) -> int {
    let k = feed_at(s, 0);
    if k < s.len() {
        k + 1
    } else {
        k
    }
}

/// A line as it comes in, of which no more than `max` bytes are kept. The rest of the
/// line is counted and dropped, so that the next line starts where it should.
#[derive(Debug)]
pub struct LineBuffer {
    kept: Vec<u8>,
    total: usize,
    max: usize,
}

impl LineBuffer {
    /// The bytes of the line that are kept.
    pub closed spec fn kept(&self) -> Seq<u8> {
        self.kept@
    }

    /// How many bytes the line has so far.
    pub closed spec fn total(&self) -> nat {
        self.total as nat
    }

    /// How many bytes are kept at most.
    pub closed spec fn limit(&self) -> usize {
        self.max
    }

    /// All that came in is kept, up to the limit.
    pub open spec fn wf(&self) -> bool {
        self.kept().len() == (if self.total() <= self.limit() {
            self.total()
        } else {
            self.limit() as nat
        })
    }

    /// An empty line.
    pub fn new(max: usize) -> (r: Self)
        ensures
            r.wf(),
            r.kept() == Seq::<u8>::empty(),
            r.total() == 0,
            r.limit() == max,
    {
        LineBuffer { kept: Vec::new(), total: 0, max }
    }

    /// Takes the bytes of the present line out of those that are at hand. Says how
    /// many they are, and whether the line ends with them.
    pub fn feed(&mut self, available: &[u8]) -> (r: (usize, bool))
        requires
            old(self).wf(),
            old(self).total() + available@.len() <= usize::MAX,
        ensures
            final(self).wf(),
            final(self).limit() == old(self).limit(),
            r.0 == line_part(available@),
            r.1 == (feed_at(available@, 0) < available@.len()),
            final(self).total() == old(self).total() + r.0,
            final(self).kept() == clipped(
                old(self).kept() + available@.take(line_part(available@)),
                old(self).limit(),
            ),
    {
        let ghost before = self.kept@;
        let n: usize = available.len();
        let mut k: usize = 0;
        while k < n && available[k] != 10
            invariant
                k <= n == available@.len(),
                feed_at(available@, 0) == feed_at(available@, k as int),
            decreases n - k,
        {
            k = k + 1;
        }
        let done = k < n;
        let count: usize = if done {
            k + 1
        } else {
            k
        };
        let ghost part = available@.take(count as int);
        let mut i: usize = 0;
        assert(clipped(before + part.take(0), self.max) =~= before);
        while i < count && self.kept.len() < self.max
            invariant
                i <= count <= n == available@.len(),
                part == available@.take(count as int),
                self.max == old(self).max,
                self.total == old(self).total,
                self.kept@ == before + part.take(i as int),
                self.kept@.len() <= self.max,
            decreases count - i,
        {
            self.kept.push(available[i]);
            assert(part.take(i + 1) =~= part.take(i as int).push(part[i as int]));
            assert(self.kept@ =~= before + part.take(i + 1));
            i = i + 1;
        }
        proof {
            if i == count {
                assert(part.take(i as int) =~= part);
            } else {
                assert((before + part).take(self.max as int) =~= before + part.take(i as int));
            }
            assert(self.kept@ =~= clipped(before + part, self.max));
        }
        self.total = self.total + count;
        (count, done)
    }

    /// The bytes of the line that are kept, and how many it has.
    pub fn into_line(self) -> (r: (Vec<u8>, usize))
        ensures
            r.0@ == self.kept(),
            r.1 == self.total(),
    {
        (self.kept, self.total)
    }
}

/// A line comes out the same however it comes in: taking two pieces of it is taking
/// them at once.
pub proof fn law_line_is_the_same_in_pieces(kept: Seq<u8>, a: Seq<u8>, b: Seq<u8>, max: usize)
    ensures
        clipped(clipped(kept + a, max) + b, max) == clipped(kept + (a + b), max),
{
    let whole = kept + (a + b);
    assert(whole =~= kept + a + b);
    if (kept + a).len() > max {
        assert(clipped(clipped(kept + a, max) + b, max) =~= clipped(whole, max));
    } else {
        assert(clipped(kept + a, max) + b =~= whole);
    }
}

/// The longest end of a text that has no more than `max` bytes.
pub open spec fn end_within(s: Seq<char>, max: nat) -> Seq<char>
    decreases s.len(),
{
    if text::byte_len(s) <= max || s.len() == 0 {
        s
    } else {
        end_within(s.skip(1), max)
    }
}

/// Keeps no more than the last `max` bytes of a text, without splitting a character.
pub fn truncate_front(s: &mut String, max: usize)
    ensures
        final(s)@ == end_within(old(s)@, max as nat),
{
    let all = chars_of(s.as_str());
    let n: usize = all.len();
    let mut left: u128 = count_bytes(all.as_slice());
    if left <= max as u128 {
        return;
    }
    let mut i: usize = 0;
    assert(all@.skip(0) =~= all@);
    while i < n && left > max as u128
        invariant
            i <= n == all@.len(),
            left == text::byte_len(all@.skip(i as int)),
            end_within(all@, max as nat) == end_within(all@.skip(i as int), max as nat),
        decreases n - i,
    {
        proof {
            assert(all@.skip(i as int)[0] == all@[i as int]);
            assert(all@.skip(i as int).skip(1) =~= all@.skip(i + 1));
        }
        left = left - char_width(all[i]);
        i = i + 1;
    }
    let rest = slice_subrange(all.as_slice(), i, n);
    assert(rest@ =~= all@.skip(i as int));
    *s = text_of(rest);
}

/// A text that is cut at its front is an end of what it was, and has no more bytes
/// than it may.
pub proof fn law_truncated_front_is_an_end(s: Seq<char>, max: nat)
    ensures
        text::byte_len(end_within(s, max)) <= max,
        end_within(s, max).len() <= s.len(),
        end_within(s, max) == s.skip(s.len() - end_within(s, max).len()),
    decreases s.len(),
{
    if text::byte_len(s) > max && s.len() > 0 {
        law_truncated_front_is_an_end(s.skip(1), max);
        let e = end_within(s.skip(1), max);
        assert(s.skip(1).skip(s.skip(1).len() - e.len()) =~= s.skip(s.len() - e.len()));
    } else {
        assert(s.skip(0) =~= s);
    }
}

// ── Tools ───────────────────────────────────────────────────────────────────

/// A tool of a server.
#[derive(Debug)]
pub struct McpToolDef {
    pub name: String,
    pub description: String,
    /// The JSON schema of its arguments, as text.
    pub input_schema: String,
}

impl McpToolDef {
    /// The tool as the agent knows it, under a name that starts with `mcp_`.
    pub fn to_tool_def(&self) -> (r: ToolDef)
        ensures
            r@ == (ToolDefView {
                name: "mcp_"@ + self.name@,
                description: Some(self.description@),
                parameters: self.input_schema@,
            }),
    {
        ToolDef::new(
            cat2("mcp_", self.name.as_str()).as_str(),
            self.description.as_str(),
            self.input_schema.as_str(),
        )
    }
}

// ── Errors ──────────────────────────────────────────────────────────────────

/// What can go wrong with a server.
#[derive(Debug)]
pub enum McpError {
    /// Its process could not be started, or its pipes failed.
    SpawnError(String),
    ProcessExited(String),
    Protocol(String),
    /// It answered with an error.
    ServerError { code: i64, message: String },
    Json(String),
    Timeout,
}

/// An error as a value.
#[verifier::ext_equal]
pub enum McpErrorView {
    SpawnError(Seq<char>),
    ProcessExited(Seq<char>),
    Protocol(Seq<char>),
    ServerError { code: i64, message: Seq<char> },
    Json(Seq<char>),
    Timeout,
}

impl View for McpError {
    type V = McpErrorView;

    open spec fn view(&self) -> McpErrorView {
        match self {
            McpError::SpawnError(s) => McpErrorView::SpawnError(s@),
            McpError::ProcessExited(s) => McpErrorView::ProcessExited(s@),
            McpError::Protocol(s) => McpErrorView::Protocol(s@),
            McpError::ServerError { code, message } => McpErrorView::ServerError {
                code: *code,
                message: message@,
            },
            McpError::Json(s) => McpErrorView::Json(s@),
            McpError::Timeout => McpErrorView::Timeout,
        }
    }
}

impl McpError {
    /// What is said about an error.
    pub open spec fn told(e: McpErrorView) -> Seq<char> {
        match e {
            McpErrorView::SpawnError(s) => "Failed to spawn MCP server process: "@ + s,
            McpErrorView::ProcessExited(s) => "MCP server process exited unexpectedly: "@ + s,
            McpErrorView::Protocol(s) => "JSON-RPC protocol error: "@ + s,
            McpErrorView::ServerError { code, message } => "MCP server returned an error: code="@
                + text::signed_dec(code as int) + ", message="@ + message,
            McpErrorView::Json(s) => "JSON serialization error: "@ + s,
            McpErrorView::Timeout => "Timeout waiting for MCP server response"@,
        }
    }

    /// What is said about the error.
    pub fn describe(&self) -> (r: String)
        ensures
            r@ == McpError::told(self@),
    {
        match self {
            McpError::SpawnError(s) => cat2("Failed to spawn MCP server process: ", s.as_str()),
            McpError::ProcessExited(s) => cat2(
                "MCP server process exited unexpectedly: ",
                s.as_str(),
            ),
            McpError::Protocol(s) => cat2("JSON-RPC protocol error: ", s.as_str()),
            McpError::ServerError { code, message } => cat3(
                "MCP server returned an error: code=",
                signed_decimal(*code).as_str(),
                ", message=",
            ).concat(message.as_str()),
            McpError::Json(s) => cat2("JSON serialization error: ", s.as_str()),
            McpError::Timeout => "Timeout waiting for MCP server response".to_string(),
        }
    }
}

/// What may help with an error: the proxy, and the last of what the server wrote to
/// its error output, behind a heading.
pub open spec fn hint_of(
    proxy: Option<Seq<char>>,
    stderr: Seq<char>,
    heading: Seq<char>,
    most: nat,
) -> Seq<char> {
    (match proxy {
        Some(p) => " proxy="@ + p,
        None => Seq::empty(),
    }) + (if text::trim_of(stderr).len() > 0 {
        heading + text::last_chars(text::trim_of(stderr), most)
    } else {
        Seq::empty()
    })
}

fn hint(proxy: &Option<String>, stderr: &str, heading: &str, most: usize) -> (r: String)
    ensures
        r@ == hint_of(text::opt_text(*proxy), stderr@, heading@, most as nat),
{
    let mut r = match proxy {
        Some(p) => cat2(" proxy=", p.as_str()),
        None => String::new(),
    };
    let all = chars_of(stderr);
    let t = trim(all.as_slice());
    if t.len() > 0 {
        r.append(heading);
        r.append(take_last(t, most).as_str());
        assert(r@ =~= hint_of(text::opt_text(*proxy), stderr@, heading@, most as nat));
    } else {
        assert(r@ =~= hint_of(text::opt_text(*proxy), stderr@, heading@, most as nat));
    }
    r
}

// ── Clients ─────────────────────────────────────────────────────────────────

/// How to start a server.
#[derive(Debug)]
pub struct McpClient {
    pub server_name: String,
    pub command: String,
    pub args: Vec<String>,
    pub env: TextMap,
}

/// A process to start.
#[derive(Debug)]
pub struct Launch {
    pub command: String,
    pub args: Vec<String>,
    /// The changes to the environment that it gets.
    pub env: Vec<EnvChange>,
}

/// The changes that put a proxy, or none, into the environment of a server, whose
/// runtime has variables of its own.
pub open spec fn server_proxy_changes(url: Option<Seq<char>>) -> Seq<settings::EnvChangeView> {
    match settings::used_proxy(url) {
        Some(u) => settings::proxy_changes(url) + seq![
            settings::EnvChangeView::Assign("npm_config_proxy"@, u),
            settings::EnvChangeView::Assign("npm_config_https_proxy"@, u),
            settings::EnvChangeView::Assign("NODE_USE_ENV_PROXY"@, "1"@),
        ],
        None => settings::proxy_changes(url),
    }
}

fn server_proxy_env(proxy_url: &Option<String>) -> (r: Vec<EnvChange>)
    ensures
        settings::changes(r@) == server_proxy_changes(text::opt_text(*proxy_url)),
{
    let mut out = apply_proxy_env_tokio(proxy_url);
    if let Some(url) = effective_proxy(proxy_url) {
        out.push(EnvChange::Assign("npm_config_proxy".to_string(), url.clone()));
        out.push(EnvChange::Assign("npm_config_https_proxy".to_string(), url));
        out.push(EnvChange::Assign("NODE_USE_ENV_PROXY".to_string(), "1".to_string()));
    }
    assert(settings::changes(out@) =~= server_proxy_changes(text::opt_text(*proxy_url)));
    out
}

/// The environment of a server, from the one that it would get: with the usual
/// directories in the search path, where there is one, then with its own variables,
/// then with the proxy.
pub open spec fn server_env(
    path: Option<Seq<char>>,
    own: Map<Seq<char>, Seq<char>>,
    proxy: Option<Seq<char>>,
    env: Map<Seq<char>, Seq<char>>,
) -> Map<Seq<char>, Seq<char>> {
    settings::applied(
        server_proxy_changes(proxy),
        (match path {
            Some(p) => env.insert("PATH"@, usable_path(p)),
            None => env,
        }).union_prefer_right(own),
    )
}

/// Some variables, as changes.
pub open spec fn assignments(s: Seq<(String, String)>) -> Seq<settings::EnvChangeView> {
    s.map_values(|e: (String, String)| settings::EnvChangeView::Assign(e.0@, e.1@))
}

proof fn lemma_assignments(s: Seq<(String, String)>, env: Map<Seq<char>, Seq<char>>)
    ensures
        settings::applied(assignments(s), env) == env.union_prefer_right(text_map::map_of(s)),
    decreases s.len(),
{
    if s.len() == 0 {
        assert(env.union_prefer_right(text_map::map_of(s)) =~= env);
    } else {
        lemma_assignments(s.drop_last(), env);
        assert(assignments(s).drop_last() =~= assignments(s.drop_last()));
        assert(settings::applied(assignments(s), env) =~= env.union_prefer_right(
            text_map::map_of(s),
        ));
    }
}

impl McpClient {
    /// A server with a name and a command.
    pub fn new(server_name: &str, command: &str) -> (r: Self)
        ensures
            r.server_name@ == server_name@,
            r.command@ == command@,
            r.args@ == Seq::<String>::empty(),
            r.env@ == Map::<Seq<char>, Seq<char>>::empty(),
    {
        McpClient {
            server_name: server_name.to_string(),
            command: command.to_string(),
            args: Vec::new(),
            env: TextMap::new(),
        }
    }

    /// Sets the arguments of the command.
    pub fn with_args(self, args: Vec<String>) -> (r: Self)
        ensures
            r == (McpClient { args, ..self }),
    {
        McpClient { args, ..self }
    }

    /// Sets a variable of the environment.
    pub fn with_env(self, key: &str, value: &str) -> (r: Self)
        ensures
            r.server_name == self.server_name,
            r.command == self.command,
            r.args == self.args,
            r.env@ == self.env@.insert(key@, value@),
    {
        let mut env = self.env;
        env.insert(key.to_string(), value.to_string());
        McpClient { server_name: self.server_name, command: self.command, args: self.args, env }
    }

    /// Sets the environment as a whole.
    pub fn with_env_map(self, env: TextMap) -> (r: Self)
        ensures
            r == (McpClient { env, ..self }),
    {
        McpClient { env, ..self }
    }

    /// The process of the server, given the search path for programs and the proxy.
    pub fn connect_with_proxy(&self, path: &Option<String>, proxy_url: &Option<String>) -> (r:
        Launch)
        ensures
            r.command@ == self.command@,
            text::texts(r.args@) == text::texts(self.args@),
            forall|env: Map<Seq<char>, Seq<char>>|
                #[trigger] settings::applied(settings::changes(r.env@), env) == server_env(
                    text::opt_text(*path),
                    self.env@,
                    text::opt_text(*proxy_url),
                    env,
                ),
    {
        let mut out: Vec<EnvChange> = Vec::new();
        if let Some(p) = path {
            out.push(EnvChange::Assign("PATH".to_string(), extend_path(p.as_str())));
        }
        let ghost first = settings::changes(out@);
        let own = self.env.entries();
        let ghost all = assignments(own@);
        let n: usize = own.len();
        assert(first + all.take(0) =~= first);
        for i in 0..n
            invariant
                n == own@.len(),
                all == assignments(own@),
                settings::changes(out@) == first + all.take(i as int),
        {
            let ghost before = out@;
            let c = EnvChange::Assign(own[i].0.clone(), own[i].1.clone());
            out.push(c);
            assert(c@ == all[i as int]);
            assert(settings::changes(out@) =~= settings::changes(before).push(c@));
            assert(first + all.take(i + 1) =~= (first + all.take(i as int)).push(all[i as int]));
        }
        assert(all.take(n as int) =~= all);
        let mut last = server_proxy_env(proxy_url);
        let ghost a = out@;
        let ghost b = last@;
        out.append(&mut last);
        proof {
            assert(settings::changes(out@) =~= settings::changes(a) + settings::changes(b));
            assert forall|env: Map<Seq<char>, Seq<char>>|
                #[trigger] settings::applied(settings::changes(out@), env) == server_env(
                    text::opt_text(*path),
                    self.env@,
                    text::opt_text(*proxy_url),
                    env,
                ) by {
                settings::lemma_applied_in_parts(first + all, settings::changes(b), env);
                settings::lemma_applied_in_parts(first, all, env);
                let start = settings::applied(first, env);
                lemma_assignments(own@, start);
                assert(start == (match text::opt_text(*path) {
                    Some(p) => env.insert("PATH"@, usable_path(p)),
                    None => env,
                })) by {
                    reveal_with_fuel(settings::applied, 2);
                    if *path is Some {
                        assert(first.drop_last() =~= Seq::empty());
                    }
                }
            }
        }
        Launch { command: self.command.clone(), args: copy_texts(&self.args), env: out }
    }

    /// [`McpClient::connect_with_proxy`] without a proxy.
    pub fn connect(&self, path: &Option<String>) -> (r: Launch)
        ensures
            r.command@ == self.command@,
            text::texts(r.args@) == text::texts(self.args@),
            forall|env: Map<Seq<char>, Seq<char>>|
                #[trigger] settings::applied(settings::changes(r.env@), env) == server_env(
                    text::opt_text(*path),
                    self.env@,
                    None,
                    env,
                ),
    {
        self.connect_with_proxy(path, &None)
    }

    /// What is said where the command could not be started.
    pub fn spawn_failed(&self, error: &str) -> (r: String)
        ensures
            r@ == "无法启动 MCP 命令 `"@ + self.command@ + " "@ + text::joined(
                text::texts(self.args@),
                " "@,
            ) + "`: "@ + error@ + "（请确认 PATH 中有 npx/node）"@,
    {
        cat3("无法启动 MCP 命令 `", self.command.as_str(), " ").concat(
            join(&self.args, " ").as_str(),
        ).concat("`: ").concat(error).concat("（请确认 PATH 中有 npx/node）")
    }
}

// ── Requests ────────────────────────────────────────────────────────────────

/// A request on one line: its number, its method in quotes and its parameters as
/// JSON text.
pub open spec fn request_line(id: u64, method: Seq<char>, params: Option<Seq<char>>) -> Seq<char> {
    "{\"jsonrpc\":\"2.0\",\"id\":"@ + text::dec(id as nat) + ",\"method\":"@ + json::quoted(method)
        + (match params {
        Some(p) => ",\"params\":"@ + p,
        None => Seq::empty(),
    }) + "}"@
}

/// A notification on one line; without parameters it has an empty object.
pub open spec fn notification_line(method: Seq<char>, params: Option<Seq<char>>) -> Seq<char> {
    "{\"jsonrpc\":\"2.0\",\"method\":"@ + json::quoted(method) + ",\"params\":"@ + (match params {
        Some(p) => p,
        None => "{}"@,
    }) + "}"@
}

/// What the first request says of this program.
pub const INITIALIZE_PARAMS: &'static str = "{\"capabilities\":{\"tools\":{}},\"clientInfo\":{\"name\":\"dscode\",\"version\":\"0.1.0\"},\"protocolVersion\":\"2024-11-05\"}";

/// A request, as JSON text.
pub fn request_json(id: u64, method: &str, params: &Option<String>) -> (r: String)
    ensures
        r@ == request_line(id, method@, text::opt_text(*params)),
{
    let mut r = cat3(
        "{\"jsonrpc\":\"2.0\",\"id\":",
        decimal(id).as_str(),
        ",\"method\":",
    ).concat(json_string(method).as_str());
    if let Some(p) = params {
        r.append(",\"params\":");
        r.append(p.as_str());
    }
    r.append("}");
    assert(r@ =~= request_line(id, method@, text::opt_text(*params)));
    r
}

/// A notification, as JSON text.
pub fn notification_json(method: &str, params: &Option<String>) -> (r: String)
    ensures
        r@ == notification_line(method@, text::opt_text(*params)),
{
    let p: &str = match params {
        Some(p) => p.as_str(),
        None => "{}",
    };
    cat3("{\"jsonrpc\":\"2.0\",\"method\":", json_string(method).as_str(), ",\"params\":").concat(
        p,
    ).concat("}")
}

/// A message as it is written: on a line of its own.
pub fn framed(json: &str) -> (r: String)
    ensures
        r@ == json@ + "\n"@,
{
    cat2(json, "\n")
}

/// A request to send, and how many seconds it may take.
#[derive(Debug)]
pub struct McpRequest {
    pub id: u64,
    pub method: String,
    /// The request as JSON text.
    pub text: String,
    pub timeout_secs: u64,
}

/// A request to send, as a value.
#[verifier::ext_equal]
pub struct RequestView {
    pub id: u64,
    pub method: Seq<char>,
    pub text: Seq<char>,
    pub timeout_secs: u64,
}

impl View for McpRequest {
    type V = RequestView;

    open spec fn view(&self) -> RequestView {
        RequestView {
            id: self.id,
            method: self.method@,
            text: self.text@,
            timeout_secs: self.timeout_secs,
        }
    }
}

/// A connection to a server, without its pipes.
#[derive(Debug)]
pub struct McpConnection {
    pub server_name: String,
    pub proxy_used: Option<String>,
    /// The number of the next request.
    pub next_id: u64,
    /// The seconds that a tool may take.
    pub tool_call_timeout: u64,
}

impl McpConnection {

    /// A new connection; its requests are numbered from one on.
    pub fn new(server_name: &str, proxy_used: Option<String>, tool_call_timeout: u64) -> (r: Self)
        ensures
            r.server_name@ == server_name@,
            r.proxy_used == proxy_used,
            r.next_id == 1,
            r.tool_call_timeout == tool_call_timeout,
    {
        McpConnection {
            server_name: server_name.to_string(),
            proxy_used,
            next_id: 1,
            tool_call_timeout,
        }
    }

    /// The seconds that a tool may take.
    pub fn tool_call_timeout(&self) -> (r: u64)
        ensures
            r == self.tool_call_timeout,
    {
        self.tool_call_timeout
    }

    /// Sets the seconds that a tool may take.
    pub fn set_tool_call_timeout(&mut self, secs: u64)
        ensures
            final(self).tool_call_timeout == secs,
            final(self).next_id == old(self).next_id,
            final(self).server_name == old(self).server_name,
            final(self).proxy_used == old(self).proxy_used,
    {
        self.tool_call_timeout = secs;
    }

    /// A request with the next number.
    pub fn send_request_timeout(
        &mut self,
        method: &str,
        params: &Option<String>,
        timeout_secs: u64,
    ) -> (r: McpRequest)
        requires
            old(self).next_id < u64::MAX,
        ensures
            r@ == (RequestView {
                id: old(self).next_id,
                method: method@,
                text: request_line(old(self).next_id, method@, text::opt_text(*params)),
                timeout_secs,
            }),
            final(self).next_id == old(self).next_id + 1,
            final(self).tool_call_timeout == old(self).tool_call_timeout,
            final(self).server_name == old(self).server_name,
            final(self).proxy_used == old(self).proxy_used,
    {
        let id: u64 = self.next_id;
        self.next_id = id + 1;
        McpRequest {
            id,
            method: method.to_string(),
            text: request_json(id, method, params),
            timeout_secs,
        }
    }

    /// The first request.
    pub fn initialize(&mut self) -> (r: McpRequest)
        requires
            old(self).next_id < u64::MAX,
        ensures
            r@ == (RequestView {
                id: old(self).next_id,
                method: "initialize"@,
                text: request_line(old(self).next_id, "initialize"@, Some(INITIALIZE_PARAMS@)),
                timeout_secs: INITIALIZE_TIMEOUT_SECS,
            }),
            final(self).next_id == old(self).next_id + 1,
            final(self).tool_call_timeout == old(self).tool_call_timeout,
    {
        self.send_request_timeout(
            "initialize",
            &Some(INITIALIZE_PARAMS.to_string()),
            INITIALIZE_TIMEOUT_SECS,
        )
    }

    /// A request for the tools of the server.
    pub fn list_tools(&mut self) -> (r: McpRequest)
        requires
            old(self).next_id < u64::MAX,
        ensures
            r@ == (RequestView {
                id: old(self).next_id,
                method: "tools/list"@,
                text: request_line(old(self).next_id, "tools/list"@, Some("{}"@)),
                timeout_secs: REQUEST_TIMEOUT_SECS,
            }),
            final(self).next_id == old(self).next_id + 1,
            final(self).tool_call_timeout == old(self).tool_call_timeout,
    {
        self.send_request_timeout("tools/list", &Some("{}".to_string()), REQUEST_TIMEOUT_SECS)
    }

    /// A request to run a tool with arguments that are given as JSON text.
    pub fn call_tool(&mut self, name: &str, arguments: &str) -> (r: McpRequest)
        requires
            old(self).next_id < u64::MAX,
        ensures
            r@ == (RequestView {
                id: old(self).next_id,
                method: "tools/call"@,
                text: request_line(
                    old(self).next_id,
                    "tools/call"@,
                    Some("{\"arguments\":"@ + arguments@ + ",\"name\":"@ + json::quoted(name@) + "}"@),
                ),
                timeout_secs: old(self).tool_call_timeout,
            }),
            final(self).next_id == old(self).next_id + 1,
            final(self).tool_call_timeout == old(self).tool_call_timeout,
    {
        let params = cat3("{\"arguments\":", arguments, ",\"name\":").concat(
            json_string(name).as_str(),
        ).concat("}");
        let secs: u64 = self.tool_call_timeout;
        self.send_request_timeout("tools/call", &Some(params), secs)
    }

    /// What may help with an error while the connection is set up, given what the
    /// server wrote to its error output.
    pub fn error_hint(&self, stderr: &str) -> (r: String)
        ensures
            r@ == hint_of(text::opt_text(self.proxy_used), stderr@, " stderr: "@, 600),
    {
        hint(&self.proxy_used, stderr, " stderr: ", 600)
    }

    /// What may help with an error of a request, given what the server wrote to its
    /// error output.
    pub fn request_hint(&self, stderr: &str) -> (r: String)
        ensures
            r@ == hint_of(
                text::opt_text(self.proxy_used),
                stderr@,
                "\n--- MCP stderr ---\n"@,
                800,
            ),
    {
        hint(&self.proxy_used, stderr, "\n--- MCP stderr ---\n", 800)
    }
}

/// An error with what may help behind it.
pub fn with_hint(error: &McpError, hint: &str) -> (r: McpError)
    ensures
        r@ == McpErrorView::Protocol(McpError::told(error@) + hint@),
{
    McpError::Protocol(error.describe().concat(hint))
}

/// What became of the first request.
#[derive(Debug)]
pub enum Handshake {
    Answered,
    Failed(McpError),
    TimedOut,
}

impl McpConnection {
    /// Goes on after the first request: with the notification that ends the
    /// handshake, or with the error.
    pub fn on_initialized(&self, handshake: Handshake, stderr: &str) -> (r: Result<
        String,
        McpError,
    >)
        ensures
            match handshake {
                Handshake::Answered => r is Ok && r->Ok_0@ == notification_line(
                    "notifications/initialized"@,
                    None,
                ),
                Handshake::Failed(e) => r is Err && r->Err_0@ == McpErrorView::Protocol(
                    McpError::told(e@) + hint_of(
                        text::opt_text(self.proxy_used),
                        stderr@,
                        " stderr: "@,
                        600,
                    ),
                ),
                Handshake::TimedOut => r is Err && r->Err_0@ == McpErrorView::Protocol(
                    "initialize 超时（120s）。npx 首次下载或代理不通时常见。"@ + hint_of(
                        text::opt_text(self.proxy_used),
                        stderr@,
                        " stderr: "@,
                        600,
                    ),
                ),
            },
    {
        match handshake {
            Handshake::Answered => Ok(notification_json("notifications/initialized", &None)),
            Handshake::Failed(e) => Err(with_hint(&e, self.error_hint(stderr).as_str())),
            Handshake::TimedOut => Err(
                initialize_timed_out(self.error_hint(stderr).as_str()),
            ),
        }
    }

    /// What is said where the notification that ends the handshake could not be
    /// sent.
    pub fn notify_failed(&self, error: &McpError, stderr: &str) -> (r: McpError)
        ensures
            r@ == McpErrorView::Protocol(
                "notifications/initialized failed: "@ + McpError::told(error@) + hint_of(
                    text::opt_text(self.proxy_used),
                    stderr@,
                    " stderr: "@,
                    600,
                ),
            ),
    {
        McpError::Protocol(
            cat3(
                "notifications/initialized failed: ",
                error.describe().as_str(),
                self.error_hint(stderr).as_str(),
            ),
        )
    }
}

/// What is said where the first request took too long.
pub fn initialize_timed_out(hint: &str) -> (r: McpError)
    ensures
        r@ == McpErrorView::Protocol(
            "initialize 超时（120s）。npx 首次下载或代理不通时常见。"@ + hint@,
        ),
{
    McpError::Protocol(cat2("initialize 超时（120s）。npx 首次下载或代理不通时常见。", hint))
}

/// What is said where a request took too long.
pub fn request_timed_out(method: &str, id: u64, hint: &str) -> (r: McpError)
    ensures
        r@ == McpErrorView::Protocol(
            "Timeout waiting for MCP response to `"@ + method@ + "` (id="@ + text::dec(id as nat)
                + ")"@ + hint@,
        ),
{
    McpError::Protocol(
        cat3("Timeout waiting for MCP response to `", method, "` (id=").concat(
            decimal(id).as_str(),
        ).concat(")").concat(hint),
    )
}

/// What is said where a server has ended.
pub fn server_exited(server_name: &str, status: &str, hint: &str) -> (r: McpError)
    ensures
        r@ == McpErrorView::ProcessExited(
            "MCP server '"@ + server_name@ + "' exited with "@ + status@ + hint@,
        ),
{
    McpError::ProcessExited(
        cat3("MCP server '", server_name, "' exited with ").concat(status).concat(hint),
    )
}

// ── Messages ────────────────────────────────────────────────────────────────

/// What a line of a server's output means.
#[derive(Debug, PartialEq, Eq)]
pub enum LineStep {
    /// Nothing: read another line.
    Again,
    /// A message.
    Message(String),
    /// A header: read lines up to a blank one, then so many bytes.
    Body(usize),
    /// The output is not to be understood. What may help is put behind this, where
    /// the flag says so.
    Failed(String, bool),
}

/// What a line means, as a value.
#[verifier::ext_equal]
pub enum LineStepView {
    Again,
    Message(Seq<char>),
    Body(usize),
    Failed(Seq<char>, bool),
}

impl View for LineStep {
    type V = LineStepView;

    open spec fn view(&self) -> LineStepView {
        match self {
            LineStep::Again => LineStepView::Again,
            LineStep::Message(s) => LineStepView::Message(s@),
            LineStep::Body(n) => LineStepView::Body(*n),
            LineStep::Failed(s, b) => LineStepView::Failed(s@, *b),
        }
    }
}

/// Byte order marks.
pub open spec fn mark() -> spec_fn(char) -> bool {
    |c: char| c == '\u{feff}'
}

fn is_mark(c: char) -> (b: bool)
    ensures
        b == mark()(c),
{
    c == '\u{feff}'
}

/// A line without whitespace around it and marks at its start.
pub open spec fn bare_line(line: Seq<char>) -> Seq<char> {
    text::skipped(text::trim_of(line), mark())
}

/// The length that a header gives, as text.
pub open spec fn length_text(line: Seq<char>) -> Seq<char> {
    let parts = text::parts_of(line, colon());
    if parts.len() >= 2 {
        text::trim_of(parts[1])
    } else {
        Seq::empty()
    }
}

/// What a line of `total` bytes means after `skipped` lines that meant nothing, and
/// how many such lines there are then.
pub open spec fn line_meaning(line: Seq<char>, total: usize, skipped: u32) -> (LineStepView, u32) {
    let t = bare_line(line);
    if total > MAX_MCP_MESSAGE_BYTES {
        (
            LineStepView::Failed(
                "MCP message exceeded 16777216 bytes without a newline; refusing to buffer more (server may be stuck)"@,
                true,
            ),
            skipped,
        )
    } else if t.len() == 0 {
        (LineStepView::Again, skipped)
    } else if t[0] == '{' {
        (LineStepView::Message(t), skipped)
    } else if text::starts(text::ascii_lowered(t), "content-length:"@) {
        match text::usize_of(text::number_of(length_text(t))) {
            Some(n) => if n > MAX_MCP_MESSAGE_BYTES {
                (
                    LineStepView::Failed(
                        "Content-Length "@ + text::dec(n as nat)
                            + " exceeds the 16777216-byte limit"@,
                        false,
                    ),
                    skipped,
                )
            } else {
                (LineStepView::Body(n), skipped)
            },
            None => (
                LineStepView::Failed("Invalid Content-Length: "@ + length_text(t), false),
                skipped,
            ),
        }
    } else if skipped >= MAX_SKIPPED_LINES {
        (
            LineStepView::Failed(
                "Expected JSON-RPC line after "@ + text::dec((skipped + 1) as nat)
                    + " lines; last="@ + t,
                true,
            ),
            (skipped + 1) as u32,
        )
    } else {
        (LineStepView::Again, (skipped + 1) as u32)
    }
}

/// Reads messages out of the lines of a server's output.
#[derive(Debug)]
pub struct MessageReader {
    skipped: u32,
}

impl MessageReader {
    /// How many lines meant nothing.
    pub closed spec fn passed_over(&self) -> u32 {
        self.skipped
    }

    /// A reader for one message.
    pub fn new() -> (r: Self)
        ensures
            r.passed_over() == 0,
    {
        MessageReader { skipped: 0 }
    }

    /// Says what a line of `total` bytes means.
    pub fn on_line(&mut self, line: &str, total: usize) -> (r: LineStep)
        requires
            old(self).passed_over() < u32::MAX,
        ensures
            (r@, final(self).passed_over()) == line_meaning(
                line@,
                total,
                old(self).passed_over(),
            ),
    {
        if total > MAX_MCP_MESSAGE_BYTES {
            return LineStep::Failed(
                "MCP message exceeded 16777216 bytes without a newline; refusing to buffer more (server may be stuck)".to_string(),
                true,
            );
        }
        let all = chars_of(line);
        let t = text::skip_while(trim(all.as_slice()), is_mark, Ghost(mark()));
        if t.len() == 0 {
            return LineStep::Again;
        }
        if t[0] == '{' {
            return LineStep::Message(text_of(t));
        }
        let told = text_of(t);
        let low = text::ascii_lowercase(told.as_str());
        if str_starts_with(low.as_str(), "content-length:") {
            let parts = split(t, is_colon, Ghost(colon()));
            let ghost pv = text::char_views(parts@);
            let length: Vec<char> = if parts.len() >= 2 {
                let p = trim(parts[1].as_slice());
                text::copy_range(p, 0, p.len())
            } else {
                Vec::new()
            };
            proof {
                if parts@.len() >= 2 {
                    assert(pv[1] == parts@[1]@);
                    let p = text::trim_of(pv[1]);
                    assert(p.subrange(0, p.len() as int) =~= p);
                }
                assert(length@ =~= length_text(t@));
            }
            return match read_number(length.as_slice()) {
                Some(n) => if n > MAX_MCP_MESSAGE_BYTES {
                    LineStep::Failed(
                        cat3(
                            "Content-Length ",
                            decimal(n as u64).as_str(),
                            " exceeds the 16777216-byte limit",
                        ),
                        false,
                    )
                } else {
                    LineStep::Body(n)
                },
                None => LineStep::Failed(
                    cat2("Invalid Content-Length: ", text_of(length.as_slice()).as_str()),
                    false,
                ),
            };
        }
        self.skipped = self.skipped + 1;
        if self.skipped > MAX_SKIPPED_LINES {
            return LineStep::Failed(
                cat3(
                    "Expected JSON-RPC line after ",
                    decimal(self.skipped as u64).as_str(),
                    " lines; last=",
                ).concat(told.as_str()),
                true,
            );
        }
        LineStep::Again
    }
}

/// Whether a byte is ASCII whitespace.
pub open spec fn is_blank_byte(b: u8) -> bool {
    b == 32 || b == 9 || b == 10 || b == 12 || b == 13
}

/// Whether a line of a header, of `total` bytes, ends it.
pub fn header_ends(line: &[u8], total: usize) -> (b: bool)
    ensures
        b == (total == 0 || forall|i: int|
            0 <= i < line@.len() ==> is_blank_byte(#[trigger] line@[i])),
{
    if total == 0 {
        return true;
    }
    let n: usize = line.len();
    for i in 0..n
        invariant
            n == line@.len(),
            total != 0,
            forall|k: int| 0 <= k < i ==> is_blank_byte(#[trigger] line@[k]),
    {
        let c: u8 = line[i];
        if !(c == 32 || c == 9 || c == 10 || c == 12 || c == 13) {
            assert(!is_blank_byte(line@[i as int]));
            return false;
        }
    }
    true
}

// ── Replies ─────────────────────────────────────────────────────────────────

/// The number of a message.
#[derive(Debug, PartialEq, Eq)]
pub enum ReplyId {
    /// None, or `null`.
    Missing,
    /// A whole number within the range of an `i64`.
    Int(i64),
    /// A whole number above that range.
    Big(u64),
    /// A text.
    Text(String),
    /// Anything else.
    Other,
}

/// An error of a server.
#[derive(Debug)]
pub struct JsonRpcError {
    pub code: i64,
    pub message: String,
    /// More about it as JSON text; none where it is `null`.
    pub data: Option<String>,
}

/// What is said of an error of a server.
pub open spec fn rendered(message: Seq<char>, data: Option<Seq<char>>) -> Seq<char> {
    match data {
        Some(d) => message + " — data: "@ + d,
        None => message,
    }
}

impl JsonRpcError {
    /// What is said of the error, with the data that came with it.
    pub fn render(&self) -> (r: String)
        ensures
            r@ == rendered(self.message@, text::opt_text(self.data)),
    {
        match &self.data {
            Some(d) => cat3(self.message.as_str(), " — data: ", d.as_str()),
            None => self.message.clone(),
        }
    }
}

/// A message of a server.
#[derive(Debug)]
pub struct JsonRpcResponse {
    pub id: ReplyId,
    /// The result as JSON text.
    pub result: Option<String>,
    pub error: Option<JsonRpcError>,
    pub method: Option<String>,
}

/// What a message means for a request.
#[derive(Debug)]
pub enum ReplyStep {
    /// Nothing: wait for another.
    Wait,
    /// The result, as JSON text.
    Done(String),
    /// An error. What may help is put behind the message.
    Failed { code: i64, message: String },
}

/// What a message means, as a value.
#[verifier::ext_equal]
pub enum ReplyStepView {
    Wait,
    Done(Seq<char>),
    Failed { code: i64, message: Seq<char> },
}

impl View for ReplyStep {
    type V = ReplyStepView;

    open spec fn view(&self) -> ReplyStepView {
        match self {
            ReplyStep::Wait => ReplyStepView::Wait,
            ReplyStep::Done(s) => ReplyStepView::Done(s@),
            ReplyStep::Failed { code, message } => ReplyStepView::Failed {
                code: *code,
                message: message@,
            },
        }
    }
}

/// Whether the number of a message is that of a request: as a number, signed or not,
/// or as text.
pub open spec fn is_id(id: ReplyId, sent: u64) -> bool {
    match id {
        ReplyId::Int(n) => n == sent || n == sent - 0x1_0000_0000_0000_0000,
        ReplyId::Big(n) => n == sent,
        ReplyId::Text(s) => s@ == text::dec(sent as nat),
        _ => false,
    }
}

/// What a message means for the request with this number.
pub open spec fn reply_meaning(r: JsonRpcResponse, sent: u64, hint: Seq<char>) -> ReplyStepView {
    if r.method is Some && r.result is None && r.error is None {
        ReplyStepView::Wait
    } else if r.id is Missing {
        match r.error {
            Some(e) => ReplyStepView::Failed {
                code: e.code,
                message: "[response with id=null] "@ + rendered(
                    e.message@,
                    text::opt_text(e.data),
                ) + hint,
            },
            None => ReplyStepView::Wait,
        }
    } else if !is_id(r.id, sent) {
        ReplyStepView::Wait
    } else {
        match r.error {
            Some(e) => ReplyStepView::Failed {
                code: e.code,
                message: rendered(e.message@, text::opt_text(e.data)) + hint,
            },
            None => match r.result {
                Some(s) => ReplyStepView::Done(s@),
                None => ReplyStepView::Wait,
            },
        }
    }
}

fn same_id(id: &ReplyId, sent: u64) -> (b: bool)
    ensures
        b == is_id(*id, sent),
{
    match id {
        ReplyId::Int(n) => {
            let signed: i128 = *n as i128;
            let unsigned: i128 = sent as i128;
            signed == unsigned || signed == unsigned - 0x1_0000_0000_0000_0000
        },
        ReplyId::Big(n) => *n == sent,
        ReplyId::Text(s) => same(s.as_str(), decimal(sent).as_str()),
        _ => false,
    }
}

/// Says what a message means for the request with this number. Requests and
/// notifications of the server, and replies to other requests, mean nothing; an error
/// without a number can only be about this one. What may help stands behind an error.
pub fn on_reply(r: JsonRpcResponse, sent: u64, hint: &str) -> (step: ReplyStep)
    ensures
        step@ == reply_meaning(r, sent, hint@),
{
    if r.method.is_some() && r.result.is_none() && r.error.is_none() {
        return ReplyStep::Wait;
    }
    if let ReplyId::Missing = r.id {
        return match &r.error {
            Some(e) => ReplyStep::Failed {
                code: e.code,
                message: cat3("[response with id=null] ", e.render().as_str(), hint),
            },
            None => ReplyStep::Wait,
        };
    }
    if !same_id(&r.id, sent) {
        return ReplyStep::Wait;
    }
    if let Some(e) = &r.error {
        return ReplyStep::Failed { code: e.code, message: cat2(e.render().as_str(), hint) };
    }
    match r.result {
        Some(s) => ReplyStep::Done(s),
        None => ReplyStep::Wait,
    }
}

/// Only a reply with the number of a request gives it a result, and an error is not
/// waited out: where the number is missing or that of the request, it ends the wait.
pub proof fn law_replies_go_to_their_request(r: JsonRpcResponse, sent: u64, hint: Seq<char>)
    ensures
        reply_meaning(r, sent, hint) is Done ==> is_id(r.id, sent) && r.error is None,
        r.error is Some && (r.id is Missing || is_id(r.id, sent)) ==> reply_meaning(
            r,
            sent,
            hint,
        ) is Failed,
{
}

// ── More laws ───────────────────────────────────────────────────────────────

/// A line that holds a message is handed over as that message, whole: without the
/// whitespace around it, and without a byte order mark before it.
pub proof fn law_message_is_handed_over(
    a: Seq<char>,
    body: Seq<char>,
    b: Seq<char>,
    total: usize,
    skipped: u32,
)
    requires
        text::is_blank(a),
        text::is_blank(b),
        body.len() > 0,
        body[0] == '{',
        text::is_tight(body),
        total <= MAX_MCP_MESSAGE_BYTES,
    ensures
        line_meaning(a + body + b, total, skipped) == (LineStepView::Message(body), skipped),
        line_meaning(a + (seq!['\u{feff}'] + body) + b, total, skipped) == (
            LineStepView::Message(body),
            skipped,
        ),
{
    text::law_trim_takes_whitespace(a, body, b);
    let m = seq!['\u{feff}'] + body;
    assert(m[0] == '\u{feff}');
    assert(m.last() == body.last());
    text::law_trim_takes_whitespace(a, m, b);
    assert(m.drop_first() =~= body);
    assert(mark()(m[0]));
    assert(!mark()(body[0]));
    assert(text::skipped(body, mark()) == body);
    assert(text::skipped(m, mark()) == body);
}

/// A header that gives the length of a message, in any case, is read as that length, up to
/// the largest that is taken.
#[verifier::rlimit(40)]
pub proof fn law_length_is_read(header: Seq<char>, n: usize, total: usize, skipped: u32)
    requires
        text::ascii_lowered(header) == "content-length:"@,
        total <= MAX_MCP_MESSAGE_BYTES,
    ensures
        n <= MAX_MCP_MESSAGE_BYTES ==> line_meaning(
            header + " "@ + text::dec(n as nat),
            total,
            skipped,
        ) == (LineStepView::Body(n), skipped),
        n > MAX_MCP_MESSAGE_BYTES ==> line_meaning(
            header + " "@ + text::dec(n as nat),
            total,
            skipped,
        ).0 is Failed,
{
    let none = Seq::<char>::empty();
    let d = text::dec(n as nat);
    let line = header + " "@ + d;
    let low = text::ascii_lowered(header);
    reveal_strlit("content-length:");
    reveal_strlit(" ");
    text::law_number_reads_back(n as nat);
    assert(low.len() == header.len());
    assert forall|i: int| 0 <= i < header.len() implies low[i] == text::ascii_lower(
        #[trigger] header[i],
    ) by {}
    assert(text::is_digit(d[0]));
    assert(text::is_digit(d[d.len() - 1]));
    assert(low[0] == 'c');
    assert(header[0] == 'c' || header[0] == 'C');
    assert(line[0] == header[0]);
    assert(line.last() == d.last());
    text::law_trim_takes_whitespace(none, line, none);
    assert(none + line + none =~= line);
    assert(!mark()(line[0]));
    assert(text::skipped(line, mark()) == line);
    assert(bare_line(line) == line);
    assert(text::ascii_lowered(line).subrange(0, 15) =~= low);
    assert(text::starts(text::ascii_lowered(line), "content-length:"@));
    let x = header.take(14);
    let y = seq![' '] + d;
    let words = seq![x, y];
    assert(low[14] == ':');
    assert(header[14] == ':');
    assert(text::joined(words, seq![':']) =~= line) by {
        assert(words.drop_last() =~= seq![x]);
        assert(text::joined(seq![x], seq![':']) == x);
        assert(header =~= x + seq![':']);
        assert(text::joined(words, seq![':']) =~= x + seq![':'] + y);
    }
    assert forall|i: int, k: int| 0 <= i < words.len() && 0 <= k < words[i].len() implies !colon()(
        #[trigger] words[i][k],
    ) by {
        if i == 0 {
            assert(words[0][k] == header[k]);
            assert(low[k] == text::ascii_lower(header[k]));
            assert(low[k] != ':');
        } else {
            if k > 0 {
                assert(words[1][k] == d[k - 1]);
                assert(text::is_digit(d[k - 1]));
            }
        }
    }
    text::law_parts_read_back(words, ':', colon());
    assert(text::is_blank(seq![' ']));
    assert(y =~= seq![' '] + d + none);
    text::law_trim_takes_whitespace(seq![' '], d, none);
    assert(length_text(line) == d);
}

/// A reply with the id of the request and a result is the result of the request, as it
/// stands; one with another id leaves the request waiting.
pub proof fn law_result_is_handed_over(r: JsonRpcResponse, sent: u64, hint: Seq<char>)
    ensures
        r.error is None && r.result is Some && (r.id == ReplyId::Int(sent as i64) && sent
            <= i64::MAX || (r.id matches ReplyId::Text(s) && s@ == text::dec(sent as nat)))
            ==> reply_meaning(r, sent, hint) == ReplyStepView::Done((r.result->0)@),
        (r.id matches ReplyId::Int(n) && n >= 0 && n != sent) ==> reply_meaning(r, sent, hint)
            == ReplyStepView::Wait,
        (r.id matches ReplyId::Text(s) && s@ != text::dec(sent as nat)) ==> reply_meaning(
            r,
            sent,
            hint,
        ) == ReplyStepView::Wait,
        r.method is Some && r.result is None && r.error is None ==> reply_meaning(r, sent, hint)
            == ReplyStepView::Wait,
{
}

/// An error of the server is told with what it says, whole, and with its code.
pub proof fn law_error_is_told(r: JsonRpcResponse, sent: u64, hint: Seq<char>)
    requires
        r.error is Some,
        r.id == ReplyId::Int(sent as i64),
        sent <= i64::MAX,
    ensures
        reply_meaning(r, sent, hint) matches ReplyStepView::Failed { code, message } && code
            == (r.error->0).code && text::starts(message, (r.error->0).message@) && text::ends(
            message,
            hint,
        ),
{
    let none = Seq::<char>::empty();
    let e = r.error->0;
    let m = e.message@;
    let d = match text::opt_text(e.data) {
        Some(x) => " — data: "@ + x,
        None => none,
    };
    let all = rendered(m, text::opt_text(e.data)) + hint;
    assert(all =~= m + d + hint);
    text::lemma_part_at(none, m, d + hint);
    assert(none + m + (d + hint) =~= all);
    text::lemma_part_at(m + d, hint, none);
    assert(m + d + hint + none =~= all);
}

/// Whether the changes leave a variable alone.
pub open spec fn leaves_alone(c: Seq<settings::EnvChangeView>, k: Seq<char>) -> bool {
    forall|i: int|
        0 <= i < c.len() ==> match #[trigger] c[i] {
            settings::EnvChangeView::Assign(name, _) => name != k,
            settings::EnvChangeView::Remove(name) => name != k,
        }
}

proof fn lemma_left_alone(
    c: Seq<settings::EnvChangeView>,
    env: Map<Seq<char>, Seq<char>>,
    k: Seq<char>,
)
    requires
        leaves_alone(c, k),
    ensures
        settings::applied(c, env).dom().contains(k) <==> env.dom().contains(k),
        env.dom().contains(k) ==> settings::applied(c, env)[k] == env[k],
    decreases c.len(),
{
    if c.len() > 0 {
        assert(c.last() == c[c.len() - 1]);
        assert forall|i: int| 0 <= i < c.drop_last().len() implies match #[trigger] c.drop_last()[i] {
            settings::EnvChangeView::Assign(name, _) => name != k,
            settings::EnvChangeView::Remove(name) => name != k,
        } by {
            assert(c.drop_last()[i] == c[i]);
        }
        lemma_left_alone(c.drop_last(), env, k);
    }
}

/// Apart from the proxy, a server runs in the environment that it was given: what was set
/// for it comes first, then the extended path, then what is there.
pub proof fn law_own_settings_come_first(
    path: Option<Seq<char>>,
    own: Map<Seq<char>, Seq<char>>,
    proxy: Option<Seq<char>>,
    env: Map<Seq<char>, Seq<char>>,
    k: Seq<char>,
)
    requires
        leaves_alone(server_proxy_changes(proxy), k),
    ensures
        ({
            let got = server_env(path, own, proxy, env);
            &&& own.dom().contains(k) ==> got.dom().contains(k) && got[k] == own[k]
            &&& !own.dom().contains(k) && k == "PATH"@ && path is Some ==> got.dom().contains(k)
                && got[k] == usable_path(path->0)
            &&& !own.dom().contains(k) && (k != "PATH"@ || path is None) ==> (got.dom().contains(k)
                <==> env.dom().contains(k)) && (env.dom().contains(k) ==> got[k] == env[k])
        }),
{
    let base = (match path {
        Some(p) => env.insert("PATH"@, usable_path(p)),
        None => env,
    }).union_prefer_right(own);
    lemma_left_alone(server_proxy_changes(proxy), base, k);
}

proof fn lemma_with_entry(s: Seq<Seq<char>>, e: Seq<char>)
    ensures
        s.is_prefix_of(with_entry(s, e)),
        with_entry(s, e).contains(e),
        with_entry(s, e).len() >= s.len(),
        forall|x: Seq<char>| #[trigger] with_entry(s, e).contains(x) <==> s.contains(x) || x == e,
{
    let t = with_entry(s, e);
    assert(s =~= t.subrange(0, s.len() as int));
    if !s.contains(e) {
        assert(t[s.len() as int] == e);
    }
    assert forall|x: Seq<char>| #[trigger] t.contains(x) <==> s.contains(x) || x == e by {
        if s.contains(x) {
            let i = choose|i: int| 0 <= i < s.len() && s[i] == x;
            assert(t[i] == x);
        }
        if t.contains(x) && x != e {
            let i = choose|i: int| 0 <= i < t.len() && t[i] == x;
            assert(s[i] == x);
        }
    }
}

/// An extended path keeps all its entries, in order and before all others, and has the
/// usual places besides: an entry is in it exactly where it was there, or is one of these.
#[verifier::rlimit(40)]
pub proof fn law_path_keeps_its_entries(path: Seq<char>, e: Seq<char>)
    ensures
        text::parts_of(path, colon()).is_prefix_of(text::parts_of(usable_path(path), colon())),
        text::parts_of(usable_path(path), colon()).contains(e) <==> text::parts_of(
            path,
            colon(),
        ).contains(e) || e == "/usr/local/bin"@ || e == "/opt/homebrew/bin"@ || e == "/usr/bin"@
            || e == "/bin"@,
{
    let a = text::parts_of(path, colon());
    let b = with_entry(a, "/usr/local/bin"@);
    let c = with_entry(b, "/opt/homebrew/bin"@);
    let d = with_entry(c, "/usr/bin"@);
    let z = with_entry(d, "/bin"@);
    lemma_with_entry(a, "/usr/local/bin"@);
    lemma_with_entry(b, "/opt/homebrew/bin"@);
    lemma_with_entry(c, "/usr/bin"@);
    lemma_with_entry(d, "/bin"@);
    text::lemma_parts_between(path, colon(), 0);
    assert forall|i: int, k: int| 0 <= i < z.len() && 0 <= k < z[i].len() implies !colon()(
        #[trigger] z[i][k],
    ) by {
        let x = z[i];
        assert(z.contains(x));
        reveal_strlit("/usr/local/bin");
        reveal_strlit("/opt/homebrew/bin");
        reveal_strlit("/usr/bin");
        reveal_strlit("/bin");
        if a.contains(x) {
            let j = choose|j: int| 0 <= j < a.len() && a[j] == x;
            assert(!colon()(text::parts_from(path, colon(), 0)[j][k]));
        } else {
            assert(d.contains(x) || x == "/bin"@);
            assert(c.contains(x) || x == "/usr/bin"@ || x == "/bin"@);
            assert(b.contains(x) || x == "/opt/homebrew/bin"@ || x == "/usr/bin"@ || x == "/bin"@);
        }
    }
    assert(z.contains("/bin"@));
    assert(":"@ =~= seq![':']) by {
        reveal_strlit(":");
    }
    text::law_parts_read_back(z, ':', colon());
    assert(a =~= z.subrange(0, a.len() as int)) by {
        assert(a =~= b.subrange(0, a.len() as int));
        assert(b =~= c.subrange(0, b.len() as int));
        assert(c =~= d.subrange(0, c.len() as int));
        assert(d =~= z.subrange(0, d.len() as int));
        assert forall|i: int| 0 <= i < a.len() implies a[i] == #[trigger] z[i] by {
            assert(a[i] == b[i]);
            assert(b[i] == c[i]);
            assert(c[i] == d[i]);
        }
    }
    assert(z.contains(e) <==> d.contains(e) || e == "/bin"@);
    assert(d.contains(e) <==> c.contains(e) || e == "/usr/bin"@);
    assert(c.contains(e) <==> b.contains(e) || e == "/opt/homebrew/bin"@);
    assert(b.contains(e) <==> a.contains(e) || e == "/usr/local/bin"@);
}

/// A time limit that is set is kept to; without one, or with one that is no positive
/// number, it is the usual one.
pub proof fn law_time_limit_is_kept(a: Seq<char>, n: u64, b: Seq<char>)
    requires
        text::is_blank(a),
        text::is_blank(b),
    ensures
        tool_timeout(Some(a + text::dec(n as nat) + b)) == (if n > 0 {
            n
        } else {
            DEFAULT_TOOL_CALL_TIMEOUT_SECS
        }),
        tool_timeout(None) == DEFAULT_TOOL_CALL_TIMEOUT_SECS,
{
    let d = text::dec(n as nat);
    text::law_number_reads_back(n as nat);
    assert(text::is_digit(d[0]));
    assert(text::is_digit(d[d.len() - 1]));
    text::law_trim_takes_whitespace(a, d, b);
}

/// As much of the end of a text is kept as fits: one character more would not.
pub proof fn law_kept_end_is_the_longest(s: Seq<char>, max: nat)
    ensures
        text::byte_len(s) <= max ==> end_within(s, max) == s,
        end_within(s, max).len() < s.len() ==> text::byte_len(
            s.skip(s.len() - end_within(s, max).len() - 1),
        ) > max,
    decreases s.len(),
{
    if text::byte_len(s) > max && s.len() > 0 {
        let t = s.skip(1);
        law_kept_end_is_the_longest(t, max);
        law_truncated_front_is_an_end(t, max);
        let n = end_within(t, max).len();
        if n < t.len() {
            assert(t.skip(t.len() - n - 1) =~= s.skip(s.len() - n - 1));
        } else {
            assert(s.skip(s.len() - n - 1) =~= s);
        }
    }
}

/// A request names its method and carries its parameters, whole.
pub proof fn law_request_carries_its_parameters(
    id: u64,
    method: Seq<char>,
    params: Option<Seq<char>>,
)
    ensures
        text::has_part(request_line(id, method, params), "\"id\":"@ + text::dec(id as nat)),
        text::has_part(request_line(id, method, params), "\"method\":"@ + json::quoted(method)),
        params matches Some(p) ==> text::has_part(
            request_line(id, method, params),
            "\"params\":"@ + p,
        ),
{
    let none = Seq::<char>::empty();
    let t = request_line(id, method, params);
    let a = "{\"jsonrpc\":\"2.0\","@;
    let i = "\"id\":"@ + text::dec(id as nat);
    let comma = ","@;
    let m = "\"method\":"@ + json::quoted(method);
    let p = match params {
        Some(x) => comma + ("\"params\":"@ + x),
        None => none,
    };
    let z = "}"@;
    assert("{\"jsonrpc\":\"2.0\",\"id\":"@ =~= a + "\"id\":"@) by {
        reveal_strlit("{\"jsonrpc\":\"2.0\",\"id\":");
        reveal_strlit("{\"jsonrpc\":\"2.0\",");
        reveal_strlit("\"id\":");
    }
    assert(",\"method\":"@ =~= comma + "\"method\":"@) by {
        reveal_strlit(",\"method\":");
        reveal_strlit(",");
        reveal_strlit("\"method\":");
    }
    assert(",\"params\":"@ =~= comma + "\"params\":"@) by {
        reveal_strlit(",\"params\":");
        reveal_strlit(",");
        reveal_strlit("\"params\":");
    }
    assert(t =~= a + i + comma + m + p + z);
    assert(text::has_part(t, i)) by {
        text::lemma_part_at(a, i, comma + m + p + z);
        assert(a + i + (comma + m + p + z) =~= t);
    }
    assert(text::has_part(t, m)) by {
        text::lemma_part_at(a + i + comma, m, p + z);
        assert(a + i + comma + m + (p + z) =~= t);
    }
    if let Some(x) = params {
        let q = "\"params\":"@ + x;
        text::lemma_part_at(a + i + comma + m + comma, q, z);
        assert(a + i + comma + m + comma + q + z =~= t);
    }
}

/// A line that is neither a message nor the length of one is passed over and counted, until
/// too many were; blank ones do not count.
pub proof fn law_other_lines_are_passed_over(line: Seq<char>, total: usize, skipped: u32)
    requires
        total <= MAX_MCP_MESSAGE_BYTES,
        skipped < u32::MAX,
    ensures
        text::is_blank(line) ==> line_meaning(line, total, skipped) == (LineStepView::Again, skipped),
        bare_line(line).len() > 0 && bare_line(line)[0] != '{' && !text::starts(
            text::ascii_lowered(bare_line(line)),
            "content-length:"@,
        ) ==> line_meaning(line, total, skipped).1 == skipped + 1 && (if skipped
            < MAX_SKIPPED_LINES {
            line_meaning(line, total, skipped).0 == LineStepView::Again
        } else {
            line_meaning(line, total, skipped).0 is Failed
        }),
{
    text::law_blank_is_trimmed_away(line);
    if text::is_blank(line) {
        assert(text::trim_of(line) =~= Seq::<char>::empty());
        assert(bare_line(line).len() == 0);
    }
}

} // verus!
