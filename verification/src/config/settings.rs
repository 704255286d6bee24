//! Settings.
//!
//! They are kept as TOML in the program's directory. A save is laid over the file
//! that is already there (see [`crate::config::patch`]), and the secrets of the
//! channels stay out of it (see [`crate::config::credentials`]).

use crate::config::credentials;
use crate::config::credentials::Credentials;
use crate::config::patch;
use crate::config::patch::{merge_document, parse_document, remove_path, render_document};
use crate::config::providers;
use crate::config::providers::channel_of;
use crate::extensions::paths;
use crate::extensions::paths::{copy_path, PathPart};
use crate::text;
use crate::text::{cat2, cat3, chars_of, lowercase, same, str_starts_with, trim, trimmed};
use crate::text_map::TextMap;
use vstd::prelude::*;
use vstd::string::*;

pub use crate::config::providers::{
    default_base_url, Channel, ProviderConfig, ProviderConfigs, CHANNELS,
};

verus! {

// ── Sections ────────────────────────────────────────────────────────────────

/// Outbound proxy settings.
#[derive(Debug, Clone)]
pub struct ProxyConfig {
    /// The address of the proxy; empty where none is set.
    pub url: String,
    /// Whether everything goes through the proxy.
    pub global: bool,
    /// Whether the web tools go through the proxy.
    pub web_use_proxy: bool,
}

impl Default for ProxyConfig {
    fn default() -> (r: Self)
        ensures
            r.url@ == ""@,
            !r.global,
            !r.web_use_proxy,
    {
        ProxyConfig { url: "".to_string(), global: false, web_use_proxy: false }
    }
}

/// Whether an address in lower case has a scheme that a proxy can have.
pub open spec fn is_proxy_address(lowered: Seq<char>) -> bool {
    ||| text::starts(lowered, "http://"@)
    ||| text::starts(lowered, "https://"@)
    ||| text::starts(lowered, "socks5://"@)
    ||| text::starts(lowered, "socks5h://"@)
    ||| text::starts(lowered, "socks4://"@)
}

/// Whether an address, in lower case and without white space around it, is that
/// of a proxy.
pub fn names_proxy(lowered: &str) -> (r: bool)
    ensures
        r == is_proxy_address(lowered@),
{
    str_starts_with(lowered, "http://") || str_starts_with(lowered, "https://") || str_starts_with(
        lowered,
        "socks5://",
    ) || str_starts_with(lowered, "socks5h://") || str_starts_with(lowered, "socks4://")
}

/// Whether a proxy is set and has a scheme that is supported.
pub open spec fn proxy_set(url: Seq<char>) -> bool {
    is_proxy_address(text::lowered(text::trim_of(url)))
}

impl ProxyConfig {
    /// Whether a proxy is set and has a scheme that is supported.
    pub fn is_configured(&self) -> (r: bool)
        ensures
            r == proxy_set(self.url@),
    {
        let lowered = lowercase(trimmed(self.url.as_str()).as_str());
        names_proxy(lowered.as_str())
    }
}

/// How long sessions are kept.
#[derive(Debug, Clone, Copy, PartialEq, Eq, Structural)]
pub struct SessionConfig {
    pub retention_days: u32,
}

impl Default for SessionConfig {
    fn default() -> (r: Self)
        ensures
            r == (SessionConfig { retention_days: 30 }),
    {
        SessionConfig { retention_days: 30 }
    }
}

/// What tools may do.
#[derive(Debug, Clone)]
pub struct SafetyConfig {
    pub allow_write_outside_project: bool,
    /// Patterns of commands that are always refused.
    pub blocked_commands: Vec<String>,
    /// How long a tool may run, in seconds.
    pub tool_timeout_secs: u64,
    /// Whether commands that need a confirmation run without one.
    pub absolute_trust: bool,
    /// How long a question for permission stands, in seconds.
    pub permission_timeout_secs: u64,
}

/// The commands that are refused unless the settings say otherwise.
pub open spec fn refused_at_first() -> Seq<Seq<char>> {
    seq!["rm -rf /"@, "mkfs\\."@, "dd if="@, ":(){ :|:& };:"@]
}

impl Default for SafetyConfig {
    fn default() -> (r: Self)
        ensures
            !r.allow_write_outside_project,
            text::texts(r.blocked_commands@) == refused_at_first(),
            r.tool_timeout_secs == 120,
            !r.absolute_trust,
            r.permission_timeout_secs == 120,
    {
        let mut blocked: Vec<String> = Vec::new();
        blocked.push("rm -rf /".to_string());
        blocked.push("mkfs\\.".to_string());
        blocked.push("dd if=".to_string());
        blocked.push(":(){ :|:& };:".to_string());
        assert(text::texts(blocked@) =~= refused_at_first());
        SafetyConfig {
            allow_write_outside_project: false,
            blocked_commands: blocked,
            tool_timeout_secs: 120,
            absolute_trust: false,
            permission_timeout_secs: 120,
        }
    }
}

/// How replies and images are made.
#[derive(Debug, Clone)]
pub struct GenerationConfig {
    /// How hard the model thinks: low, medium, high or max.
    pub reasoning_effort: String,
    /// The most tokens of a reply.
    pub max_tokens: u32,
    /// The temperature, in millionths.
    pub temperature: u32,
    /// Where the address of the proxy stood before it had a section of its own.
    pub proxy_url: String,
    /// Whether images may be made.
    pub image_enabled: bool,
    /// The model that makes images.
    pub image_model: String,
    /// The size of an image unless the call says otherwise.
    pub image_size: String,
    /// The channel that makes images; empty for the active one.
    pub image_provider: String,
}

impl Default for GenerationConfig {
    fn default() -> (r: Self)
        ensures
            r.reasoning_effort@ == "max"@,
            r.max_tokens == 8192,
            r.temperature == 0,
            r.proxy_url@ == ""@,
            r.image_enabled,
            r.image_model@ == "gpt-image-1"@,
            r.image_size@ == "1024x1024"@,
            r.image_provider@ == ""@,
    {
        GenerationConfig {
            reasoning_effort: "max".to_string(),
            max_tokens: 8192,
            temperature: 0,
            proxy_url: "".to_string(),
            image_enabled: true,
            image_model: "gpt-image-1".to_string(),
            image_size: "1024x1024".to_string(),
            image_provider: "".to_string(),
        }
    }
}

/// Context window settings.
#[derive(Debug, Clone, Copy, PartialEq, Eq, Structural)]
pub struct ContextConfig {
    /// Total context window size in tokens.
    pub window_tokens: u64,
    /// Share of the window that may be used before compression starts, in
    /// millionths.
    pub compress_threshold: u32,
    /// Hard cap on model turns per user message.
    pub max_agent_iterations: u32,
}

impl Default for ContextConfig {
    fn default() -> (r: Self)
        ensures
            r == (ContextConfig {
                window_tokens: 1_000_000,
                compress_threshold: 800_000,
                max_agent_iterations: 120,
            }),
    {
        ContextConfig {
            window_tokens: 1_000_000,
            compress_threshold: 800_000,
            max_agent_iterations: 120,
        }
    }
}

/// A tool server.
#[derive(Debug, Clone)]
pub struct McpServerConfig {
    pub name: String,
    pub command: String,
    pub args: Vec<String>,
    pub env: TextMap,
}

/// Tool servers and skills.
#[derive(Debug, Clone)]
pub struct ExtensionConfig {
    pub mcp_servers: Vec<McpServerConfig>,
    pub skills_dirs: Vec<String>,
    /// Whether tool servers go through the proxy.
    pub mcp_use_proxy: bool,
    /// Whether skill downloads go through the proxy.
    pub skills_use_proxy: bool,
}

impl Default for ExtensionConfig {
    fn default() -> (r: Self)
        ensures
            r.mcp_servers@.len() == 0,
            r.skills_dirs@.len() == 0,
            !r.mcp_use_proxy,
            !r.skills_use_proxy,
    {
        ExtensionConfig {
            mcp_servers: Vec::new(),
            skills_dirs: Vec::new(),
            mcp_use_proxy: false,
            skills_use_proxy: false,
        }
    }
}

/// How the agent behaves.
#[derive(Debug, Clone)]
pub struct AgentConfig {
    /// Instructions for every session; empty for none.
    pub global_prompt: String,
    /// Whether recalled notes are put into the system prompt.
    pub memory_enabled: bool,
    /// Whether the global instructions replace the system prompt.
    pub replace_system_prompt: bool,
    /// Whether a file must be read before it is edited.
    pub read_before_edit: bool,
    /// Whether a note is taken after a turn.
    pub memory_auto_ingest: bool,
    /// Where `bash.exe` is, on Windows.
    pub git_bash_path: String,
}

impl Default for AgentConfig {
    fn default() -> (r: Self)
        ensures
            r.global_prompt@ == ""@,
            !r.memory_enabled,
            !r.replace_system_prompt,
            !r.read_before_edit,
            !r.memory_auto_ingest,
            r.git_bash_path@ == ""@,
    {
        AgentConfig {
            global_prompt: "".to_string(),
            memory_enabled: false,
            replace_system_prompt: false,
            read_before_edit: false,
            memory_auto_ingest: false,
            git_bash_path: "".to_string(),
        }
    }
}

/// The system prompt: the built-in one, alone or followed by the global
/// instructions, or those instead.
pub open spec fn system_prompt(built_in: Seq<char>, global: Seq<char>, replace: bool) -> Seq<char> {
    let own = text::trim_of(global);
    if own.len() == 0 {
        built_in
    } else if replace {
        own
    } else {
        built_in + "\n\n## User global instructions\n"@ + own
    }
}

impl AgentConfig {
    /// The system prompt that is in force, given the built-in one.
    pub fn resolve_system_prompt(&self, default_prompt: &str) -> (r: String)
        ensures
            r@ == system_prompt(default_prompt@, self.global_prompt@, self.replace_system_prompt),
    {
        let own = trimmed(self.global_prompt.as_str());
        if own.as_str().is_empty() {
            return default_prompt.to_string();
        }
        if self.replace_system_prompt {
            own
        } else {
            cat3(default_prompt, "\n\n## User global instructions\n", own.as_str())
        }
    }
}

/// What can go wrong with the settings. The texts are what the file system or the
/// parsers say.
#[derive(Debug)]
pub enum ConfigError {
    NoHomeDir,
    Io(String),
    Toml(String),
    TomlSer(String),
    TomlEdit(String),
    Credentials(String),
}

/// What an error says.
pub open spec fn error_text(e: ConfigError) -> Seq<char> {
    match e {
        ConfigError::NoHomeDir => "Cannot find home directory"@,
        ConfigError::Io(s) => "IO error: "@ + s@,
        ConfigError::Toml(s) => "TOML parse error: "@ + s@,
        ConfigError::TomlSer(s) => "TOML serialize error: "@ + s@,
        ConfigError::TomlEdit(s) => "TOML edit error: "@ + s@,
        ConfigError::Credentials(s) => "credentials error: "@ + s@,
    }
}

impl ConfigError {
    /// What the error says.
    pub fn describe(&self) -> (r: String)
        ensures
            r@ == error_text(*self),
    {
        match self {
            ConfigError::NoHomeDir => "Cannot find home directory".to_string(),
            ConfigError::Io(s) => cat2("IO error: ", s.as_str()),
            ConfigError::Toml(s) => cat2("TOML parse error: ", s.as_str()),
            ConfigError::TomlSer(s) => cat2("TOML serialize error: ", s.as_str()),
            ConfigError::TomlEdit(s) => cat2("TOML edit error: ", s.as_str()),
            ConfigError::Credentials(s) => cat2("credentials error: ", s.as_str()),
        }
    }
}

// ── The settings ────────────────────────────────────────────────────────────

/// The settings.
#[derive(Debug, Clone)]
pub struct Config {
    /// The model that is used unless another is named.
    pub default_model: String,
    /// The model for simple tasks.
    pub router_model: String,
    /// The channel of the default model.
    pub active_provider: String,
    pub providers: ProviderConfigs,
    pub session: SessionConfig,
    pub safety: SafetyConfig,
    pub generation: GenerationConfig,
    pub context: ContextConfig,
    pub extensions: ExtensionConfig,
    pub proxy: ProxyConfig,
    pub agent: AgentConfig,
    /// The name of the coding agent and model family of Anthropic. Its models are
    /// named after it, and its skills are read too. Empty where it is not set.
    pub partner: String,
}

/// Whether settings are as they are at first, apart from the channels.
pub open spec fn as_at_first(r: Config) -> bool {
    &&& r.default_model@ == ""@
    &&& r.router_model@ == ""@
    &&& r.active_provider@ == "deepseek"@
    &&& r.session.retention_days == 30
    &&& text::texts(r.safety.blocked_commands@) == refused_at_first()
    &&& !r.safety.allow_write_outside_project
    &&& !r.safety.absolute_trust
    &&& r.safety.tool_timeout_secs == 120
    &&& r.safety.permission_timeout_secs == 120
    &&& r.generation.reasoning_effort@ == "max"@
    &&& r.generation.max_tokens == 8192
    &&& r.generation.temperature == 0
    &&& r.generation.proxy_url@ == ""@
    &&& r.generation.image_enabled
    &&& r.generation.image_model@ == "gpt-image-1"@
    &&& r.generation.image_size@ == "1024x1024"@
    &&& r.generation.image_provider@ == ""@
    &&& r.context.window_tokens == 1_000_000
    &&& r.context.compress_threshold == 800_000
    &&& r.context.max_agent_iterations == 120
    &&& r.extensions.mcp_servers@.len() == 0
    &&& r.extensions.skills_dirs@.len() == 0
    &&& !r.extensions.mcp_use_proxy
    &&& !r.extensions.skills_use_proxy
    &&& r.proxy.url@ == ""@
    &&& !r.proxy.global
    &&& !r.proxy.web_use_proxy
    &&& r.agent.global_prompt@ == ""@
    &&& !r.agent.memory_enabled
    &&& !r.agent.replace_system_prompt
    &&& !r.agent.read_before_edit
    &&& !r.agent.memory_auto_ingest
    &&& r.agent.git_bash_path@ == ""@
    &&& r.partner@ == ""@
}

impl Default for Config {
    fn default() -> (r: Self)
        ensures
            as_at_first(r),
            forall|c: Channel| #[trigger] r.providers.of(c)@ == providers::initial(c),
    {
        Config {
            default_model: "".to_string(),
            router_model: "".to_string(),
            active_provider: "deepseek".to_string(),
            providers: ProviderConfigs::default(),
            session: SessionConfig::default(),
            safety: SafetyConfig::default(),
            generation: GenerationConfig::default(),
            context: ContextConfig::default(),
            extensions: ExtensionConfig::default(),
            proxy: ProxyConfig::default(),
            agent: AgentConfig::default(),
            partner: "".to_string(),
        }
    }
}

// ── Which proxy is used ─────────────────────────────────────────────────────

/// The address of the proxy for something that asks for it, or does not: none
/// where no proxy is set, else the address where it is asked for or forced on
/// everything.
pub open spec fn proxy_choice(p: ProxyConfig, asked: bool) -> Option<Seq<char>> {
    if proxy_set(p.url@) && (p.global || asked) {
        Some(text::trim_of(p.url@))
    } else {
        None
    }
}

/// Whether a channel asks for the proxy. A name of no channel does not.
pub open spec fn channel_asks(p: ProviderConfigs, key: Seq<char>) -> bool {
    match providers::channel_named(key) {
        Some(c) => p.of(c).use_proxy,
        None => false,
    }
}

fn choose_proxy(p: &ProxyConfig, asked: bool) -> (r: Option<String>)
    ensures
        text::opt_text(r) == proxy_choice(*p, asked),
{
    if !p.is_configured() {
        return None;
    }
    if p.global || asked {
        Some(trimmed(p.url.as_str()))
    } else {
        None
    }
}

impl Config {
    /// Whether a proxy is set.
    pub fn proxy_is_configured(&self) -> (r: bool)
        ensures
            r == proxy_set(self.proxy.url@),
    {
        self.proxy.is_configured()
    }

    /// The proxy for a channel.
    pub fn proxy_for_provider(&self, provider_key: &str) -> (r: Option<String>)
        ensures
            text::opt_text(r) == proxy_choice(
                self.proxy,
                channel_asks(self.providers, provider_key@),
            ),
    {
        let asked = match self.providers.get(provider_key) {
            Some(p) => p.use_proxy,
            None => false,
        };
        choose_proxy(&self.proxy, asked)
    }

    /// The proxy for the channel that serves a model.
    pub fn proxy_for_model(&self, model: &str) -> (r: Option<String>)
        ensures
            text::opt_text(r) == proxy_choice(
                self.proxy,
                channel_asks(
                    self.providers,
                    route(
                        self.providers,
                        self.default_model@,
                        text::unicode_lowered(text::trim_of(self.active_provider@)),
                        self.partner@,
                        model@,
                    ),
                ),
            ),
    {
        let key = self.provider_key_for_model(model);
        self.proxy_for_provider(key.as_str())
    }

    /// The proxy for tool servers.
    pub fn proxy_for_mcp(&self) -> (r: Option<String>)
        ensures
            text::opt_text(r) == proxy_choice(self.proxy, self.extensions.mcp_use_proxy),
    {
        choose_proxy(&self.proxy, self.extensions.mcp_use_proxy)
    }

    /// The proxy for skill downloads.
    pub fn proxy_for_skills(&self) -> (r: Option<String>)
        ensures
            text::opt_text(r) == proxy_choice(self.proxy, self.extensions.skills_use_proxy),
    {
        choose_proxy(&self.proxy, self.extensions.skills_use_proxy)
    }

    /// The proxy for the web tools, where a call does not say.
    pub fn proxy_for_web(&self) -> (r: Option<String>)
        ensures
            text::opt_text(r) == proxy_choice(self.proxy, self.proxy.web_use_proxy),
    {
        choose_proxy(&self.proxy, self.proxy.web_use_proxy)
    }

    /// The address of the proxy, whoever asks for it.
    pub fn web_proxy_url_if_configured(&self) -> (r: Option<String>)
        ensures
            text::opt_text(r) == proxy_choice(self.proxy, true),
    {
        choose_proxy(&self.proxy, true)
    }
}

/// A proxy that is forced on everything is the proxy of everything, and without
/// one nothing has a proxy.
pub proof fn law_global_proxy_is_for_all(p: ProxyConfig, asked: bool)
    ensures
        p.global ==> proxy_choice(p, asked) == proxy_choice(p, true),
        !proxy_set(p.url@) ==> proxy_choice(p, asked) is None,
{
}

// ── Which channel serves a model ────────────────────────────────────────────

/// Whether a channel that is switched on lists a model.
pub open spec fn claims(p: ProviderConfigs, c: Channel, model: Seq<char>) -> bool {
    p.of(c).enabled && exists|i: int|
        0 <= i < p.of(c).model_list@.len() && #[trigger] text::trim_of(p.of(c).model_list@[i]@)
            == model
}

/// Whether a channel is the only one that claims a model.
pub open spec fn claims_alone(p: ProviderConfigs, c: Channel, model: Seq<char>) -> bool {
    claims(p, c, model) && forall|d: Channel| #[trigger] claims(p, d, model) ==> d == c
}

/// The channel that the name of a model points to. `partner` is the name of
/// Anthropic's model family, if it is known.
pub open spec fn channel_by_name(m: Seq<char>, partner: Seq<char>) -> Option<Channel> {
    if text::starts(m, "deepseek"@) {
        Some(Channel::Deepseek)
    } else if text::starts(m, "openai/"@) || text::starts(m, "gpt-"@) || text::starts(m, "o1"@)
        || text::starts(m, "o3"@) || text::starts(m, "o4"@) || text::starts(m, "chatgpt"@) {
        Some(Channel::Openai)
    } else if text::starts(m, "anthropic/"@) || (partner.len() > 0 && text::starts(
        m,
        partner + "-"@,
    )) {
        Some(Channel::Anthropic)
    } else if text::starts(m, "ollama/"@) || text::starts(m, "llama"@) {
        Some(Channel::Ollama)
    } else {
        None
    }
}

/// The channel that serves a model. The default model goes to the active channel;
/// a model that one channel alone lists goes there; then its name decides, then
/// the active channel.
pub open spec fn route(
    p: ProviderConfigs,
    default_model: Seq<char>,
    active: Seq<char>,
    partner: Seq<char>,
    model: Seq<char>,
) -> Seq<char> {
    let m = text::trim_of(model);
    if m.len() > 0 && m == text::trim_of(default_model) && providers::channel_named(active) is Some {
        active
    } else if exists|c: Channel| claims_alone(p, c, m) {
        providers::name_of(choose|c: Channel| claims_alone(p, c, m))
    } else if channel_by_name(m, partner) is Some {
        providers::name_of(channel_by_name(m, partner)->0)
    } else if providers::channel_named(active) is Some {
        active
    } else {
        "deepseek"@
    }
}

fn lists_model(p: &ProviderConfig, model: &str) -> (r: bool)
    ensures
        r == (p.enabled && exists|i: int|
            0 <= i < p.model_list@.len() && #[trigger] text::trim_of(p.model_list@[i]@) == model@),
{
    if !p.enabled {
        return false;
    }
    let n: usize = p.model_list.len();
    for i in 0..n
        invariant
            n == p.model_list@.len(),
            p.enabled,
            forall|k: int| 0 <= k < i ==> #[trigger] text::trim_of(p.model_list@[k]@) != model@,
    {
        let t = trimmed(p.model_list[i].as_str());
        if same(t.as_str(), model) {
            return true;
        }
    }
    false
}

fn channel_name(c: Channel) -> (r: &'static str)
    ensures
        r@ == providers::name_of(c),
{
    match c {
        Channel::Deepseek => "deepseek",
        Channel::Openai => "openai",
        Channel::Anthropic => "anthropic",
        Channel::Ollama => "ollama",
    }
}

fn guess_channel(m: &str, partner: &str) -> (r: Option<Channel>)
    ensures
        r == channel_by_name(m@, partner@),
{
    if str_starts_with(m, "deepseek") {
        return Some(Channel::Deepseek);
    }
    if str_starts_with(m, "openai/") || str_starts_with(m, "gpt-") || str_starts_with(m, "o1")
        || str_starts_with(m, "o3") || str_starts_with(m, "o4") || str_starts_with(m, "chatgpt") {
        return Some(Channel::Openai);
    }
    if str_starts_with(m, "anthropic/") || (!partner.is_empty() && str_starts_with(
        m,
        cat2(partner, "-").as_str(),
    )) {
        return Some(Channel::Anthropic);
    }
    if str_starts_with(m, "ollama/") || str_starts_with(m, "llama") {
        return Some(Channel::Ollama);
    }
    None
}

fn sole_claimant(p: &ProviderConfigs, m: &str) -> (r: Option<Channel>)
    ensures
        match r {
            Some(c) => claims_alone(*p, c, m@),
            None => forall|c: Channel| !claims_alone(*p, c, m@),
        },
{
    let deepseek = lists_model(&p.deepseek, m);
    let openai = lists_model(&p.openai, m);
    let anthropic = lists_model(&p.anthropic, m);
    let ollama = lists_model(&p.ollama, m);
    assert(deepseek == claims(*p, Channel::Deepseek, m@));
    assert(openai == claims(*p, Channel::Openai, m@));
    assert(anthropic == claims(*p, Channel::Anthropic, m@));
    assert(ollama == claims(*p, Channel::Ollama, m@));
    match (deepseek, openai, anthropic, ollama) {
        (true, false, false, false) => Some(Channel::Deepseek),
        (false, true, false, false) => Some(Channel::Openai),
        (false, false, true, false) => Some(Channel::Anthropic),
        (false, false, false, true) => Some(Channel::Ollama),
        _ => None,
    }
}

impl Config {
    /// The name of the channel that serves `model`, given the name of the active
    /// channel in lower case and without white space around it.
    pub fn route_model(&self, active: &str, model: &str) -> (r: String)
        ensures
            r@ == route(
                self.providers,
                self.default_model@,
                active@,
                self.partner@,
                model@,
            ),
    {
        let m = trimmed(model);
        let known = channel_of(active).is_some();
        if !m.as_str().is_empty() && known && same(
            m.as_str(),
            trimmed(self.default_model.as_str()).as_str(),
        ) {
            return active.to_string();
        }
        if let Some(c) = sole_claimant(&self.providers, m.as_str()) {
            return channel_name(c).to_string();
        }
        match guess_channel(m.as_str(), self.partner.as_str()) {
            Some(c) => channel_name(c).to_string(),
            None => if known {
                active.to_string()
            } else {
                "deepseek".to_string()
            },
        }
    }

    /// The name of the channel that serves `model`.
    pub fn provider_key_for_model(&self, model: &str) -> (r: String)
        ensures
            r@ == route(
                self.providers,
                self.default_model@,
                text::unicode_lowered(text::trim_of(self.active_provider@)),
                self.partner@,
                model@,
            ),
    {
        let active = lowercase(trimmed(self.active_provider.as_str()).as_str());
        self.route_model(active.as_str(), model)
    }

    /// The settings of the channel that `key` names, or else those of `deepseek`.
    pub fn provider_config_by_key(&self, key: &str) -> (r: Option<ProviderConfig>)
        ensures
            r is Some,
            r->0@ == (match providers::channel_named(key@) {
                Some(c) => self.providers.of(c)@,
                None => self.providers.of(Channel::Deepseek)@,
            }),
    {
        match self.providers.get(key) {
            Some(p) => Some(p.clone()),
            None => Some(self.providers.deepseek.clone()),
        }
    }

    /// The settings of the channel that serves `model`.
    pub fn provider_for_model(&self, model: &str) -> (r: Option<ProviderConfig>)
        ensures
            r is Some,
            r->0@ == (match providers::channel_named(
                route(
                    self.providers,
                    self.default_model@,
                    text::unicode_lowered(text::trim_of(self.active_provider@)),
                    self.partner@,
                    model@,
                ),
            ) {
                Some(c) => self.providers.of(c)@,
                None => self.providers.of(Channel::Deepseek)@,
            }),
    {
        let key = self.provider_key_for_model(model);
        self.provider_config_by_key(key.as_str())
    }
}

/// A model always goes to a channel.
pub proof fn law_route_names_a_channel(
    p: ProviderConfigs,
    default_model: Seq<char>,
    active: Seq<char>,
    partner: Seq<char>,
    model: Seq<char>,
)
    ensures
        providers::channel_named(route(p, default_model, active, partner, model)) is Some,
{
    providers::lemma_names_differ();
    assert(providers::channel_named(providers::name_of(Channel::Deepseek)) is Some);
}

/// A channel that is switched off gets no model for listing it: where the settings
/// differ only in what such a channel lists, every model goes where it went.
pub proof fn law_switched_off_lists_do_not_count(
    p: ProviderConfigs,
    q: ProviderConfigs,
    off: Channel,
    default_model: Seq<char>,
    active: Seq<char>,
    partner: Seq<char>,
    model: Seq<char>,
)
    requires
        !p.of(off).enabled,
        !q.of(off).enabled,
        forall|c: Channel| c != off ==> #[trigger] p.of(c) == q.of(c),
    ensures
        route(p, default_model, active, partner, model) == route(q, default_model, active, partner, model),
{
    let m = text::trim_of(model);
    assert forall|c: Channel| #[trigger] claims(p, c, m) == claims(q, c, m) by {
        if c != off {
            assert(p.of(c) == q.of(c));
        }
    }
    assert forall|c: Channel| claims_alone(p, c, m) == claims_alone(q, c, m) by {
        if claims_alone(p, c, m) {
            assert forall|d: Channel| #[trigger] claims(q, d, m) implies d == c by {
                assert(claims(p, d, m));
            }
            assert(claims(q, c, m));
        }
        if claims_alone(q, c, m) {
            assert forall|d: Channel| #[trigger] claims(p, d, m) implies d == c by {
                assert(claims(q, d, m));
            }
            assert(claims(p, c, m));
        }
    }
    if exists|c: Channel| claims_alone(p, c, m) {
        let a = choose|c: Channel| claims_alone(p, c, m);
        let b = choose|c: Channel| claims_alone(q, c, m);
        assert(claims_alone(q, a, m));
        assert(claims_alone(q, b, m));
        assert(claims(q, a, m) && claims(q, b, m));
    }
}

// ── Secrets ─────────────────────────────────────────────────────────────────

/// The secret of a channel as it is used: the stored one, or else the one that
/// the settings still hold.
pub open spec fn live_key(
    stored: Map<Seq<char>, Seq<char>>,
    p: ProviderConfigs,
    c: Channel,
) -> Seq<char> {
    let kept = credentials::stored(stored, providers::name_of(c));
    if kept.len() > 0 {
        kept
    } else {
        p.of(c).api_key@
    }
}

/// The stored secrets once a channel's secret, where it has one, is stored in
/// place of none.
pub open spec fn moved_key(
    stored: Map<Seq<char>, Seq<char>>,
    p: ProviderConfigs,
    c: Channel,
) -> Map<Seq<char>, Seq<char>> {
    if credentials::stored(stored, providers::name_of(c)).len() == 0 && text::trim_of(
        p.of(c).api_key@,
    ).len() > 0 {
        credentials::with_key(stored, providers::name_of(c), text::trim_of(p.of(c).api_key@))
    } else {
        stored
    }
}

/// Whether a channel's secret has to be moved out of the settings.
pub open spec fn moves(stored: Map<Seq<char>, Seq<char>>, p: ProviderConfigs, c: Channel) -> bool {
    credentials::stored(stored, providers::name_of(c)).len() == 0 && text::trim_of(
        p.of(c).api_key@,
    ).len() > 0
}

/// The stored secrets once those of all channels are moved there.
pub open spec fn moved_keys(stored: Map<Seq<char>, Seq<char>>, p: ProviderConfigs) -> Map<
    Seq<char>,
    Seq<char>,
> {
    moved_key(
        moved_key(
            moved_key(moved_key(stored, p, Channel::Deepseek), p, Channel::Openai),
            p,
            Channel::Anthropic,
        ),
        p,
        Channel::Ollama,
    )
}

/// The stored secrets once a channel's secret, where it has one, is stored in
/// place of any other.
pub open spec fn recorded_key(
    stored: Map<Seq<char>, Seq<char>>,
    p: ProviderConfigs,
    c: Channel,
) -> Map<Seq<char>, Seq<char>> {
    let secret = text::trim_of(p.of(c).api_key@);
    if secret.len() > 0 && credentials::stored(stored, providers::name_of(c)) != secret {
        credentials::with_key(stored, providers::name_of(c), secret)
    } else {
        stored
    }
}

/// The stored secrets once those of all channels are recorded.
pub open spec fn recorded_keys(stored: Map<Seq<char>, Seq<char>>, p: ProviderConfigs) -> Map<
    Seq<char>,
    Seq<char>,
> {
    recorded_key(
        recorded_key(
            recorded_key(recorded_key(stored, p, Channel::Deepseek), p, Channel::Openai),
            p,
            Channel::Anthropic,
        ),
        p,
        Channel::Ollama,
    )
}

/// Whether a channel's secret is not the stored one.
pub open spec fn records(stored: Map<Seq<char>, Seq<char>>, p: ProviderConfigs, c: Channel) -> bool {
    let secret = text::trim_of(p.of(c).api_key@);
    secret.len() > 0 && credentials::stored(stored, providers::name_of(c)) != secret
}

/// Sets one channel's secret from the stored ones, or moves it there.
fn settle_key(provider: &mut ProviderConfig, name: &str, credentials: &mut Credentials) -> (r: bool)
    ensures
        r == (credentials::stored(old(credentials).providers@, name@).len() == 0 && text::trim_of(
            old(provider).api_key@,
        ).len() > 0),
        final(provider)@ == (providers::ProviderView {
            api_key: (if credentials::stored(old(credentials).providers@, name@).len() > 0 {
                credentials::stored(old(credentials).providers@, name@)
            } else {
                old(provider).api_key@
            }),
            ..old(provider)@
        }),
        final(credentials).providers@ == (if r {
            credentials::with_key(
                old(credentials).providers@,
                name@,
                text::trim_of(old(provider).api_key@),
            )
        } else {
            old(credentials).providers@
        }),
{
    let kept = credentials.get(name);
    if !kept.as_str().is_empty() {
        provider.api_key = kept;
        return false;
    }
    let legacy = trimmed(provider.api_key.as_str());
    if !legacy.as_str().is_empty() {
        credentials.set(name, legacy.as_str());
        return true;
    }
    false
}

/// Stores one channel's secret where it has one that is not stored.
fn record_key(provider: &ProviderConfig, name: &str, credentials: &mut Credentials) -> (r: bool)
    ensures
        r == (text::trim_of(provider.api_key@).len() > 0 && credentials::stored(
            old(credentials).providers@,
            name@,
        ) != text::trim_of(provider.api_key@)),
        final(credentials).providers@ == (if r {
            credentials::with_key(
                old(credentials).providers@,
                name@,
                text::trim_of(provider.api_key@),
            )
        } else {
            old(credentials).providers@
        }),
{
    let secret = trimmed(provider.api_key.as_str());
    if !secret.as_str().is_empty() && !same(credentials.get(name).as_str(), secret.as_str()) {
        credentials.set(name, secret.as_str());
        return true;
    }
    false
}

impl Config {
    /// Gives every channel its stored secret. A secret that the settings still
    /// hold is moved to the stored ones where none is stored; the result says
    /// whether one was.
    pub fn apply_credentials(&mut self, credentials: &mut Credentials) -> (r: bool)
        ensures
            r == (exists|c: Channel| moves(old(credentials).providers@, old(self).providers, c)),
            forall|c: Channel| #[trigger]
                final(self).providers.of(c)@ == (providers::ProviderView {
                    api_key: live_key(old(credentials).providers@, old(self).providers, c),
                    ..old(self).providers.of(c)@
                }),
            final(credentials).providers@ == moved_keys(
                old(credentials).providers@,
                old(self).providers,
            ),
            *final(self) == (Config { providers: final(self).providers, ..*old(self) }),
    {
        let ghost m = credentials.providers@;
        let ghost p = self.providers;
        proof {
            let m1 = moved_key(m, p, Channel::Deepseek);
            let m2 = moved_key(m1, p, Channel::Openai);
            lemma_moved_apart(m, p, Channel::Deepseek, Channel::Openai);
            lemma_moved_apart(m, p, Channel::Deepseek, Channel::Anthropic);
            lemma_moved_apart(m, p, Channel::Deepseek, Channel::Ollama);
            lemma_moved_apart(m1, p, Channel::Openai, Channel::Anthropic);
            lemma_moved_apart(m1, p, Channel::Openai, Channel::Ollama);
            lemma_moved_apart(m2, p, Channel::Anthropic, Channel::Ollama);
        }
        let a = settle_key(&mut self.providers.deepseek, "deepseek", credentials);
        let b = settle_key(&mut self.providers.openai, "openai", credentials);
        let c = settle_key(&mut self.providers.anthropic, "anthropic", credentials);
        let d = settle_key(&mut self.providers.ollama, "ollama", credentials);
        proof {
            assert(a == moves(m, p, Channel::Deepseek));
            assert(b == moves(m, p, Channel::Openai));
            assert(c == moves(m, p, Channel::Anthropic));
            assert(d == moves(m, p, Channel::Ollama));
        }
        a || b || c || d
    }

    /// The settings to work with, from those that the file held, if there is one, and
    /// the stored secrets: the first settings where there is no file. Every channel has
    /// its stored secret. The result also says whether a secret was moved to the stored
    /// ones.
    pub fn load(stored: Option<Config>, credentials: &mut Credentials) -> (r: (Config, bool))
        ensures
            match stored {
                Some(s) => {
                    &&& r.0.proxy.url@ == read_proxy(s.proxy.url@, s.generation.proxy_url@)
                    &&& r.0 == (Config {
                        proxy: (ProxyConfig { url: r.0.proxy.url, ..s.proxy }),
                        providers: r.0.providers,
                        ..s
                    })
                    &&& forall|c: Channel| #[trigger]
                        r.0.providers.of(c)@ == (providers::ProviderView {
                            api_key: live_key(old(credentials).providers@, s.providers, c),
                            ..s.providers.of(c)@
                        })
                    &&& r.1 == (exists|c: Channel|
                        moves(old(credentials).providers@, s.providers, c))
                    &&& final(credentials).providers@ == moved_keys(
                        old(credentials).providers@,
                        s.providers,
                    )
                },
                None => {
                    &&& as_at_first(r.0)
                    &&& forall|c: Channel| #[trigger]
                        r.0.providers.of(c)@ == (providers::ProviderView {
                            api_key: credentials::stored(
                                old(credentials).providers@,
                                providers::name_of(c),
                            ),
                            ..providers::initial(c)
                        })
                    &&& !r.1
                    &&& final(credentials).providers@ == old(credentials).providers@
                },
            },
    {
        let missing = stored.is_none();
        let mut config = match stored {
            Some(s) => s,
            None => Config::default(),
        };
        let ghost first = config.providers;
        if !missing {
            config.adopt_legacy_proxy();
        }
        let moved = config.apply_credentials(credentials);
        proof {
            if missing {
                assert forall|c: Channel| first.of(c).api_key@ == Seq::<char>::empty() by {
                    reveal_strlit("");
                    assert(first.of(c)@ == providers::initial(c));
                    assert(first.of(c).api_key@ =~= Seq::empty());
                }
                assert forall|c: Channel| #[trigger]
                    config.providers.of(c)@ == (providers::ProviderView {
                        api_key: credentials::stored(
                            old(credentials).providers@,
                            providers::name_of(c),
                        ),
                        ..providers::initial(c)
                    }) by {
                    assert(first.of(c)@ == providers::initial(c));
                    assert(first.of(c).api_key@ == Seq::<char>::empty());
                    assert(live_key(old(credentials).providers@, first, c) =~= credentials::stored(
                        old(credentials).providers@,
                        providers::name_of(c),
                    ));
                }
                assert(text::trim_of(Seq::<char>::empty()).len() == 0);
                assert(first.of(Channel::Deepseek).api_key@ == Seq::<char>::empty());
                assert(first.of(Channel::Openai).api_key@ == Seq::<char>::empty());
                assert(first.of(Channel::Anthropic).api_key@ == Seq::<char>::empty());
                assert(first.of(Channel::Ollama).api_key@ == Seq::<char>::empty());
            }
        }
        (config, moved)
    }

    /// Stores the secrets that the settings hold, and says whether any was not
    /// stored yet. A channel without a secret keeps the stored one: it is not
    /// deleted by saving other settings.
    pub fn save_credentials(&self, credentials: &mut Credentials) -> (r: bool)
        ensures
            r == (exists|c: Channel| records(old(credentials).providers@, self.providers, c)),
            final(credentials).providers@ == recorded_keys(
                old(credentials).providers@,
                self.providers,
            ),
    {
        let ghost m = credentials.providers@;
        let ghost p = self.providers;
        proof {
            let m1 = recorded_key(m, p, Channel::Deepseek);
            let m2 = recorded_key(m1, p, Channel::Openai);
            lemma_recorded_apart(m, p, Channel::Deepseek, Channel::Openai);
            lemma_recorded_apart(m, p, Channel::Deepseek, Channel::Anthropic);
            lemma_recorded_apart(m, p, Channel::Deepseek, Channel::Ollama);
            lemma_recorded_apart(m1, p, Channel::Openai, Channel::Anthropic);
            lemma_recorded_apart(m1, p, Channel::Openai, Channel::Ollama);
            lemma_recorded_apart(m2, p, Channel::Anthropic, Channel::Ollama);
        }
        let a = record_key(&self.providers.deepseek, "deepseek", credentials);
        let b = record_key(&self.providers.openai, "openai", credentials);
        let c = record_key(&self.providers.anthropic, "anthropic", credentials);
        let d = record_key(&self.providers.ollama, "ollama", credentials);
        proof {
            assert(a == records(m, p, Channel::Deepseek));
            assert(b == records(m, p, Channel::Openai));
            assert(c == records(m, p, Channel::Anthropic));
            assert(d == records(m, p, Channel::Ollama));
        }
        a || b || c || d
    }

    /// Sets one channel's secret among the stored ones, and says whether they
    /// have changed. An empty one removes it.
    pub fn set_api_key(credentials: &mut Credentials, channel: &str, key: &str) -> (r: bool)
        ensures
            r == (credentials::stored(old(credentials).providers@, channel@) != text::trim_of(key@)),
            final(credentials).providers@ == (if r {
                credentials::with_key(old(credentials).providers@, channel@, key@)
            } else {
                old(credentials).providers@
            }),
    {
        if same(credentials.get(channel).as_str(), trimmed(key).as_str()) {
            return false;
        }
        credentials.set(channel, key);
        true
    }
}

proof fn lemma_moved_apart(m: Map<Seq<char>, Seq<char>>, p: ProviderConfigs, c: Channel, d: Channel)
    requires
        c != d,
    ensures
        credentials::stored(moved_key(m, p, c), providers::name_of(d)) == credentials::stored(
            m,
            providers::name_of(d),
        ),
{
    providers::lemma_names_differ();
    assert(providers::channel_named(providers::name_of(c)) != providers::channel_named(
        providers::name_of(d),
    ));
    credentials::law_set_key_is_got(
        m,
        providers::name_of(c),
        text::trim_of(p.of(c).api_key@),
        providers::name_of(d),
    );
}

proof fn lemma_recorded_apart(m: Map<Seq<char>, Seq<char>>, p: ProviderConfigs, c: Channel, d: Channel)
    requires
        c != d,
    ensures
        credentials::stored(recorded_key(m, p, c), providers::name_of(d)) == credentials::stored(
            m,
            providers::name_of(d),
        ),
{
    providers::lemma_names_differ();
    assert(providers::channel_named(providers::name_of(c)) != providers::channel_named(
        providers::name_of(d),
    ));
    credentials::law_set_key_is_got(
        m,
        providers::name_of(c),
        text::trim_of(p.of(c).api_key@),
        providers::name_of(d),
    );
}

/// Once the secrets are applied, the secret that each channel uses is the stored
/// one, and what is stored under a name of no channel is as it was.
pub proof fn law_live_keys_are_stored(
    m: Map<Seq<char>, Seq<char>>,
    p: ProviderConfigs,
    c: Channel,
    other: Seq<char>,
)
    ensures
        credentials::stored(moved_keys(m, p), providers::name_of(c)) == text::trim_of(
            live_key(m, p, c),
        ),
        providers::channel_named(other) is None ==> (moved_keys(m, p).contains_key(other)
            <==> m.contains_key(other)) && (m.contains_key(other) ==> moved_keys(m, p)[other]
            == m[other]),
{
    let m1 = moved_key(m, p, Channel::Deepseek);
    let m2 = moved_key(m1, p, Channel::Openai);
    let m3 = moved_key(m2, p, Channel::Anthropic);
    lemma_moved_apart(m, p, Channel::Deepseek, Channel::Openai);
    lemma_moved_apart(m, p, Channel::Deepseek, Channel::Anthropic);
    lemma_moved_apart(m, p, Channel::Deepseek, Channel::Ollama);
    lemma_moved_apart(m1, p, Channel::Openai, Channel::Deepseek);
    lemma_moved_apart(m1, p, Channel::Openai, Channel::Anthropic);
    lemma_moved_apart(m1, p, Channel::Openai, Channel::Ollama);
    lemma_moved_apart(m2, p, Channel::Anthropic, Channel::Deepseek);
    lemma_moved_apart(m2, p, Channel::Anthropic, Channel::Openai);
    lemma_moved_apart(m2, p, Channel::Anthropic, Channel::Ollama);
    lemma_moved_apart(m3, p, Channel::Ollama, Channel::Deepseek);
    lemma_moved_apart(m3, p, Channel::Ollama, Channel::Openai);
    lemma_moved_apart(m3, p, Channel::Ollama, Channel::Anthropic);
    let before = match c {
        Channel::Deepseek => m,
        Channel::Openai => m1,
        Channel::Anthropic => m2,
        Channel::Ollama => m3,
    };
    let key = p.of(c).api_key@;
    let name = providers::name_of(c);
    assert(credentials::stored(before, name) == credentials::stored(m, name));
    assert(credentials::stored(moved_keys(m, p), name) == credentials::stored(
        moved_key(before, p, c),
        name,
    ));
    credentials::law_set_key_is_got(before, name, text::trim_of(key), name);
    text::lemma_trim_twice(key);
    if m.contains_key(name) {
        text::lemma_trim_twice(m[name]);
    }
    reveal_strlit("");
    assert(""@ =~= Seq::<char>::empty());
    if credentials::stored(m, name).len() == 0 && text::trim_of(key).len() == 0 {
        assert(credentials::stored(m, name) =~= text::trim_of(key));
    }
    providers::lemma_names_differ();
    assert(providers::channel_named(other) is None ==> other != providers::name_of(
        Channel::Deepseek,
    ) && other != providers::name_of(Channel::Openai) && other != providers::name_of(
        Channel::Anthropic,
    ) && other != providers::name_of(Channel::Ollama));
}

/// Saving settings without a secret deletes none: where a channel holds no
/// secret, the stored one stays.
pub proof fn law_blank_key_deletes_nothing(
    m: Map<Seq<char>, Seq<char>>,
    p: ProviderConfigs,
    c: Channel,
)
    requires
        text::trim_of(p.of(c).api_key@).len() == 0,
    ensures
        credentials::stored(recorded_keys(m, p), providers::name_of(c)) == credentials::stored(
            m,
            providers::name_of(c),
        ),
{
    let m1 = recorded_key(m, p, Channel::Deepseek);
    let m2 = recorded_key(m1, p, Channel::Openai);
    let m3 = recorded_key(m2, p, Channel::Anthropic);
    if c != Channel::Deepseek {
        lemma_recorded_apart(m, p, Channel::Deepseek, c);
    }
    if c != Channel::Openai {
        lemma_recorded_apart(m1, p, Channel::Openai, c);
    }
    if c != Channel::Anthropic {
        lemma_recorded_apart(m2, p, Channel::Anthropic, c);
    }
    if c != Channel::Ollama {
        lemma_recorded_apart(m3, p, Channel::Ollama, c);
    }
}

// ── What is written ─────────────────────────────────────────────────────────

/// Where a document would hold the secret of a channel.
pub open spec fn key_path(c: Channel) -> Seq<Seq<char>> {
    seq!["providers"@, providers::name_of(c), "api_key"@]
}

/// A document without the secrets of the channels.
pub open spec fn without_keys(n: patch::Node) -> patch::Node {
    patch::cut_at(
        patch::cut_at(
            patch::cut_at(
                patch::cut_at(n, key_path(Channel::Deepseek)),
                key_path(Channel::Openai),
            ),
            key_path(Channel::Anthropic),
        ),
        key_path(Channel::Ollama),
    )
}

fn strip_secrets(doc: &mut toml_edit::DocumentMut)
    requires
        patch::document_node(*old(doc)) is Table,
    ensures
        patch::document_node(*final(doc)) == without_keys(patch::document_node(*old(doc))),
{
    strip_one(doc, Channel::Deepseek);
    strip_one(doc, Channel::Openai);
    strip_one(doc, Channel::Anthropic);
    strip_one(doc, Channel::Ollama);
}

fn strip_one(doc: &mut toml_edit::DocumentMut, c: Channel)
    requires
        patch::document_node(*old(doc)) is Table,
    ensures
        patch::document_node(*final(doc)) == patch::cut_at(
            patch::document_node(*old(doc)),
            key_path(c),
        ),
        patch::document_node(*final(doc)) is Table,
{
    let path = ["providers", channel_name(c), "api_key"];
    assert(patch::keys_of(path@) =~= key_path(c));
    remove_path(doc, path.as_slice());
}

/// What the file of the settings holds once they are saved: the settings over
/// what is there, or alone where the file is blank, without any secret.
pub open spec fn saved(existing: Seq<char>, layer: Seq<char>) -> patch::Node {
    without_keys(
        if text::trim_of(existing).len() == 0 {
            patch::document_of(layer)->0
        } else {
            patch::merged(patch::document_of(existing)->0, patch::document_of(layer)->0, true)
        },
    )
}

impl Config {
    /// The text of the settings file once the settings, as the TOML text
    /// `layer`, are saved over the text `existing`. A file that cannot be read is
    /// an error, and so stays as it is.
    pub fn save_config_only(existing: &str, layer: &str) -> (r: Result<String, ConfigError>)
        ensures
            match r {
                Ok(written) => {
                    &&& patch::document_of(layer@) is Some
                    &&& text::trim_of(existing@).len() == 0 || patch::document_of(existing@) is Some
                    &&& exists|d: toml_edit::DocumentMut|
                        #![trigger patch::document_text(d)]
                        written@ == patch::document_text(d) && patch::document_node(d) == saved(
                            existing@,
                            layer@,
                        )
                },
                Err(ConfigError::TomlEdit(e)) => if patch::document_of(layer@) is None {
                    e@ == patch::toml_error_of(layer@)
                } else {
                    text::trim_of(existing@).len() > 0 && patch::document_of(existing@) is None
                        && e@ == patch::toml_error_of(existing@)
                },
                _ => false,
            },
    {
        let over = match parse_document(layer) {
            Ok(d) => d,
            Err(e) => {
                return Err(ConfigError::TomlEdit(e));
            },
        };
        let chars = chars_of(existing);
        let mut doc = over;
        if trim(chars.as_slice()).len() > 0 {
            let mut base = match parse_document(existing) {
                Ok(d) => d,
                Err(e) => {
                    return Err(ConfigError::TomlEdit(e));
                },
            };
            merge_document(&mut base, &doc);
            doc = base;
        }
        strip_secrets(&mut doc);
        Ok(render_document(&doc))
    }
}

/// No secret of a channel is in the file of the settings once they are saved, and
/// whatever is not a secret is there as the overlay has it.
pub proof fn law_saved_file_holds_no_key(n: patch::Node, c: Channel, other: Seq<Seq<char>>)
    ensures
        patch::held(without_keys(n), key_path(c)) is None,
        (forall|d: Channel|
            !(#[trigger] key_path(d)).is_prefix_of(other) && !other.is_prefix_of(key_path(d)))
            ==> patch::held(without_keys(n), other) == patch::held(n, other),
{
    let a = key_path(Channel::Deepseek);
    let b = key_path(Channel::Openai);
    let d = key_path(Channel::Anthropic);
    let e = key_path(Channel::Ollama);
    let n1 = patch::cut_at(n, a);
    let n2 = patch::cut_at(n1, b);
    let n3 = patch::cut_at(n2, d);
    match c {
        Channel::Deepseek => {
            patch::law_removed_is_gone(n, a);
            patch::law_removal_adds_nothing(n1, b, a);
            patch::law_removal_adds_nothing(n2, d, a);
            patch::law_removal_adds_nothing(n3, e, a);
        },
        Channel::Openai => {
            patch::law_removed_is_gone(n1, b);
            patch::law_removal_adds_nothing(n2, d, b);
            patch::law_removal_adds_nothing(n3, e, b);
        },
        Channel::Anthropic => {
            patch::law_removed_is_gone(n2, d);
            patch::law_removal_adds_nothing(n3, e, d);
        },
        Channel::Ollama => {
            patch::law_removed_is_gone(n3, e);
        },
    }
    if forall|d: Channel|
        !(#[trigger] key_path(d)).is_prefix_of(other) && !other.is_prefix_of(key_path(d)) {
        patch::law_removal_touches_one_entry(n, a, other);
        patch::law_removal_touches_one_entry(n1, b, other);
        patch::law_removal_touches_one_entry(n2, d, other);
        patch::law_removal_touches_one_entry(n3, e, other);
    }
}

// ── What is read ────────────────────────────────────────────────────────────

/// Where the address of the proxy used to stand.
pub open spec fn legacy_proxy_path() -> Seq<Seq<char>> {
    seq!["generation"@, "proxy_url"@]
}

/// The address of the proxy once settings are read: the one that is set, or else
/// the one that stands in the old place.
pub open spec fn read_proxy(url: Seq<char>, legacy: Seq<char>) -> Seq<char> {
    if text::trim_of(url).len() == 0 && text::trim_of(legacy).len() > 0 {
        text::trim_of(legacy)
    } else {
        url
    }
}

impl Config {
    /// Takes the address of the proxy from its old place where none is set.
    pub fn adopt_legacy_proxy(&mut self)
        ensures
            final(self).proxy.url@ == read_proxy(
                old(self).proxy.url@,
                old(self).generation.proxy_url@,
            ),
            *final(self) == (Config {
                proxy: (ProxyConfig { url: final(self).proxy.url, ..old(self).proxy }),
                ..*old(self)
            }),
    {
        let legacy = trimmed(self.generation.proxy_url.as_str());
        if trimmed(self.proxy.url.as_str()).as_str().is_empty() && !legacy.as_str().is_empty() {
            self.proxy.url = legacy;
        }
    }

    /// The text of the settings file without the old place of the proxy's
    /// address, once the address stands in its section: `None` where nothing has
    /// to be rewritten, or the text is no document.
    pub fn migrate_proxy_url_from_legacy(&self, raw: &str) -> (r: Option<String>)
        ensures
            r is Some <==> patch::document_of(raw@) is Some && text::trim_of(self.proxy.url@).len() > 0
                && patch::held(patch::document_of(raw@)->0, legacy_proxy_path()) is Some,
            r is Some ==> exists|d: toml_edit::DocumentMut|
                #![trigger patch::document_text(d)]
                r->0@ == patch::document_text(d) && patch::document_node(d) == patch::cut_at(
                    patch::document_of(raw@)->0,
                    legacy_proxy_path(),
                ),
    {
        let mut doc = match parse_document(raw) {
            Ok(d) => d,
            Err(_) => {
                return None;
            },
        };
        if trimmed(self.proxy.url.as_str()).as_str().is_empty() {
            return None;
        }
        let path = ["generation", "proxy_url"];
        assert(patch::keys_of(path@) =~= legacy_proxy_path());
        if remove_path(&mut doc, path.as_slice()) {
            Some(render_document(&doc))
        } else {
            None
        }
    }
}

// ── The environment of child processes ──────────────────────────────────────

/// A change to the environment of a child process.
#[derive(Debug, Clone, PartialEq, Eq)]
pub enum EnvChange {
    Assign(String, String),
    Remove(String),
}

/// A change to the environment, as a value.
#[verifier::ext_equal]
pub ghost enum EnvChangeView {
    Assign(Seq<char>, Seq<char>),
    Remove(Seq<char>),
}

impl View for EnvChange {
    type V = EnvChangeView;

    open spec fn view(&self) -> EnvChangeView {
        match self {
            EnvChange::Assign(k, v) => EnvChangeView::Assign(k@, v@),
            EnvChange::Remove(k) => EnvChangeView::Remove(k@),
        }
    }
}

/// Some changes, as values.
pub open spec fn changes(v: Seq<EnvChange>) -> Seq<EnvChangeView> {
    v.map_values(|c: EnvChange| c@)
}

/// An environment after some changes, from the first to the last.
pub open spec fn applied(c: Seq<EnvChangeView>, env: Map<Seq<char>, Seq<char>>) -> Map<
    Seq<char>,
    Seq<char>,
>
    decreases c.len(),
{
    if c.len() == 0 {
        env
    } else {
        match c.last() {
            EnvChangeView::Assign(k, v) => applied(c.drop_last(), env).insert(k, v),
            EnvChangeView::Remove(k) => applied(c.drop_last(), env).remove(k),
        }
    }
}

/// Changes may be made in two parts.
pub proof fn lemma_applied_in_parts(
    a: Seq<EnvChangeView>,
    b: Seq<EnvChangeView>,
    env: Map<Seq<char>, Seq<char>>,
)
    ensures
        applied(a + b, env) == applied(b, applied(a, env)),
    decreases b.len(),
{
    if b.len() == 0 {
        assert(a + b =~= a);
    } else {
        assert((a + b).drop_last() =~= a + b.drop_last());
        lemma_applied_in_parts(a, b.drop_last(), env);
    }
}

/// The variables that name a proxy.
pub open spec fn proxy_names() -> Seq<Seq<char>> {
    seq!["HTTP_PROXY"@, "HTTPS_PROXY"@, "ALL_PROXY"@, "http_proxy"@, "https_proxy"@, "all_proxy"@]
}

/// The variables that a direct connection must not see.
pub open spec fn cleared_names() -> Seq<Seq<char>> {
    proxy_names() + seq!["NO_PROXY"@, "no_proxy"@]
}

/// The address that is really used: the one that is given, unless it is blank.
pub open spec fn used_proxy(url: Option<Seq<char>>) -> Option<Seq<char>> {
    match url {
        Some(u) => if text::trim_of(u).len() > 0 {
            Some(text::trim_of(u))
        } else {
            None
        },
        None => None,
    }
}

/// The changes that put a proxy, or none, into the environment.
pub open spec fn proxy_changes(url: Option<Seq<char>>) -> Seq<EnvChangeView> {
    match used_proxy(url) {
        Some(u) => proxy_names().map_values(|k: Seq<char>| EnvChangeView::Assign(k, u)),
        None => cleared_names().map_values(|k: Seq<char>| EnvChangeView::Remove(k)),
    }
}

/// The address that is really used: the one that is given, unless it is blank.
pub fn effective_proxy(proxy_url: &Option<String>) -> (r: Option<String>)
    ensures
        text::opt_text(r) == used_proxy(text::opt_text(*proxy_url)),
{
    match proxy_url {
        Some(u) => {
            let t = trimmed(u.as_str());
            if t.as_str().is_empty() {
                None
            } else {
                Some(t)
            }
        },
        None => None,
    }
}

fn set_env(out: &mut Vec<EnvChange>, key: &str, url: &str)
    ensures
        changes(final(out)@) == changes(old(out)@).push(EnvChangeView::Assign(key@, url@)),
{
    out.push(EnvChange::Assign(key.to_string(), url.to_string()));
    assert(changes(out@) =~= changes(old(out)@).push(EnvChangeView::Assign(key@, url@)));
}

fn remove_env(out: &mut Vec<EnvChange>, key: &str)
    ensures
        changes(final(out)@) == changes(old(out)@).push(EnvChangeView::Remove(key@)),
{
    out.push(EnvChange::Remove(key.to_string()));
    assert(changes(out@) =~= changes(old(out)@).push(EnvChangeView::Remove(key@)));
}

/// What to change in the environment of a child process so that it uses the
/// proxy at `proxy_url`, or none.
pub fn apply_proxy_env(proxy_url: &Option<String>) -> (r: Vec<EnvChange>)
    ensures
        changes(r@) == proxy_changes(text::opt_text(*proxy_url)),
{
    let mut out: Vec<EnvChange> = Vec::new();
    match effective_proxy(proxy_url) {
        Some(url) => {
            let url = url.as_str();
            set_env(&mut out, "HTTP_PROXY", url);
            set_env(&mut out, "HTTPS_PROXY", url);
            set_env(&mut out, "ALL_PROXY", url);
            set_env(&mut out, "http_proxy", url);
            set_env(&mut out, "https_proxy", url);
            set_env(&mut out, "all_proxy", url);
        },
        None => {
            remove_env(&mut out, "HTTP_PROXY");
            remove_env(&mut out, "HTTPS_PROXY");
            remove_env(&mut out, "ALL_PROXY");
            remove_env(&mut out, "http_proxy");
            remove_env(&mut out, "https_proxy");
            remove_env(&mut out, "all_proxy");
            remove_env(&mut out, "NO_PROXY");
            remove_env(&mut out, "no_proxy");
        },
    }
    assert(changes(out@) =~= proxy_changes(text::opt_text(*proxy_url)));
    out
}

/// [`apply_proxy_env`] for a child process that is waited for asynchronously.
pub fn apply_proxy_env_tokio(proxy_url: &Option<String>) -> (r: Vec<EnvChange>)
    ensures
        changes(r@) == proxy_changes(text::opt_text(*proxy_url)),
{
    apply_proxy_env(proxy_url)
}

proof fn lemma_assigned_alike(
    c: Seq<EnvChangeView>,
    env: Map<Seq<char>, Seq<char>>,
    value: Seq<char>,
    i: int,
)
    requires
        0 <= i < c.len(),
        forall|k: int|
            0 <= k < c.len() ==> #[trigger] c[k] is Assign && c[k]->Assign_1 == value,
    ensures
        applied(c, env).contains_pair(c[i]->Assign_0, value),
    decreases c.len(),
{
    if i < c.len() - 1 {
        let d = c.drop_last();
        assert forall|k: int| 0 <= k < d.len() implies #[trigger] d[k] is Assign
            && d[k]->Assign_1 == value by {
            assert(d[k] == c[k]);
        }
        lemma_assigned_alike(d, env, value, i);
        assert(d[i] == c[i]);
    }
    assert(c.last() is Assign);
}

proof fn lemma_removed(c: Seq<EnvChangeView>, env: Map<Seq<char>, Seq<char>>, i: int)
    requires
        0 <= i < c.len(),
        forall|k: int| 0 <= k < c.len() ==> #[trigger] c[k] is Remove,
    ensures
        !applied(c, env).contains_key(c[i]->Remove_0),
    decreases c.len(),
{
    if i < c.len() - 1 {
        let d = c.drop_last();
        assert forall|k: int| 0 <= k < d.len() implies #[trigger] d[k] is Remove by {
            assert(d[k] == c[k]);
        }
        lemma_removed(d, env, i);
        assert(d[i] == c[i]);
    }
    assert(c.last() is Remove);
}

/// A child process sees the proxy that is used under every name it may look for, and
/// where none is used it sees none, whatever the environment was.
pub proof fn law_children_see_the_proxy(
    url: Option<Seq<char>>,
    env: Map<Seq<char>, Seq<char>>,
    i: int,
)
    ensures
        used_proxy(url) is Some && 0 <= i < proxy_names().len() ==> applied(
            proxy_changes(url),
            env,
        ).contains_pair(proxy_names()[i], used_proxy(url)->0),
        used_proxy(url) is None && 0 <= i < cleared_names().len() ==> !applied(
            proxy_changes(url),
            env,
        ).contains_key(cleared_names()[i]),
{
    if used_proxy(url) is Some && 0 <= i < proxy_names().len() {
        lemma_assigned_alike(proxy_changes(url), env, used_proxy(url)->0, i);
    }
    if used_proxy(url) is None && 0 <= i < cleared_names().len() {
        lemma_removed(proxy_changes(url), env, i);
    }
}

// ── Where things are kept ───────────────────────────────────────────────────

/// The program's directory below a home directory.
pub open spec fn data_dir_of(home: Seq<paths::PartView>) -> Seq<paths::PartView> {
    home.push(paths::PartView::Normal(".dscode"@))
}

/// The program's directory below `home`.
pub fn data_dir_below(home: &Vec<PathPart>) -> (r: Vec<PathPart>)
    ensures
        paths::path_view(r@) == data_dir_of(paths::path_view(home@)),
{
    let mut p = copy_path(home);
    let ghost before = p@;
    p.push(PathPart::Normal(".dscode".to_string()));
    assert(paths::path_view(p@) =~= paths::path_view(before).push(p@.last()@));
    p
}

fn in_data_dir(home: &Option<Vec<PathPart>>, name: &str) -> (r: Result<Vec<PathPart>, ConfigError>)
    ensures
        match *home {
            Some(h) => r is Ok && paths::path_view(r->Ok_0@) == data_dir_of(
                paths::path_view(h@),
            ).push(paths::PartView::Normal(name@)),
            None => r is Err && r->Err_0 is NoHomeDir,
        },
{
    match home {
        Some(h) => {
            let mut p = data_dir_below(h);
            let ghost before = p@;
            p.push(PathPart::Normal(name.to_string()));
            assert(paths::path_view(p@) =~= paths::path_view(before).push(p@.last()@));
            Ok(p)
        },
        None => Err(ConfigError::NoHomeDir),
    }
}

/// The home directory: what `HOME` says, or else what `USERPROFILE` says.
pub fn home_dir(home: Option<Vec<PathPart>>, profile: Option<Vec<PathPart>>) -> (r: Option<
    Vec<PathPart>,
>)
    ensures
        r == (if home is Some {
            home
        } else {
            profile
        }),
{
    if home.is_some() {
        home
    } else {
        profile
    }
}

impl Config {
    /// The file of the settings.
    pub fn config_path(home: &Option<Vec<PathPart>>) -> (r: Result<Vec<PathPart>, ConfigError>)
        ensures
            match *home {
                Some(h) => r is Ok && paths::path_view(r->Ok_0@) == data_dir_of(
                    paths::path_view(h@),
                ).push(paths::PartView::Normal("config.toml"@)),
                None => r is Err && r->Err_0 is NoHomeDir,
            },
    {
        in_data_dir(home, "config.toml")
    }

    /// The program's directory.
    pub fn data_dir(home: &Option<Vec<PathPart>>) -> (r: Result<Vec<PathPart>, ConfigError>)
        ensures
            match *home {
                Some(h) => r is Ok && paths::path_view(r->Ok_0@) == data_dir_of(
                    paths::path_view(h@),
                ),
                None => r is Err && r->Err_0 is NoHomeDir,
            },
    {
        match home {
            Some(h) => Ok(data_dir_below(h)),
            None => Err(ConfigError::NoHomeDir),
        }
    }

    /// Where sessions are kept.
    pub fn sessions_dir(home: &Option<Vec<PathPart>>) -> (r: Result<Vec<PathPart>, ConfigError>)
        ensures
            match *home {
                Some(h) => r is Ok && paths::path_view(r->Ok_0@) == data_dir_of(
                    paths::path_view(h@),
                ).push(paths::PartView::Normal("sessions"@)),
                None => r is Err && r->Err_0 is NoHomeDir,
            },
    {
        in_data_dir(home, "sessions")
    }

    /// Where tasks are kept.
    pub fn tasks_dir(home: &Option<Vec<PathPart>>) -> (r: Result<Vec<PathPart>, ConfigError>)
        ensures
            match *home {
                Some(h) => r is Ok && paths::path_view(r->Ok_0@) == data_dir_of(
                    paths::path_view(h@),
                ).push(paths::PartView::Normal("tasks"@)),
                None => r is Err && r->Err_0 is NoHomeDir,
            },
    {
        in_data_dir(home, "tasks")
    }
}

/// A model goes where it belongs: the default model to the active channel, a model that one
/// channel alone lists to that channel, and any other by its name.
pub proof fn law_model_goes_to_its_channel(
    p: ProviderConfigs,
    default_model: Seq<char>,
    active: Seq<char>,
    partner: Seq<char>,
    model: Seq<char>,
    c: Channel,
)
    ensures
        ({
            let m = text::trim_of(model);
            let to = route(p, default_model, active, partner, model);
            let known = providers::channel_named(active) is Some;
            let is_default = m.len() > 0 && m == text::trim_of(default_model) && known;
            let listed = exists|d: Channel| claims_alone(p, d, m);
            &&& is_default ==> to == active
            &&& !is_default && claims_alone(p, c, m) ==> to == providers::name_of(c)
            &&& !is_default && !listed && text::starts(m, "deepseek"@) ==> to == "deepseek"@
            &&& !is_default && !listed && text::starts(m, "gpt-"@) && !text::starts(m, "deepseek"@)
                ==> to == "openai"@
            &&& !is_default && !listed && channel_by_name(m, partner) is None && known ==> to == active
            &&& !is_default && !listed && channel_by_name(m, partner) is None && !known ==> to
                == "deepseek"@
        }),
{
    let m = text::trim_of(model);
    if claims_alone(p, c, m) {
        let d = choose|d: Channel| claims_alone(p, d, m);
        assert(claims(p, d, m));
        assert(d == c);
    }
}

/// A channel lists a model alone where it is switched on and lists it, and no other that is
/// switched on does.
pub proof fn law_listing_needs_one_channel(
    p: ProviderConfigs,
    c: Channel,
    d: Channel,
    model: Seq<char>,
    i: int,
)
    requires
        p.of(c).enabled,
        0 <= i < p.of(c).model_list@.len(),
        text::trim_of(p.of(c).model_list@[i]@) == model,
    ensures
        claims(p, c, model),
        d != c && claims(p, d, model) ==> !claims_alone(p, c, model) && !claims_alone(p, d, model),
        (forall|e: Channel| e != c ==> !p.of(e).enabled) ==> claims_alone(p, c, model),
{
    assert(claims(p, c, model));
    if forall|e: Channel| e != c ==> !p.of(e).enabled {
        assert forall|e: Channel| #[trigger] claims(p, e, model) implies e == c by {
            if e != c {
                assert(!p.of(e).enabled);
            }
        }
    }
}

proof fn lemma_recorded_key(
    m: Map<Seq<char>, Seq<char>>,
    p: ProviderConfigs,
    d: Channel,
    c: Channel,
)
    ensures
        c == d && text::trim_of(p.of(c).api_key@).len() > 0 ==> credentials::stored(
            recorded_key(m, p, d),
            providers::name_of(c),
        ) == text::trim_of(p.of(c).api_key@),
        c != d ==> credentials::stored(recorded_key(m, p, d), providers::name_of(c))
            == credentials::stored(m, providers::name_of(c)),
{
    let secret = text::trim_of(p.of(d).api_key@);
    credentials::law_set_key_is_got(m, providers::name_of(d), secret, providers::name_of(c));
    text::lemma_trim_twice(p.of(d).api_key@);
    providers::law_channels_are_listed(c, 0);
    providers::law_channels_are_listed(d, 0);
}

/// A key that is saved is stored, for its channel and without the whitespace around it.
pub proof fn law_saved_key_is_stored(
    m: Map<Seq<char>, Seq<char>>,
    p: ProviderConfigs,
    c: Channel,
)
    requires
        text::trim_of(p.of(c).api_key@).len() > 0,
    ensures
        credentials::stored(recorded_keys(m, p), providers::name_of(c)) == text::trim_of(
            p.of(c).api_key@,
        ),
{
    let a = recorded_key(m, p, Channel::Deepseek);
    let b = recorded_key(a, p, Channel::Openai);
    let d = recorded_key(b, p, Channel::Anthropic);
    lemma_recorded_key(m, p, Channel::Deepseek, c);
    lemma_recorded_key(a, p, Channel::Openai, c);
    lemma_recorded_key(b, p, Channel::Anthropic, c);
    lemma_recorded_key(d, p, Channel::Ollama, c);
}

/// A proxy is used exactly where its address has one of the known schemes, in any case, and
/// either all traffic goes through it or it was asked for; and then it is the address that
/// was set, without the whitespace around it.
pub proof fn law_proxy_is_the_one_that_was_set(p: ProxyConfig, asked: bool)
    ensures
        ({
            let u = text::trim_of(p.url@);
            let low = text::lowered(u);
            let known = text::starts(low, "http://"@) || text::starts(low, "https://"@)
                || text::starts(low, "socks5://"@) || text::starts(low, "socks5h://"@)
                || text::starts(low, "socks4://"@);
            &&& proxy_choice(p, asked) is Some <==> known && (p.global || asked)
            &&& proxy_choice(p, asked) matches Some(x) ==> x == u
        }),
{
}

/// What the user wrote for all sessions reaches the model: behind what is built in, or in
/// its place where that was asked for. Where nothing was written, nothing changes.
#[verifier::rlimit(40)]
pub proof fn law_own_instructions_are_told(built_in: Seq<char>, a: Seq<char>, own: Seq<char>, b: Seq<char>)
    requires
        text::is_blank(a),
        text::is_blank(b),
        text::is_tight(own),
    ensures
        own.len() > 0 ==> system_prompt(built_in, a + own + b, true) == own,
        own.len() > 0 ==> text::starts(system_prompt(built_in, a + own + b, false), built_in)
            && text::ends(system_prompt(built_in, a + own + b, false), own),
        own.len() == 0 ==> system_prompt(built_in, a + own + b, true) == built_in && system_prompt(
            built_in,
            a + own + b,
            false,
        ) == built_in,
{
    let none = Seq::<char>::empty();
    text::law_trim_takes_whitespace(a, own, b);
    if own.len() > 0 {
        let t = system_prompt(built_in, a + own + b, false);
        let h = "\n\n## User global instructions\n"@;
        assert(t == built_in + h + own);
        assert(text::starts(t, built_in)) by {
            text::lemma_part_at(none, built_in, h + own);
            assert(none + built_in + (h + own) =~= t);
        }
        assert(text::ends(t, own)) by {
            text::lemma_part_at(built_in + h, own, none);
            assert(built_in + h + own + none =~= t);
        }
    }
}

/// The proxy that is set counts; the one of older settings only where none is.
pub proof fn law_set_proxy_counts(url: Seq<char>, legacy: Seq<char>)
    ensures
        !text::is_blank(url) ==> read_proxy(url, legacy) == url,
        text::is_blank(url) && !text::is_blank(legacy) ==> read_proxy(url, legacy) == text::trim_of(
            legacy,
        ),
        text::is_blank(url) && text::is_blank(legacy) ==> read_proxy(url, legacy) == url,
{
    text::law_blank_is_trimmed_away(url);
    text::law_blank_is_trimmed_away(legacy);
}

} // verus!
