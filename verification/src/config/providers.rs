//! The model channels and their defaults.

use crate::text;
use crate::text::{copy_texts, same, trimmed};
use vstd::prelude::*;

verus! {

/// The names of the channels, in the order in which they are listed.
pub const CHANNELS: [&'static str; 4] = ["deepseek", "openai", "anthropic", "ollama"];

pub const DEFAULT_DEEPSEEK_BASE_URL: &'static str = "https://api.deepseek.com/v1";

pub const DEFAULT_OPENAI_BASE_URL: &'static str = "https://api.openai.com/v1";

pub const DEFAULT_ANTHROPIC_BASE_URL: &'static str = "https://api.anthropic.com";

pub const DEFAULT_OLLAMA_BASE_URL: &'static str = "http://localhost:11434/v1";

/// The channels.
#[derive(Debug, Clone, Copy, PartialEq, Eq, Structural)]
pub enum Channel {
    Deepseek,
    Openai,
    Anthropic,
    Ollama,
}

/// The channel that a text names.
pub open spec fn channel_named(s: Seq<char>) -> Option<Channel> {
    if s == "deepseek"@ {
        Some(Channel::Deepseek)
    } else if s == "openai"@ {
        Some(Channel::Openai)
    } else if s == "anthropic"@ {
        Some(Channel::Anthropic)
    } else if s == "ollama"@ {
        Some(Channel::Ollama)
    } else {
        None
    }
}

/// The name of a channel.
pub open spec fn name_of(c: Channel) -> Seq<char> {
    match c {
        Channel::Deepseek => "deepseek"@,
        Channel::Openai => "openai"@,
        Channel::Anthropic => "anthropic"@,
        Channel::Ollama => "ollama"@,
    }
}

/// The names of the channels differ.
pub proof fn lemma_names_differ()
    ensures
        forall|c: Channel| channel_named(#[trigger] name_of(c)) == Some(c),
{
    reveal_strlit("deepseek");
    reveal_strlit("openai");
    reveal_strlit("anthropic");
    reveal_strlit("ollama");
    assert("deepseek"@.len() == 8);
    assert("openai"@.len() == 6);
    assert("anthropic"@.len() == 9);
    assert("ollama"@.len() == 6);
    assert("openai"@[1] == 'p');
    assert("ollama"@[1] == 'l');
}

/// The channel that `key` names.
pub fn channel_of(key: &str) -> (r: Option<Channel>)
    ensures
        r == channel_named(key@),
{
    if same(key, "deepseek") {
        Some(Channel::Deepseek)
    } else if same(key, "openai") {
        Some(Channel::Openai)
    } else if same(key, "anthropic") {
        Some(Channel::Anthropic)
    } else if same(key, "ollama") {
        Some(Channel::Ollama)
    } else {
        None
    }
}

/// The address at which a channel is reached unless another is set.
pub open spec fn base_url_of(c: Channel) -> Seq<char> {
    match c {
        Channel::Deepseek => "https://api.deepseek.com/v1"@,
        Channel::Openai => "https://api.openai.com/v1"@,
        Channel::Anthropic => "https://api.anthropic.com"@,
        Channel::Ollama => "http://localhost:11434/v1"@,
    }
}

/// The default address of the channel that `channel` names; empty where it names
/// none.
pub fn default_base_url(channel: &str) -> (r: &'static str)
    ensures
        r@ == (match channel_named(channel@) {
            Some(c) => base_url_of(c),
            None => ""@,
        }),
{
    match channel_of(channel) {
        Some(Channel::Deepseek) => DEFAULT_DEEPSEEK_BASE_URL,
        Some(Channel::Openai) => DEFAULT_OPENAI_BASE_URL,
        Some(Channel::Anthropic) => DEFAULT_ANTHROPIC_BASE_URL,
        Some(Channel::Ollama) => DEFAULT_OLLAMA_BASE_URL,
        None => "",
    }
}

/// The settings of one channel.
#[derive(Debug)]
pub struct ProviderConfig {
    /// The secret. It stands here while the program runs and is kept in the
    /// credentials file.
    pub api_key: String,
    /// Where the channel is reached.
    pub base_url: String,
    /// Whether the channel is switched on.
    pub enabled: bool,
    /// Whether the channel goes through the proxy.
    pub use_proxy: bool,
    /// The models that the channel said it has. Empty: not asked yet.
    pub model_list: Vec<String>,
    /// The models that are offered: `None` offers all of `model_list`.
    pub enabled_models: Option<Vec<String>>,
    /// The model last chosen on this channel.
    pub model: String,
    /// How the channel is spoken to: empty for chat completions, or `responses`.
    pub api_format: String,
}

/// The settings of one channel, as a value.
#[verifier::ext_equal]
pub ghost struct ProviderView {
    pub api_key: Seq<char>,
    pub base_url: Seq<char>,
    pub enabled: bool,
    pub use_proxy: bool,
    pub model_list: Seq<Seq<char>>,
    pub enabled_models: Option<Seq<Seq<char>>>,
    pub model: Seq<char>,
    pub api_format: Seq<char>,
}

/// An optional list of texts, as a value.
pub open spec fn opt_texts(o: Option<Vec<String>>) -> Option<Seq<Seq<char>>> {
    match o {
        Some(v) => Some(text::texts(v@)),
        None => None,
    }
}

impl View for ProviderConfig {
    type V = ProviderView;

    open spec fn view(&self) -> ProviderView {
        ProviderView {
            api_key: self.api_key@,
            base_url: self.base_url@,
            enabled: self.enabled,
            use_proxy: self.use_proxy,
            model_list: text::texts(self.model_list@),
            enabled_models: opt_texts(self.enabled_models),
            model: self.model@,
            api_format: self.api_format@,
        }
    }
}

/// A channel with nothing set.
pub open spec fn unset() -> ProviderView {
    ProviderView {
        api_key: ""@,
        base_url: ""@,
        enabled: false,
        use_proxy: false,
        model_list: Seq::empty(),
        enabled_models: None,
        model: ""@,
        api_format: ""@,
    }
}

impl Default for ProviderConfig {
    fn default() -> (r: Self)
        ensures
            r@ == unset(),
    {
        let r = ProviderConfig {
            api_key: "".to_string(),
            base_url: "".to_string(),
            enabled: false,
            use_proxy: false,
            model_list: Vec::new(),
            enabled_models: None,
            model: "".to_string(),
            api_format: "".to_string(),
        };
        assert(r@ =~= unset());
        r
    }
}

impl Clone for ProviderConfig {
    fn clone(&self) -> (r: Self)
        ensures
            r@ == self@,
    {
        ProviderConfig {
            api_key: self.api_key.clone(),
            base_url: self.base_url.clone(),
            enabled: self.enabled,
            use_proxy: self.use_proxy,
            model_list: copy_texts(&self.model_list),
            enabled_models: match &self.enabled_models {
                Some(v) => Some(copy_texts(v)),
                None => None,
            },
            model: self.model.clone(),
            api_format: self.api_format.clone(),
        }
    }
}

/// The texts of a list without the white space around them, those that are left
/// empty left out.
pub open spec fn filled(s: Seq<Seq<char>>) -> Seq<Seq<char>> {
    s.map_values(|t: Seq<char>| text::trim_of(t)).filter(|t: Seq<char>| t.len() > 0)
}

fn keep_filled(v: &Vec<String>) -> (r: Vec<String>)
    ensures
        text::texts(r@) == filled(text::texts(v@)),
{
    let ghost p = |t: Seq<char>| t.len() > 0;
    let ghost all = text::texts(v@).map_values(|t: Seq<char>| text::trim_of(t));
    let mut r: Vec<String> = Vec::new();
    let n: usize = v.len();
    proof {
        reveal(Seq::filter);
        assert(text::texts(r@) =~= all.take(0).filter(p));
    }
    for i in 0..n
        invariant
            n == v@.len(),
            all.len() == n,
            p == (|t: Seq<char>| t.len() > 0),
            all == text::texts(v@).map_values(|t: Seq<char>| text::trim_of(t)),
            text::texts(r@) == all.take(i as int).filter(p),
    {
        let t = trimmed(v[i].as_str());
        let empty = t.as_str().is_empty();
        proof {
            text::lemma_filter_take(all, i as int, p);
            text::lemma_texts_push(r@, t);
            assert(all[i as int] == t@);
        }
        if !empty {
            r.push(t);
        }
    }
    assert(all.take(n as int) =~= all);
    r
}

/// The models that a channel offers.
pub open spec fn offered(p: ProviderView) -> Seq<Seq<char>> {
    match p.enabled_models {
        Some(v) => filled(v),
        None => filled(p.model_list),
    }
}

impl ProviderConfig {
    /// The models that the pickers offer for this channel.
    pub fn effective_enabled_models(&self) -> (r: Vec<String>)
        ensures
            text::texts(r@) == offered(self@),
    {
        match &self.enabled_models {
            Some(v) => keep_filled(v),
            None => keep_filled(&self.model_list),
        }
    }
}

/// The settings of all channels.
#[derive(Debug)]
pub struct ProviderConfigs {
    pub deepseek: ProviderConfig,
    pub openai: ProviderConfig,
    pub anthropic: ProviderConfig,
    pub ollama: ProviderConfig,
}

impl View for ProviderConfigs {
    type V = Map<Channel, ProviderView>;

    /// The settings by channel.
    open spec fn view(&self) -> Map<Channel, ProviderView> {
        Map::new(|c: Channel| true, |c: Channel| self.of(c)@)
    }
}

impl ProviderConfigs {
    /// The settings of one channel.
    pub open spec fn of(&self, c: Channel) -> ProviderConfig {
        match c {
            Channel::Deepseek => self.deepseek,
            Channel::Openai => self.openai,
            Channel::Anthropic => self.anthropic,
            Channel::Ollama => self.ollama,
        }
    }

    /// Every channel with its name, in the order of [`CHANNELS`].
    pub fn iter(&self) -> (r: Vec<(&'static str, &ProviderConfig)>)
        ensures
            r@.len() == 4,
            forall|i: int| 0 <= i < 4 ==> (#[trigger] r@[i]).0@ == CHANNELS@[i]@,
            *r@[0].1 == self.deepseek,
            *r@[1].1 == self.openai,
            *r@[2].1 == self.anthropic,
            *r@[3].1 == self.ollama,
    {
        let mut r: Vec<(&'static str, &ProviderConfig)> = Vec::new();
        r.push(("deepseek", &self.deepseek));
        r.push(("openai", &self.openai));
        r.push(("anthropic", &self.anthropic));
        r.push(("ollama", &self.ollama));
        r
    }

    /// Every channel with its name, to be changed, in the order of [`CHANNELS`].
    pub fn iter_mut(&mut self) -> (r: Vec<(&'static str, &mut ProviderConfig)>)
        ensures
            r@.len() == 4,
            forall|i: int| 0 <= i < 4 ==> (#[trigger] r@[i]).0@ == CHANNELS@[i]@,
            *r@[0].1 == old(self).deepseek,
            *r@[1].1 == old(self).openai,
            *r@[2].1 == old(self).anthropic,
            *r@[3].1 == old(self).ollama,
            final(self).deepseek == *final(r@[0].1),
            final(self).openai == *final(r@[1].1),
            final(self).anthropic == *final(r@[2].1),
            final(self).ollama == *final(r@[3].1),
    {
        let mut r: Vec<(&'static str, &mut ProviderConfig)> = Vec::new();
        r.push(("deepseek", &mut self.deepseek));
        r.push(("openai", &mut self.openai));
        r.push(("anthropic", &mut self.anthropic));
        r.push(("ollama", &mut self.ollama));
        r
    }

    /// The settings of the channel that `key` names.
    pub fn get(&self, key: &str) -> (r: Option<&ProviderConfig>)
        ensures
            match channel_named(key@) {
                Some(c) => r is Some && *r->0 == self.of(c),
                None => r is None,
            },
    {
        match channel_of(key) {
            Some(Channel::Deepseek) => Some(&self.deepseek),
            Some(Channel::Openai) => Some(&self.openai),
            Some(Channel::Anthropic) => Some(&self.anthropic),
            Some(Channel::Ollama) => Some(&self.ollama),
            None => None,
        }
    }
}

/// A channel as it is set at first.
pub open spec fn initial(c: Channel) -> ProviderView {
    ProviderView { base_url: base_url_of(c), enabled: c == Channel::Deepseek, ..unset() }
}

impl Default for ProviderConfigs {
    fn default() -> (r: Self)
        ensures
            forall|c: Channel| #[trigger] r.of(c)@ == initial(c),
    {
        let mut deepseek = ProviderConfig::default();
        deepseek.base_url = DEFAULT_DEEPSEEK_BASE_URL.to_string();
        deepseek.enabled = true;
        let mut openai = ProviderConfig::default();
        openai.base_url = DEFAULT_OPENAI_BASE_URL.to_string();
        let mut anthropic = ProviderConfig::default();
        anthropic.base_url = DEFAULT_ANTHROPIC_BASE_URL.to_string();
        let mut ollama = ProviderConfig::default();
        ollama.base_url = DEFAULT_OLLAMA_BASE_URL.to_string();
        ProviderConfigs { deepseek, openai, anthropic, ollama }
    }
}

impl Clone for ProviderConfigs {
    fn clone(&self) -> (r: Self)
        ensures
            forall|c: Channel| #[trigger] r.of(c)@ == self.of(c)@,
    {
        ProviderConfigs {
            deepseek: self.deepseek.clone(),
            openai: self.openai.clone(),
            anthropic: self.anthropic.clone(),
            ollama: self.ollama.clone(),
        }
    }
}

/// Every accessor agrees on the channels: each name that is listed names a
/// channel, and each channel is listed under its name.
pub proof fn law_channels_are_listed(c: Channel, i: int)
    requires
        0 <= i < 4,
    ensures
        channel_named(CHANNELS@[i]@) is Some,
        channel_named(name_of(c)) == Some(c),
        exists|j: int| 0 <= j < 4 && #[trigger] CHANNELS@[j]@ == name_of(c),
{
    lemma_names_differ();
    let j: int = match c {
        Channel::Deepseek => 0,
        Channel::Openai => 1,
        Channel::Anthropic => 2,
        Channel::Ollama => 3,
    };
    assert(CHANNELS@[j]@ == name_of(c));
}

/// Whether a list has a model, blanks around it aside.
pub open spec fn lists_model(list: Seq<Seq<char>>, model: Seq<char>) -> bool {
    exists|i: int| 0 <= i < list.len() && text::trim_of(#[trigger] list[i]) == model
}

proof fn lemma_filled(list: Seq<Seq<char>>, model: Seq<char>)
    ensures
        filled(list).contains(model) <==> model.len() > 0 && lists_model(list, model),
{
    let t = list.map_values(|x: Seq<char>| text::trim_of(x));
    let keeps = |x: Seq<char>| x.len() > 0;
    assert(filled(list) == t.filter(keeps));
    if filled(list).contains(model) {
        let k = choose|k: int| 0 <= k < filled(list).len() && filled(list)[k] == model;
        t.lemma_filter_pred(keeps, k);
        t.lemma_filter_contains_rev(keeps, model);
        let i = choose|i: int| 0 <= i < t.len() && t[i] == model;
        assert(text::trim_of(list[i]) == model);
    }
    if model.len() > 0 && lists_model(list, model) {
        let i = choose|i: int| 0 <= i < list.len() && text::trim_of(#[trigger] list[i]) == model;
        assert(t[i] == model);
        t.lemma_filter_contains(keeps, i);
    }
}

/// A model is offered exactly where the list that counts has it, blanks aside: the list of
/// the models that are switched on where there is one, else the list of all.
pub proof fn law_listed_models_are_offered(p: ProviderView, model: Seq<char>)
    ensures
        p.enabled_models matches Some(list) ==> (offered(p).contains(model) <==> model.len() > 0
            && lists_model(list, model)),
        p.enabled_models is None ==> (offered(p).contains(model) <==> model.len() > 0
            && lists_model(p.model_list, model)),
{
    lemma_filled(p.model_list, model);
    if let Some(list) = p.enabled_models {
        lemma_filled(list, model);
    }
}

} // verus!
