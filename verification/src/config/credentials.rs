//! The secrets of the channels, kept apart from the settings.
//!
//! They stand in a file of their own in the program's directory, readable by its
//! owner alone. Nothing that an agent can reach names that file, and no secret is
//! put into the environment of a child process.

use crate::config::settings::{data_dir_below, ConfigError};
use crate::extensions::paths;
use crate::extensions::paths::PathPart;
use crate::text;
use crate::text::{chars_of, trim, trimmed};
use crate::text_map::TextMap;
use vstd::prelude::*;

verus! {

/// The file of the secrets. Its name is private to this module.
const CREDENTIALS_FILE: &'static str = ".credentials.yaml";

/// Secrets by channel. Any name may stand here, so that a channel that this
/// build does not know is not lost.
#[derive(Debug, Clone)]
pub struct Credentials {
    pub providers: TextMap,
}

impl Default for Credentials {
    fn default() -> (r: Self)
        ensures
            r.providers@ == Map::<Seq<char>, Seq<char>>::empty(),
    {
        Credentials { providers: TextMap::new() }
    }
}

/// The secret under a name, without white space around it: empty where none is
/// set.
pub open spec fn stored(m: Map<Seq<char>, Seq<char>>, channel: Seq<char>) -> Seq<char> {
    if m.contains_key(channel) {
        text::trim_of(m[channel])
    } else {
        ""@
    }
}

/// The secrets once `key` is set for `channel`: an empty one removes the entry.
pub open spec fn with_key(m: Map<Seq<char>, Seq<char>>, channel: Seq<char>, key: Seq<char>) -> Map<
    Seq<char>,
    Seq<char>,
> {
    if text::trim_of(key).len() == 0 {
        m.remove(channel)
    } else {
        m.insert(channel, text::trim_of(key))
    }
}

impl Credentials {
    /// The secret of `channel`; empty where none is set.
    pub fn get(&self, channel: &str) -> (r: String)
        ensures
            r@ == stored(self.providers@, channel@),
    {
        match self.providers.get(channel) {
            Some(s) => trimmed(s.as_str()),
            None => "".to_string(),
        }
    }

    /// Sets the secret of `channel`. An empty one removes the entry.
    pub fn set(&mut self, channel: &str, key: &str)
        ensures
            final(self).providers@ == with_key(old(self).providers@, channel@, key@),
    {
        let key = trimmed(key);
        if key.as_str().is_empty() {
            self.providers.remove(channel);
        } else {
            self.providers.insert(channel.to_string(), key);
        }
    }

    /// Whether the text of the file holds no secrets at all: it is empty or white
    /// space, and is not read as a document.
    pub fn is_blank(content: &str) -> (r: bool)
        ensures
            r == (text::trim_of(content@).len() == 0),
    {
        let chars = chars_of(content);
        trim(chars.as_slice()).len() == 0
    }

    /// Where the secrets are kept, below the home directory.
    pub fn path(home: &Option<Vec<PathPart>>) -> (r: Result<Vec<PathPart>, ConfigError>)
        ensures
            match *home {
                Some(h) => r is Ok && paths::path_view(r->Ok_0@) == paths::path_view(h@).push(
                    paths::PartView::Normal(".dscode"@),
                ).push(paths::PartView::Normal(".credentials.yaml"@)),
                None => r is Err && r->Err_0 is NoHomeDir,
            },
    {
        match home {
            Some(h) => {
                let mut p = data_dir_below(h);
                let ghost before = p@;
                p.push(PathPart::Normal(CREDENTIALS_FILE.to_string()));
                assert(paths::path_view(p@) =~= paths::path_view(before).push(p@.last()@));
                Ok(p)
            },
            None => Err(ConfigError::NoHomeDir),
        }
    }
}

/// A secret that was set is the secret that is got, without white space around
/// it, and no other channel's secret changes.
pub proof fn law_set_key_is_got(
    m: Map<Seq<char>, Seq<char>>,
    channel: Seq<char>,
    key: Seq<char>,
    other: Seq<char>,
)
    ensures
        stored(with_key(m, channel, key), channel) == text::trim_of(key),
        other != channel ==> stored(with_key(m, channel, key), other) == stored(m, other),
        text::trim_of(key).len() == 0 ==> !with_key(m, channel, key).contains_key(channel),
{
    text::lemma_trim_twice(key);
    reveal_strlit("");
    assert(""@ =~= Seq::<char>::empty());
    if text::trim_of(key).len() == 0 {
        assert(text::trim_of(key) =~= ""@);
    }
}

} // verus!
