//! Deciding what is remembered and what is recalled.
//!
//! What is recalled goes into a prompt, so it must come from the same conversation: a
//! scribe that belongs to none recalls nothing, unless it is told to look everywhere.

use crate::memory::fact;
use crate::memory::fact::{extract_facts, Fact};
use crate::memory::raw::RawMessage;
use crate::text;
use crate::text::{cat3, copy_option};
use vstd::prelude::*;
use vstd::string::*;

verus! {

/// How many days messages are kept.
pub const RAW_RETENTION_DAYS: i64 = 90;

/// How many of the latest facts patterns are made of.
pub const RECENT_FACTS: usize = 50;

/// A scribe: whether it has a store, and the conversation that it belongs to.
#[derive(Debug)]
pub struct Scribe {
    pub has_store: bool,
    pub session_id: Option<String>,
}

/// What to look for.
#[derive(Debug, PartialEq, Eq)]
pub enum Recall {
    /// Nothing.
    Nothing,
    /// What is remembered of a conversation.
    Session(String),
    /// All that is remembered.
    Everything,
}

/// What to look for, as a value.
#[verifier::ext_equal]
pub enum RecallView {
    Nothing,
    Session(Seq<char>),
    Everything,
}

impl View for Recall {
    type V = RecallView;

    open spec fn view(&self) -> RecallView {
        match self {
            Recall::Nothing => RecallView::Nothing,
            Recall::Session(s) => RecallView::Session(s@),
            Recall::Everything => RecallView::Everything,
        }
    }
}

/// What to look for, by whether there is a store and which conversation is asked
/// about.
pub open spec fn scope(has_store: bool, session: Option<Seq<char>>) -> RecallView {
    if !has_store {
        RecallView::Nothing
    } else {
        match session {
            Some(s) => RecallView::Session(s),
            None => RecallView::Everything,
        }
    }
}

/// What to keep of a turn.
#[derive(Debug)]
pub struct Ingest {
    pub raw: RawMessage,
    pub facts: Vec<Fact>,
}

impl Scribe {
    /// A scribe that belongs to no conversation.
    pub fn new() -> (r: Self)
        ensures
            r.has_store,
            r.session_id is None,
    {
        Scribe { has_store: true, session_id: None }
    }

    /// A scribe of a conversation.
    pub fn for_session(session_id: &str) -> (r: Self)
        ensures
            r.has_store,
            text::opt_text(r.session_id) == Some(session_id@),
    {
        Scribe { has_store: true, session_id: Some(session_id.to_string()) }
    }

    /// A scribe without a store.
    pub fn disabled() -> (r: Self)
        ensures
            !r.has_store,
            r.session_id is None,
    {
        Scribe { has_store: false, session_id: None }
    }

    fn scoped(&self, session: Option<String>) -> (r: Recall)
        ensures
            r@ == scope(self.has_store, text::opt_text(session)),
    {
        if !self.has_store {
            return Recall::Nothing;
        }
        match session {
            Some(s) => Recall::Session(s),
            None => Recall::Everything,
        }
    }

    /// Says what to look for: what is remembered of the conversation that the scribe
    /// belongs to, and nothing where it belongs to none.
    pub fn recall(&self) -> (r: Recall)
        ensures
            r@ == (match text::opt_text(self.session_id) {
                Some(s) => scope(self.has_store, Some(s)),
                None => RecallView::Nothing,
            }),
    {
        match &self.session_id {
            Some(_) => self.scoped(copy_option(&self.session_id)),
            None => Recall::Nothing,
        }
    }

    /// Says what to look for: what is remembered of a conversation.
    pub fn recall_for_session(&self, session_id: &str) -> (r: Recall)
        ensures
            r@ == scope(self.has_store, Some(session_id@)),
    {
        self.scoped(Some(session_id.to_string()))
    }

    /// Says what to look for: all that is remembered.
    pub fn recall_global(&self) -> (r: Recall)
        ensures
            r@ == scope(self.has_store, None),
    {
        self.scoped(None)
    }

    /// Says what to keep of a turn; nothing where there is no store.
    pub fn ingest_turn(&self, session_id: &str, role: &str, content: &str) -> (r: Option<Ingest>)
        ensures
            match r {
                Some(i) => self.has_store && i.raw.id@.len() == 36 && i.raw.session_id@ == session_id@
                    && i.raw.role@ == role@
                    && i.raw.content@ == content@ && fact::triples(i.facts@) == fact::facts_of(
                    content@,
                ) && forall|k: int|
                    0 <= k < i.facts@.len() ==> fact::is_taken_in(
                        #[trigger] i.facts@[k],
                        session_id@,
                    ),
                None => !self.has_store,
            },
    {
        if !self.has_store {
            return None;
        }
        Some(
            Ingest {
                raw: RawMessage::new(session_id, role, content),
                facts: extract_facts(session_id, content),
            },
        )
    }
}

/// A fact that was found, with its score as text.
#[derive(Debug)]
pub struct Hit {
    pub score: String,
    pub subject: String,
    pub predicate: String,
    pub object: String,
}

/// What is said of a fact that was found.
pub open spec fn hit_text(h: Hit) -> Seq<char> {
    "["@ + h.score@ + "] "@ + h.subject@ + " — "@ + h.predicate@ + " — "@ + h.object@
}

/// What is said of the facts that were found.
pub fn render(hits: &Vec<Hit>) -> (r: Vec<String>)
    ensures
        text::texts(r@) == hits@.map_values(|h: Hit| hit_text(h)),
{
    let ghost all = hits@.map_values(|h: Hit| hit_text(h));
    let n: usize = hits.len();
    let mut r: Vec<String> = Vec::new();
    assert(text::texts(r@) =~= all.take(0));
    for i in 0..n
        invariant
            n == hits@.len(),
            all == hits@.map_values(|h: Hit| hit_text(h)),
            text::texts(r@) == all.take(i as int),
    {
        let h = &hits[i];
        let t = cat3("[", h.score.as_str(), "] ").concat(h.subject.as_str()).concat(" — ").concat(
            h.predicate.as_str(),
        ).concat(" — ").concat(h.object.as_str());
        proof {
            text::lemma_texts_push(r@, t);
            assert(all.take(i + 1) =~= all.take(i as int).push(all[i as int]));
        }
        r.push(t);
    }
    assert(all.take(n as int) =~= all);
    r
}

/// The moment before which messages are dropped, in seconds; none where all are kept.
pub fn prune_cutoff(now: i64, days: i64) -> (r: Option<i64>)
    requires
        days > 0 ==> now - days * 86_400 >= i64::MIN && days * 86_400 <= i64::MAX,
    ensures
        match r {
            Some(t) => days > 0 && t == now - days * 86_400,
            None => days <= 0,
        },
{
    if days <= 0 {
        return None;
    }
    Some(now - days * 86_400)
}

/// A scribe that belongs to no conversation recalls nothing by itself, and one that
/// belongs to a conversation never recalls another; only one that is told to look
/// everywhere does.
pub proof fn law_recall_stays_in_its_session(has_store: bool, session: Seq<char>, other: Seq<char>)
    requires
        session != other,
    ensures
        scope(has_store, Some(session)) != RecallView::Session(other),
        scope(has_store, Some(session)) != RecallView::Everything,
        scope(false, Some(session)) == RecallView::Nothing,
{
}

} // verus!
