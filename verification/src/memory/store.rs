//! The statements of the memory database.
//!
//! A store is a SQLite database: the messages as they were, the facts taken from
//! them, the patterns that the facts make, and an index of the facts for full text
//! search. What is here says which statements to run and with which values; the
//! caller owns the connection. A list of statements is run in one transaction, so
//! that the facts and their index never disagree.

use crate::json;
use crate::json::json_texts;
use crate::memory::fact::Fact;
use crate::memory::fts;
use crate::memory::fts::{build_match_query, like_pattern, query_tokens};
use crate::memory::pattern::Pattern;
use crate::memory::raw::RawMessage;
use crate::memory::scribe::{prune_cutoff, Recall};
use crate::text;
use crate::text::cat3;
use vstd::prelude::*;
use vstd::string::*;

verus! {

/// The version of the tables.
pub const SCHEMA_VERSION: i64 = 1;

/// What is set on every connection.
pub const PRAGMAS: &'static str = "PRAGMA journal_mode=WAL; PRAGMA foreign_keys=ON;";

/// The tables and their indexes.
pub const SCHEMA_DDL: &'static str = "CREATE TABLE IF NOT EXISTS raw_messages (id TEXT PRIMARY KEY, session_id TEXT NOT NULL, role TEXT NOT NULL, content TEXT NOT NULL, created_at INTEGER NOT NULL); CREATE TABLE IF NOT EXISTS facts (id TEXT PRIMARY KEY, session_id TEXT NOT NULL, subject TEXT NOT NULL, predicate TEXT NOT NULL, object TEXT NOT NULL, confidence REAL NOT NULL DEFAULT 0.7, created_at INTEGER NOT NULL); CREATE UNIQUE INDEX IF NOT EXISTS idx_facts_spo ON facts(session_id, subject, predicate, object); CREATE INDEX IF NOT EXISTS idx_facts_spo_obj ON facts(subject, predicate, object); CREATE TABLE IF NOT EXISTS patterns (id TEXT PRIMARY KEY, name TEXT NOT NULL UNIQUE, description TEXT NOT NULL, occurrence_count INTEGER NOT NULL DEFAULT 1, last_seen_at INTEGER NOT NULL, tags TEXT NOT NULL DEFAULT '[]'); CREATE INDEX IF NOT EXISTS idx_facts_session ON facts(session_id); CREATE INDEX IF NOT EXISTS idx_raw_session ON raw_messages(session_id); CREATE INDEX IF NOT EXISTS idx_raw_created ON raw_messages(created_at); CREATE UNIQUE INDEX IF NOT EXISTS idx_patterns_name ON patterns(name);";

/// The index for full text search.
pub const FTS_DDL: &'static str = "CREATE VIRTUAL TABLE IF NOT EXISTS memory_fts USING fts5(subject, predicate, object, content, tokenize='porter');";

/// Indexes the facts that are not in the index.
pub const SCHEMA_BACKFILL: &'static str = "INSERT INTO memory_fts (subject, predicate, object, content) SELECT f.subject, f.predicate, f.object, f.subject || ' ' || f.predicate || ' ' || f.object FROM facts f WHERE NOT EXISTS (SELECT 1 FROM memory_fts m WHERE m.subject = f.subject AND m.predicate = f.predicate AND m.object = f.object);";

/// Records the version of the tables.
pub const SET_VERSION: &'static str = "PRAGMA user_version = 1;";

/// Keeps a message.
pub const INSERT_RAW: &'static str = "INSERT OR REPLACE INTO raw_messages (id, session_id, role, content, created_at) VALUES (?1, ?2, ?3, ?4, ?5)";

/// Drops the messages from before a moment.
pub const PRUNE_RAW: &'static str = "DELETE FROM raw_messages WHERE created_at < ?1";

/// Takes a triple out of the index.
pub const UNINDEX: &'static str = "DELETE FROM memory_fts WHERE subject = ?1 AND predicate = ?2 AND object = ?3";

/// Keeps a fact. One that the conversation already has becomes as recent, and as
/// certain as the more certain of the two.
pub const INSERT_FACT: &'static str = "INSERT INTO facts (id, session_id, subject, predicate, object, confidence, created_at) VALUES (?1, ?2, ?3, ?4, ?5, ?6, ?7) ON CONFLICT(session_id, subject, predicate, object) DO UPDATE SET confidence = MAX(facts.confidence, excluded.confidence), created_at = excluded.created_at";

/// Puts a triple into the index.
pub const INDEX: &'static str = "INSERT INTO memory_fts (subject, predicate, object, content) VALUES (?1, ?2, ?3, ?4)";

/// Keeps a pattern. One of the same name is counted on.
pub const INSERT_PATTERN: &'static str = "INSERT INTO patterns (id, name, description, occurrence_count, last_seen_at, tags) VALUES (?1, ?2, ?3, ?4, ?5, ?6) ON CONFLICT(name) DO UPDATE SET description = excluded.description, occurrence_count = patterns.occurrence_count + excluded.occurrence_count, last_seen_at = excluded.last_seen_at, tags = excluded.tags";

/// The latest facts of a conversation.
pub const LIST_FACTS: &'static str = "SELECT id, session_id, subject, predicate, object, confidence, created_at FROM facts WHERE session_id = ?1 ORDER BY created_at DESC LIMIT ?2";

/// The facts that a search expression finds, the best first. The index is shared by
/// all conversations, so a hit counts for one only where the conversation has the
/// fact.
pub const SEARCH: &'static str = "SELECT subject, predicate, object, bm25(memory_fts) as score FROM memory_fts WHERE memory_fts MATCH ?1 AND (?2 IS NULL OR EXISTS (SELECT 1 FROM facts f WHERE f.subject = memory_fts.subject AND f.predicate = memory_fts.predicate AND f.object = memory_fts.object AND f.session_id = ?2)) ORDER BY score LIMIT ?3";

/// The facts that hold a text, the latest first.
pub const SEARCH_LEXICAL: &'static str = "SELECT subject, predicate, object FROM facts WHERE (?1 IS NULL OR session_id = ?1) AND (subject LIKE ?2 OR predicate LIKE ?2 OR object LIKE ?2) ORDER BY created_at DESC LIMIT ?3";

/// A value in a statement.
#[derive(Debug, Clone, PartialEq, Eq)]
pub enum SqlValue {
    Absent,
    Text(String),
    Int(i64),
    /// How many rows at most.
    Count(usize),
    /// A number in hundredths.
    Hundredths(u32),
}

/// A value in a statement, as a value.
#[verifier::ext_equal]
pub ghost enum SqlValueView {
    Absent,
    Text(Seq<char>),
    Int(i64),
    Count(usize),
    Hundredths(u32),
}

impl View for SqlValue {
    type V = SqlValueView;

    open spec fn view(&self) -> SqlValueView {
        match self {
            SqlValue::Absent => SqlValueView::Absent,
            SqlValue::Text(s) => SqlValueView::Text(s@),
            SqlValue::Int(n) => SqlValueView::Int(*n),
            SqlValue::Count(n) => SqlValueView::Count(*n),
            SqlValue::Hundredths(n) => SqlValueView::Hundredths(*n),
        }
    }
}

/// A statement and its values, the first for `?1`.
#[derive(Debug)]
pub struct Statement {
    pub sql: &'static str,
    pub values: Vec<SqlValue>,
}

/// A statement, as a value.
#[verifier::ext_equal]
pub ghost struct StatementView {
    pub sql: Seq<char>,
    pub values: Seq<SqlValueView>,
}

/// The values of a statement.
pub open spec fn value_views(v: Seq<SqlValue>) -> Seq<SqlValueView> {
    v.map_values(|x: SqlValue| x@)
}

impl View for Statement {
    type V = StatementView;

    open spec fn view(&self) -> StatementView {
        StatementView { sql: self.sql@, values: value_views(self.values@) }
    }
}

/// The values of some statements.
pub open spec fn statement_views(v: Seq<Statement>) -> Seq<StatementView> {
    v.map_values(|s: Statement| s@)
}

/// An optional statement, as a value.
pub open spec fn opt_statement(o: Option<Statement>) -> Option<StatementView> {
    match o {
        Some(s) => Some(s@),
        None => None,
    }
}

/// A text that may be missing.
pub open spec fn opt_value(o: Option<Seq<char>>) -> SqlValueView {
    match o {
        Some(s) => SqlValueView::Text(s),
        None => SqlValueView::Absent,
    }
}

fn opt_text_value(o: &Option<String>) -> (r: SqlValue)
    ensures
        r@ == opt_value(text::opt_text(*o)),
{
    match o {
        Some(s) => SqlValue::Text(s.clone()),
        None => SqlValue::Absent,
    }
}

fn text_value(s: &str) -> (r: SqlValue)
    ensures
        r@ == SqlValueView::Text(s@),
{
    SqlValue::Text(s.to_string())
}

/// The statements of the store.
#[derive(Debug)]
pub struct MemoryStore;

/// What keeping a fact does: the triple leaves the index, the fact is kept, and the
/// triple is indexed anew.
pub open spec fn fact_statements(f: Fact) -> Seq<StatementView> {
    let triple = seq![
        SqlValueView::Text(f.subject@),
        SqlValueView::Text(f.predicate@),
        SqlValueView::Text(f.object@),
    ];
    seq![
        StatementView { sql: UNINDEX@, values: triple },
        StatementView {
            sql: INSERT_FACT@,
            values: seq![
                SqlValueView::Text(f.id@),
                SqlValueView::Text(f.session_id@),
                SqlValueView::Text(f.subject@),
                SqlValueView::Text(f.predicate@),
                SqlValueView::Text(f.object@),
                SqlValueView::Hundredths(f.confidence),
                SqlValueView::Int(f.created_at),
            ],
        },
        StatementView {
            sql: INDEX@,
            values: triple.push(
                SqlValueView::Text(
                    f.subject@ + " "@ + f.predicate@ + " "@ + f.object@,
                ),
            ),
        },
    ]
}

/// The full text search for a query, in one conversation or in all; none where the
/// query has no terms.
pub open spec fn search_statement(
    query: Seq<char>,
    session: Option<Seq<char>>,
    limit: usize,
) -> Option<StatementView> {
    match fts::expression_of(fts::terms_of(query)) {
        Some(e) => Some(
            StatementView {
                sql: SEARCH@,
                values: seq![
                    SqlValueView::Text(e),
                    opt_value(session),
                    SqlValueView::Count(limit),
                ],
            },
        ),
        None => None,
    }
}

/// The search for the longest term of a query, in one conversation or in all; none
/// where the query has no terms.
pub open spec fn lexical_statement(
    query: Seq<char>,
    session: Option<Seq<char>>,
    limit: usize,
) -> Option<StatementView> {
    let terms = fts::terms_of(query);
    if terms.len() == 0 {
        None
    } else {
        Some(
            StatementView {
                sql: SEARCH_LEXICAL@,
                values: seq![
                    opt_value(session),
                    SqlValueView::Text(
                        "%"@ + terms[fts::longest_at(terms, terms.len() as int)] + "%"@,
                    ),
                    SqlValueView::Count(limit),
                ],
            },
        )
    }
}

impl MemoryStore {
    /// The batches that bring a database of a version up to date, in one
    /// transaction. The index is there before it is filled, and the version comes
    /// last.
    pub fn init(version: i64) -> (r: Vec<&'static str>)
        ensures
            r@.map_values(|s: &'static str| s@) == (if version < SCHEMA_VERSION {
                seq![SCHEMA_DDL@, FTS_DDL@, SCHEMA_BACKFILL@, SET_VERSION@]
            } else {
                Seq::empty()
            }),
    {
        let mut r: Vec<&'static str> = Vec::new();
        if version < SCHEMA_VERSION {
            r.push(SCHEMA_DDL);
            r.push(FTS_DDL);
            r.push(SCHEMA_BACKFILL);
            r.push(SET_VERSION);
            assert(r@.map_values(|s: &'static str| s@) =~= seq![
                SCHEMA_DDL@,
                FTS_DDL@,
                SCHEMA_BACKFILL@,
                SET_VERSION@,
            ]);
        } else {
            assert(r@.map_values(|s: &'static str| s@) =~= Seq::empty());
        }
        r
    }

    /// Keeps a message.
    pub fn insert_raw(msg: &RawMessage) -> (r: Statement)
        ensures
            r@ == (StatementView {
                sql: INSERT_RAW@,
                values: seq![
                    SqlValueView::Text(msg.id@),
                    SqlValueView::Text(msg.session_id@),
                    SqlValueView::Text(msg.role@),
                    SqlValueView::Text(msg.content@),
                    SqlValueView::Int(msg.created_at),
                ],
            }),
    {
        let mut values: Vec<SqlValue> = Vec::new();
        values.push(text_value(msg.id.as_str()));
        values.push(text_value(msg.session_id.as_str()));
        values.push(text_value(msg.role.as_str()));
        values.push(text_value(msg.content.as_str()));
        values.push(SqlValue::Int(msg.created_at));
        assert(value_views(values@) =~= seq![
            SqlValueView::Text(msg.id@),
            SqlValueView::Text(msg.session_id@),
            SqlValueView::Text(msg.role@),
            SqlValueView::Text(msg.content@),
            SqlValueView::Int(msg.created_at),
        ]);
        Statement { sql: INSERT_RAW, values }
    }

    /// Drops the messages that are more than `days` days old at `now`; none where
    /// all are kept.
    pub fn prune_raw(now: i64, days: i64) -> (r: Option<Statement>)
        requires
            days > 0 ==> now - days * 86_400 >= i64::MIN && days * 86_400 <= i64::MAX,
        ensures
            opt_statement(r) == (if days <= 0 {
                None
            } else {
                Some(
                    StatementView {
                        sql: PRUNE_RAW@,
                        values: seq![SqlValueView::Int((now - days * 86_400) as i64)],
                    },
                )
            }),
    {
        match prune_cutoff(now, days) {
            Some(cutoff) => {
                let mut values: Vec<SqlValue> = Vec::new();
                values.push(SqlValue::Int(cutoff));
                assert(value_views(values@) =~= seq![SqlValueView::Int(cutoff)]);
                Some(Statement { sql: PRUNE_RAW, values })
            },
            None => None,
        }
    }

    /// Keeps a fact, in one transaction.
    pub fn insert_fact(fact: &Fact) -> (r: Vec<Statement>)
        ensures
            statement_views(r@) == fact_statements(*fact),
    {
        let content = cat3(fact.subject.as_str(), " ", fact.predicate.as_str()).concat(
            " ",
        ).concat(fact.object.as_str());
        let mut old: Vec<SqlValue> = Vec::new();
        old.push(text_value(fact.subject.as_str()));
        old.push(text_value(fact.predicate.as_str()));
        old.push(text_value(fact.object.as_str()));
        let mut row: Vec<SqlValue> = Vec::new();
        row.push(text_value(fact.id.as_str()));
        row.push(text_value(fact.session_id.as_str()));
        row.push(text_value(fact.subject.as_str()));
        row.push(text_value(fact.predicate.as_str()));
        row.push(text_value(fact.object.as_str()));
        row.push(SqlValue::Hundredths(fact.confidence));
        row.push(SqlValue::Int(fact.created_at));
        let mut new: Vec<SqlValue> = Vec::new();
        new.push(text_value(fact.subject.as_str()));
        new.push(text_value(fact.predicate.as_str()));
        new.push(text_value(fact.object.as_str()));
        new.push(SqlValue::Text(content));
        proof {
            let want = fact_statements(*fact);
            assert(value_views(old@) =~= want[0].values);
            assert(value_views(row@) =~= want[1].values);
            assert(value_views(new@) =~= want[2].values);
        }
        let mut r: Vec<Statement> = Vec::new();
        r.push(Statement { sql: UNINDEX, values: old });
        r.push(Statement { sql: INSERT_FACT, values: row });
        r.push(Statement { sql: INDEX, values: new });
        assert(statement_views(r@) =~= fact_statements(*fact));
        r
    }

    /// Keeps a pattern.
    pub fn insert_pattern(pat: &Pattern) -> (r: Statement)
        ensures
            r@ == (StatementView {
                sql: INSERT_PATTERN@,
                values: seq![
                    SqlValueView::Text(pat.id@),
                    SqlValueView::Text(pat.name@),
                    SqlValueView::Text(pat.description@),
                    SqlValueView::Int(pat.occurrence_count as i64),
                    SqlValueView::Int(pat.last_seen_at),
                    SqlValueView::Text(json::texts_array(text::texts(pat.tags@))),
                ],
            }),
    {
        let mut values: Vec<SqlValue> = Vec::new();
        values.push(text_value(pat.id.as_str()));
        values.push(text_value(pat.name.as_str()));
        values.push(text_value(pat.description.as_str()));
        values.push(SqlValue::Int(pat.occurrence_count as i64));
        values.push(SqlValue::Int(pat.last_seen_at));
        values.push(SqlValue::Text(json_texts(&pat.tags)));
        assert(value_views(values@) =~= seq![
            SqlValueView::Text(pat.id@),
            SqlValueView::Text(pat.name@),
            SqlValueView::Text(pat.description@),
            SqlValueView::Int(pat.occurrence_count as i64),
            SqlValueView::Int(pat.last_seen_at),
            SqlValueView::Text(json::texts_array(text::texts(pat.tags@))),
        ]);
        Statement { sql: INSERT_PATTERN, values }
    }

    /// The latest facts of a conversation.
    pub fn list_facts(session_id: &str, limit: usize) -> (r: Statement)
        ensures
            r@ == (StatementView {
                sql: LIST_FACTS@,
                values: seq![SqlValueView::Text(session_id@), SqlValueView::Count(limit)],
            }),
    {
        let mut values: Vec<SqlValue> = Vec::new();
        values.push(text_value(session_id));
        values.push(SqlValue::Count(limit));
        assert(value_views(values@) =~= seq![
            SqlValueView::Text(session_id@),
            SqlValueView::Count(limit),
        ]);
        Statement { sql: LIST_FACTS, values }
    }

    /// The full text search for a query, in one conversation or in all; none where
    /// the query has no terms.
    pub fn search(query: &str, session_id: &Option<String>, limit: usize) -> (r: Option<Statement>)
        ensures
            opt_statement(r) == search_statement(query@, text::opt_text(*session_id), limit),
    {
        match build_match_query(query) {
            Some(e) => {
                let mut values: Vec<SqlValue> = Vec::new();
                let ghost shown = e@;
                values.push(SqlValue::Text(e));
                values.push(opt_text_value(session_id));
                values.push(SqlValue::Count(limit));
                assert(value_views(values@) =~= seq![
                    SqlValueView::Text(shown),
                    opt_value(text::opt_text(*session_id)),
                    SqlValueView::Count(limit),
                ]);
                Some(Statement { sql: SEARCH, values })
            },
            None => None,
        }
    }

    /// The search for the longest term of a query, in one conversation or in all;
    /// none where the query has no terms.
    pub fn search_lexical(query: &str, session_id: &Option<String>, limit: usize) -> (r: Option<
        Statement,
    >)
        ensures
            opt_statement(r) == lexical_statement(query@, text::opt_text(*session_id), limit),
    {
        match like_pattern(&query_tokens(query)) {
            Some(p) => {
                let mut values: Vec<SqlValue> = Vec::new();
                let ghost shown = p@;
                values.push(opt_text_value(session_id));
                values.push(SqlValue::Text(p));
                values.push(SqlValue::Count(limit));
                assert(value_views(values@) =~= seq![
                    opt_value(text::opt_text(*session_id)),
                    SqlValueView::Text(shown),
                    SqlValueView::Count(limit),
                ]);
                Some(Statement { sql: SEARCH_LEXICAL, values })
            },
            None => None,
        }
    }

    /// What to run for a recall: the full text search, or the search for a term
    /// where the full text search has failed; nothing where nothing is looked for.
    pub fn look_up(recall: &Recall, query: &str, limit: usize, failed: bool) -> (r: Option<Statement>)
        ensures
            opt_statement(r) == (match *recall {
                Recall::Nothing => None,
                Recall::Session(s) => if failed {
                    lexical_statement(query@, Some(s@), limit)
                } else {
                    search_statement(query@, Some(s@), limit)
                },
                Recall::Everything => if failed {
                    lexical_statement(query@, None, limit)
                } else {
                    search_statement(query@, None, limit)
                },
            }),
    {
        let session: Option<String> = match recall {
            Recall::Nothing => {
                return None;
            },
            Recall::Session(s) => Some(s.clone()),
            Recall::Everything => None,
        };
        if failed {
            MemoryStore::search_lexical(query, &session, limit)
        } else {
            MemoryStore::search(query, &session, limit)
        }
    }
}

/// A search in a conversation hands that conversation to the database, and a search
/// for a query without terms is not run at all.
pub proof fn law_searches_are_scoped(query: Seq<char>, session: Seq<char>, limit: usize)
    ensures
        search_statement(query, Some(session), limit) matches Some(s) ==> s.sql == SEARCH@
            && s.values[1] == SqlValueView::Text(session),
        lexical_statement(query, Some(session), limit) matches Some(s) ==> s.sql
            == SEARCH_LEXICAL@ && s.values[0] == SqlValueView::Text(session),
        search_statement(query, Some(session), limit) is None <==> fts::terms_of(query).len() == 0,
        lexical_statement(query, Some(session), limit) is None <==> fts::terms_of(query).len() == 0,
{
}

/// A fact is stored as it is, each part in its column, and can be found by any of its parts:
/// all of them stand in the text that is searched.
pub proof fn law_fact_is_stored_as_it_is(f: Fact)
    ensures
        ({
            let s = fact_statements(f);
            &&& s.len() == 3
            &&& s[1].sql == INSERT_FACT@
            &&& s[1].values[0] == SqlValueView::Text(f.id@)
            &&& s[1].values[1] == SqlValueView::Text(f.session_id@)
            &&& s[1].values[2] == SqlValueView::Text(f.subject@)
            &&& s[1].values[3] == SqlValueView::Text(f.predicate@)
            &&& s[1].values[4] == SqlValueView::Text(f.object@)
            &&& s[2].sql == INDEX@
            &&& s[2].values[3] matches SqlValueView::Text(t) && text::has_part(t, f.subject@)
                && text::has_part(t, f.predicate@) && text::has_part(t, f.object@)
        }),
{
    let none = Seq::<char>::empty();
    let a = f.subject@;
    let b = f.predicate@;
    let c = f.object@;
    let sp = " "@;
    let t = a + sp + b + sp + c;
    assert(text::has_part(t, a)) by {
        text::lemma_part_at(none, a, sp + b + sp + c);
        assert(none + a + (sp + b + sp + c) =~= t);
    }
    assert(text::has_part(t, b)) by {
        text::lemma_part_at(a + sp, b, sp + c);
        assert(a + sp + b + (sp + c) =~= t);
    }
    assert(text::has_part(t, c)) by {
        text::lemma_part_at(a + sp + b + sp, c, none);
        assert(a + sp + b + sp + c + none =~= t);
    }
}

} // verus!
