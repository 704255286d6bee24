//! What is remembered and what is recalled.

use dscode_core::memory::fact::{contains_word, extract_facts, strip_code_blocks, Fact};
use dscode_core::memory::fts::{build_match_query, like_pattern, match_any, query_tokens};
use dscode_core::memory::pattern::promote_patterns;
use dscode_core::memory::raw::RawMessage;
use dscode_core::memory::scribe::{prune_cutoff, render, Hit, Recall, Scribe};
use dscode_core::memory::store::{MemoryStore, SqlValue, Statement, FTS_DDL, PRAGMAS};
use rusqlite::types::Value;
use rusqlite::{params_from_iter, Connection};

fn bound(values: &[SqlValue]) -> Vec<Value> {
    values
        .iter()
        .map(|v| match v {
            SqlValue::Absent => Value::Null,
            SqlValue::Text(s) => Value::Text(s.clone()),
            SqlValue::Int(n) => Value::Integer(*n),
            SqlValue::Count(n) => Value::Integer(*n as i64),
            SqlValue::Hundredths(n) => Value::Real(*n as f64 / 100.0),
        })
        .collect()
}

fn run(conn: &Connection, s: &Statement) {
    conn.execute(s.sql, params_from_iter(bound(&s.values))).unwrap();
}

/// The triples that a search finds.
fn hits(conn: &Connection, s: Option<Statement>) -> Result<Vec<String>, rusqlite::Error> {
    let s = match s {
        Some(s) => s,
        None => return Ok(vec![]),
    };
    let mut stmt = conn.prepare(s.sql)?;
    let rows = stmt.query_map(params_from_iter(bound(&s.values)), |row| {
        Ok(format!(
            "{} {} {}",
            row.get::<_, String>(0)?,
            row.get::<_, String>(1)?,
            row.get::<_, String>(2)?
        ))
    })?;
    rows.collect()
}

fn search(
    conn: &Connection,
    query: &str,
    session: Option<&str>,
    limit: usize,
) -> Result<Vec<String>, rusqlite::Error> {
    hits(conn, MemoryStore::search(query, &session.map(|s| s.to_string()), limit))
}

fn open() -> Connection {
    let conn = Connection::open_in_memory().unwrap();
    conn.execute_batch(PRAGMAS).unwrap();
    for batch in MemoryStore::init(0) {
        conn.execute_batch(batch).unwrap();
    }
    conn
}

fn keep(conn: &Connection, session: &str, s: &str, p: &str, o: &str) {
    for statement in MemoryStore::insert_fact(&Fact::new(session, s, p, o)) {
        run(conn, &statement);
    }
}

fn seeded() -> Connection {
    let conn = open();
    // Shaped like what the pipeline actually stores: extracted language
    // signals plus verbatim decision/rule lines from the conversation.
    keep(&conn, "A", "project", "uses", "language:rust");
    keep(&conn, "A", "project", "uses", "framework:tokio");
    keep(&conn, "A", "rule", "states", "never panic in the parser");
    keep(&conn, "A", "decision", "states", "we decided to add tests for TODO handling");
    keep(&conn, "A", "rule", "states", "read src/main.rs before editing");
    keep(&conn, "A", "rule", "states", "use node for the build tooling");
    conn
}

#[test]
fn language_signal_requires_a_word_boundary() {
    // Substrings of other words must not claim a language.
    assert!(extract_facts("s", "this is a rusty reactor, very pythonic").is_empty());
    // A whole word does.
    let f = extract_facts("s", "we should use rust for this service");
    assert!(f.iter().any(|x| x.object == "language:rust"));
    // CJK-adjacent still counts as a boundary.
    let f = extract_facts("s", "这段用python写的代码有问题");
    assert!(f.iter().any(|x| x.object == "language:python"));
}

#[test]
fn code_blocks_do_not_produce_language_facts() {
    let f = extract_facts("s", "look at this:\n```rust\nfn main() {}\n```\n");
    assert!(f.is_empty());
}

#[test]
fn decisions_are_kept_ahead_of_language_signals_when_truncating() {
    let mut text = String::new();
    for i in 0..12 {
        text.push_str(&format!("we decided to keep subsystem number {i} incremental\n"));
    }
    text.push_str("rust python react tokio tauri typescript\n");
    let f = extract_facts("s", &text);
    assert_eq!(f.len(), 12);
    assert!(
        f.iter().all(|x| x.subject == "decision"),
        "language signals crowded out the decisions: {f:?}"
    );
}

/// Messages whose punctuation means something in a search expression.
#[test]
fn real_world_messages_no_longer_error() {
    let conn = seeded();
    for q in [
        "fix the panic in parser.rs:212",
        "TODO: add tests",
        "what about C++ and node?",
        "read src/main.rs and tell me",
        "how do I use tokio::spawn",
    ] {
        let found = search(&conn, q, None, 6).expect(q);
        assert!(!found.is_empty(), "expected hits for {q:?}");
    }
}

#[test]
fn a_query_with_no_indexed_term_is_a_clean_empty_result() {
    let conn = seeded();
    assert!(search(&conn, "   ... ??? ", None, 6).unwrap().is_empty());
    assert!(build_match_query("   ... ??? ").is_none());
}

#[test]
fn every_term_is_quoted_so_operators_cannot_leak_through() {
    let m = build_match_query("title:foo AND OR NOT NEAR").unwrap();
    // `title:foo` must be two literal terms, never a column filter, and no
    // bare operator keyword may survive as an operator.
    assert_eq!(m, "\"title\" OR \"foo\" OR \"AND\" OR \"OR\" OR \"NOT\" OR \"NEAR\"");
    for term in m.split(" OR ") {
        assert!(term.starts_with('"') && term.ends_with('"'), "{term}");
    }
    assert!(!m.contains(':'));
}

/// The index is shared by all conversations, so a hit must be filtered through the
/// facts of the conversation.
#[test]
fn session_scope_excludes_other_sessions() {
    let conn = seeded();
    assert_eq!(search(&conn, "rust", Some("A"), 6).unwrap().len(), 1);
    assert!(search(&conn, "rust", Some("B"), 6).unwrap().is_empty());
    assert_eq!(search(&conn, "rust", None, 6).unwrap().len(), 1);
}

/// Two conversations with the same triple must not multiply the hits.
#[test]
fn shared_spo_across_sessions_does_not_duplicate_hits() {
    let conn = open();
    keep(&conn, "A", "project", "uses", "language:rust");
    keep(&conn, "B", "project", "uses", "language:rust");
    assert_eq!(search(&conn, "rust", Some("A"), 6).unwrap().len(), 1);
    assert_eq!(search(&conn, "rust", Some("B"), 6).unwrap().len(), 1);
    assert_eq!(search(&conn, "rust", None, 6).unwrap().len(), 1);
}

fn recalled(conn: &Connection, recall: Recall) -> Vec<String> {
    hits(conn, MemoryStore::look_up(&recall, "rust", 6, false)).unwrap()
}

#[test]
fn scoped_recall_returns_this_sessions_facts() {
    let conn = open();
    keep(&conn, "A", "project", "uses", "language:rust");
    let found = recalled(&conn, Scribe::new().recall_for_session("A"));
    assert_eq!(found.len(), 1);
    assert!(found[0].contains("language:rust"), "{found:?}");
}

#[test]
fn another_session_never_sees_them() {
    let conn = open();
    keep(&conn, "A", "project", "uses", "language:rust");
    assert!(recalled(&conn, Scribe::new().recall_for_session("B")).is_empty());
}

#[test]
fn a_scribe_without_a_session_fails_closed() {
    let conn = open();
    keep(&conn, "A", "project", "uses", "language:rust");
    let scribe = Scribe::new();
    // No session scope → no recall, so nothing can leak into a prompt...
    assert!(recalled(&conn, scribe.recall()).is_empty());
    // ...but an explicit opt-in still works.
    assert_eq!(recalled(&conn, scribe.recall_global()).len(), 1);
}

#[test]
fn scribes_are_scoped() {
    assert_eq!(Scribe::for_session("A").recall(), Recall::Session("A".into()));
    assert_eq!(Scribe::disabled().recall_global(), Recall::Nothing);
    assert!(Scribe::disabled().ingest_turn("A", "user", "use rust").is_none());
    let kept = Scribe::new().ingest_turn("A", "user", "please use rust here").unwrap();
    assert_eq!(kept.raw.content, "please use rust here");
    assert!(kept.facts.iter().all(|f| f.session_id == "A"));
    assert_eq!(
        render(&vec![Hit {
            score: "1.50".into(),
            subject: "a".into(),
            predicate: "b".into(),
            object: "c".into(),
        }]),
        vec!["[1.50] a — b — c"]
    );
}

#[test]
fn a_failed_search_falls_back_to_the_longest_term() {
    let conn = seeded();
    let found =
        hits(&conn, MemoryStore::look_up(&Recall::Session("A".into()), "the parser?", 6, true))
            .unwrap();
    assert_eq!(found.len(), 1);
    assert!(hits(&conn, MemoryStore::look_up(&Recall::Session("B".into()), "parser", 6, true))
        .unwrap()
        .is_empty());
    assert!(MemoryStore::look_up(&Recall::Everything, "??", 6, true).is_none());
}

#[test]
fn a_fact_seen_again_stays_one_row() {
    let conn = open();
    keep(&conn, "A", "project", "uses", "language:rust");
    keep(&conn, "A", "project", "uses", "language:rust");
    let listed = MemoryStore::list_facts("A", 50);
    let mut stmt = conn.prepare(listed.sql).unwrap();
    let n = stmt.query_map(params_from_iter(bound(&listed.values)), |_| Ok(())).unwrap().count();
    assert_eq!(n, 1);
}

#[test]
fn an_old_database_is_brought_up_to_date() {
    let conn = Connection::open_in_memory().unwrap();
    conn.execute_batch(FTS_DDL).unwrap();
    for batch in MemoryStore::init(0) {
        conn.execute_batch(batch).unwrap();
    }
    assert!(MemoryStore::init(1).is_empty());
    let version: i64 = conn.query_row("PRAGMA user_version", [], |r| r.get(0)).unwrap();
    assert_eq!(version, 1);
}

#[test]
fn messages_are_kept_and_pruned() {
    let conn = open();
    let mut old = RawMessage::new("A", "user", "hi");
    old.created_at = 0;
    run(&conn, &MemoryStore::insert_raw(&old));
    run(&conn, &MemoryStore::insert_raw(&RawMessage::new("A", "user", "again")));
    run(&conn, &MemoryStore::prune_raw(91 * 86_400, 90).unwrap());
    let left: i64 =
        conn.query_row("SELECT COUNT(*) FROM raw_messages", [], |r| r.get(0)).unwrap();
    assert_eq!(left, 1);
    assert!(MemoryStore::prune_raw(0, 0).is_none());
    assert_eq!(prune_cutoff(86_400, 1), Some(0));
    assert_eq!(prune_cutoff(5, 0), None);
}

#[test]
fn patterns_are_repeated_facts_and_are_counted_on() {
    let t = |o: &str| ("project".to_string(), "uses".to_string(), o.to_string());
    let patterns = promote_patterns(&vec![t("rust"), t("rust"), t("go"), t("rust")]);
    assert_eq!(patterns.len(), 1);
    assert_eq!(patterns[0].occurrence_count, 3);
    assert_eq!(patterns[0].id.len(), 36);
    let conn = open();
    let mut tagged = promote_patterns(&vec![t("rust"), t("rust")]);
    tagged[0].tags = vec!["a\"b".into()];
    run(&conn, &MemoryStore::insert_pattern(&patterns[0]));
    run(&conn, &MemoryStore::insert_pattern(&tagged[0]));
    let (count, tags): (i64, String) = conn
        .query_row("SELECT occurrence_count, tags FROM patterns", [], |r| {
            Ok((r.get(0)?, r.get(1)?))
        })
        .unwrap();
    assert_eq!(count, 5);
    assert_eq!(tags, "[\"a\\\"b\"]");
}

#[test]
fn words_and_terms_are_found() {
    let chars = |s: &str| s.chars().collect::<Vec<char>>();
    assert!(contains_word(&chars("use rust."), &chars("rust")));
    assert!(!contains_word(&chars("rusty"), &chars("rust")));
    assert_eq!(strip_code_blocks("a\n```\ncode\n```\nb").contains("code"), false);
    assert_eq!(query_tokens("a-b 中文").len(), 3);
    assert_eq!(query_tokens(&"x ".repeat(40)).len(), 32);
    assert_eq!(match_any(&vec![]), None);
    assert_eq!(like_pattern(&vec!["ab".into(), "cd".into(), "e".into()]).unwrap(), "%cd%");
}

#[test]
fn facts_are_taken_with_an_id_and_a_confidence() {
    let facts = extract_facts("s", "We decided to use rust here.\nYou must never stop.");
    assert_eq!(facts.len(), 3);
    for f in &facts {
        assert_eq!(f.id.len(), 36);
        assert_eq!(f.session_id, "s");
        assert_eq!(f.confidence, 70);
    }
    assert_ne!(facts[0].id, facts[1].id);
}
