//! Facts: a subject, a predicate and an object.
//!
//! Facts are taken from a message by simple rules, without asking a model: what was
//! decided, what must hold, and which languages and frameworks are spoken of.

use crate::ident::{fresh_id, unix_seconds};
use crate::text;
use crate::text::{
    chars_of, count_bytes, lines, lowercase, stands_at, str_contains, str_starts_with, text_of,
    trim, trim_start,
};
use vstd::prelude::*;
use vstd::string::*;

verus! {

/// How many facts a message gives at most.
pub const MAX_FACTS: usize = 12;

/// A fact taken from a conversation.
#[derive(Debug)]
pub struct Fact {
    pub id: String,
    pub session_id: String,
    pub subject: String,
    pub predicate: String,
    pub object: String,
    /// In hundredths.
    pub confidence: u32,
    /// In seconds.
    pub created_at: i64,
}

/// What a fact says.
#[verifier::ext_equal]
pub struct Triple {
    pub subject: Seq<char>,
    pub predicate: Seq<char>,
    pub object: Seq<char>,
}

impl View for Fact {
    type V = Triple;

    open spec fn view(&self) -> Triple {
        Triple { subject: self.subject@, predicate: self.predicate@, object: self.object@ }
    }
}

/// What some facts say.
pub open spec fn triples(v: Seq<Fact>) -> Seq<Triple> {
    v.map_values(|f: Fact| f@)
}

/// Whether a fact is one of a conversation as it is first taken: with an id, and with
/// the confidence that every such fact has.
pub open spec fn is_taken_in(f: Fact, session_id: Seq<char>) -> bool {
    &&& f.id@.len() == 36
    &&& f.session_id@ == session_id
    &&& f.confidence == 70
}

impl Fact {
    /// A fact of now, with an id of its own.
    pub fn new(session_id: &str, subject: &str, predicate: &str, object: &str) -> (r: Self)
        ensures
            is_taken_in(r, session_id@),
            r@ == (Triple { subject: subject@, predicate: predicate@, object: object@ }),
    {
        Fact {
            id: fresh_id(),
            session_id: session_id.to_string(),
            subject: subject.to_string(),
            predicate: predicate.to_string(),
            object: object.to_string(),
            confidence: 70,
            created_at: unix_seconds(),
        }
    }
}

// ── Words ───────────────────────────────────────────────────────────────────

/// The characters of which words are made: every other one ends a word.
pub open spec fn in_word(c: char) -> bool {
    text::is_ascii_word(c) || c == '_'
}

fn is_in_word(c: char) -> (b: bool)
    ensures
        b == in_word(c),
{
    let u: u32 = c as u32;
    (48 <= u && u <= 57) || (65 <= u && u <= 90) || (97 <= u && u <= 122) || c == '_'
}

/// Whether what stands at `i` with length `n` is not part of a longer word.
pub open spec fn stands_alone(s: Seq<char>, i: int, n: int) -> bool {
    (i == 0 || !in_word(s[i - 1])) && (i + n >= s.len() || !in_word(s[i + n]))
}

/// Whether a word stands in a text from `from` on as a word of its own. The search
/// goes on behind each place where it stands in a longer word.
pub open spec fn word_from(s: Seq<char>, word: Seq<char>, from: int) -> bool
    decreases s.len() - from,
    via word_decreases
{
    if from < 0 || from > s.len() || word.len() == 0 {
        false
    } else {
        let i = text::first_from(s, word, from);
        if i < 0 {
            false
        } else if stands_alone(s, i, word.len() as int) {
            true
        } else {
            word_from(s, word, i + word.len())
        }
    }
}

#[via_fn]
proof fn word_decreases(s: Seq<char>, word: Seq<char>, from: int) {
    if 0 <= from <= s.len() {
        text::lemma_first_from(s, word, from);
    }
}

/// Whether a word stands in a text as a word of its own.
pub fn contains_word(haystack: &[char], word: &[char]) -> (b: bool)
    requires
        word@.len() > 0,
    ensures
        b == word_from(haystack@, word@, 0),
{
    let n: usize = haystack.len();
    let m: usize = word.len();
    let mut from: usize = 0;
    while from < n
        invariant
            from <= n == haystack@.len(),
            m == word@.len() > 0,
            word_from(haystack@, word@, 0) == word_from(haystack@, word@, from as int),
        decreases n - from,
    {
        let mut i: usize = from;
        while i < n && !stands_at(haystack, word, i)
            invariant
                from <= i <= n == haystack@.len(),
                m == word@.len() > 0,
                text::first_from(haystack@, word@, from as int) == text::first_from(
                    haystack@,
                    word@,
                    i as int,
                ),
            decreases n - i,
        {
            i = i + 1;
        }
        if i == n {
            proof {
                assert(!text::at(haystack@, word@, n as int));
                assert(text::first_from(haystack@, word@, n + 1) == -1);
                assert(text::first_from(haystack@, word@, n as int) == -1);
            }
            return false;
        }
        let end: usize = i + m;
        let before_ok = i == 0 || !is_in_word(haystack[i - 1]);
        let after_ok = end >= n || !is_in_word(haystack[end]);
        if before_ok && after_ok {
            return true;
        }
        from = end;
    }
    proof {
        assert(!text::at(haystack@, word@, n as int));
        assert(text::first_from(haystack@, word@, n + 1) == -1);
    }
    false
}

/// Whether a text is made of word characters only.
pub open spec fn is_word(s: Seq<char>) -> bool {
    s.len() > 0 && forall|i: int| 0 <= i < s.len() ==> in_word(#[trigger] s[i])
}

/// A place at which a word stands as a word of its own.
pub open spec fn word_at(s: Seq<char>, word: Seq<char>, i: int) -> bool {
    text::at(s, word, i) && stands_alone(s, i, word.len() as int)
}

proof fn lemma_word_from(s: Seq<char>, word: Seq<char>, from: int)
    requires
        is_word(word),
        0 <= from <= s.len(),
    ensures
        word_from(s, word, from) <==> exists|i: int| from <= i && #[trigger] word_at(s, word, i),
    decreases s.len() - from,
{
    text::lemma_first_from(s, word, from);
    let i = text::first_from(s, word, from);
    let n = word.len() as int;
    if i >= 0 {
        if stands_alone(s, i, n) {
            assert(word_at(s, word, i));
        } else {
            lemma_word_from(s, word, i + n);
            assert forall|q: int| from <= q && #[trigger] word_at(s, word, q) implies i + n
                <= q by {
                if q < i + n {
                    assert(text::at(s, word, q));
                    if q > i {
                        assert(s.subrange(i, i + n)[q - 1 - i] == s[q - 1]);
                        assert(in_word(word[q - 1 - i]));
                    }
                }
            }
        }
    } else {
        assert forall|q: int| from <= q implies !(#[trigger] word_at(s, word, q)) by {
            assert(!text::at(s, word, q));
        }
    }
}

/// A word is found exactly where it stands somewhere as a word of its own: not as
/// part of a longer word, but next to any other character.
pub proof fn law_whole_words_are_found(s: Seq<char>, word: Seq<char>)
    requires
        is_word(word),
    ensures
        word_from(s, word, 0) <==> exists|i: int| #[trigger] word_at(s, word, i),
{
    lemma_word_from(s, word, 0);
    if word_from(s, word, 0) {
        let i = choose|i: int| 0 <= i && #[trigger] word_at(s, word, i);
        assert(word_at(s, word, i));
    }
    if exists|i: int| #[trigger] word_at(s, word, i) {
        let i = choose|i: int| #[trigger] word_at(s, word, i);
        assert(0 <= i && word_at(s, word, i));
    }
}

// ── Code ────────────────────────────────────────────────────────────────────

/// What is left of a text, and whether it is inside of code.
#[verifier::ext_equal]
pub struct Prose {
    pub text: Seq<char>,
    pub fenced: bool,
}

/// Whether a line opens or closes a block of code.
pub open spec fn is_fence(line: Seq<char>) -> bool {
    text::starts(text::trim_start_of(line), "```"@)
}

/// What is left of the first `n` lines without blocks of code.
pub open spec fn prose_in(lines: Seq<Seq<char>>, n: int) -> Prose
    decreases n,
{
    if n <= 0 {
        Prose { text: Seq::empty(), fenced: false }
    } else {
        let p = prose_in(lines, n - 1);
        let line = lines[n - 1];
        if is_fence(line) {
            Prose { fenced: !p.fenced, ..p }
        } else if p.fenced {
            p
        } else {
            Prose { text: (p.text + line).push('\n'), ..p }
        }
    }
}

/// A text without its blocks of code.
pub open spec fn prose_of(s: Seq<char>) -> Seq<char> {
    let l = text::lines_of(s);
    prose_in(l, l.len() as int).text
}

/// Drops the blocks of code of a text.
pub fn strip_code_blocks(s: &str) -> (r: String)
    ensures
        r@ == prose_of(s@),
{
    let ls = lines(chars_of(s).as_slice());
    let ghost v = text::char_views(ls@);
    let n: usize = ls.len();
    let fence = chars_of("```");
    let mut out = String::new();
    let mut fenced = false;
    for i in 0..n
        invariant
            n == ls@.len(),
            v == text::char_views(ls@),
            fence@ == "```"@,
            out@ == prose_in(v, i as int).text,
            fenced == prose_in(v, i as int).fenced,
    {
        assert(v[i as int] == ls@[i as int]@);
        let line = ls[i].as_slice();
        let t = trim_start(line);
        if t.len() >= fence.len() && stands_at(t, fence.as_slice(), 0) {
            fenced = !fenced;
        } else if !fenced {
            out.append(text_of(line).as_str());
            out.push('\n');
        }
    }
    out
}

// ── Lines ───────────────────────────────────────────────────────────────────

/// Whether a line, given in lower case, says what was decided.
pub open spec fn says_decision(low: Seq<char>) -> bool {
    text::has_part(low, "decided"@) || text::has_part(low, "chose"@) || text::starts(
        low,
        "we'll use"@,
    )
}

/// Whether a line, given in lower case, says what must hold.
pub open spec fn says_rule(low: Seq<char>) -> bool {
    text::has_part(low, "must "@) || text::has_part(low, "always "@) || text::has_part(
        low,
        "never "@,
    )
}

/// What a trimmed line says, given in lower case too. One that is very short or very
/// long says nothing.
pub open spec fn line_facts(line: Seq<char>, low: Seq<char>) -> Seq<Triple> {
    let said = Triple { subject: Seq::empty(), predicate: "states"@, object: line };
    if text::byte_len(line) < 12 || text::byte_len(line) > 200 {
        Seq::empty()
    } else {
        (if says_decision(low) {
            seq![Triple { subject: "decision"@, ..said }]
        } else {
            Seq::empty()
        }) + (if says_rule(low) {
            seq![Triple { subject: "rule"@, ..said }]
        } else {
            Seq::empty()
        })
    }
}

/// Takes the facts that a trimmed line gives, given in lower case too.
pub fn facts_in_line(session_id: &str, line: &str, low: &str) -> (r: Vec<Fact>)
    ensures
        triples(r@) == line_facts(line@, low@),
        forall|i: int| 0 <= i < r@.len() ==> is_taken_in(#[trigger] r@[i], session_id@),
{
    let mut r: Vec<Fact> = Vec::new();
    let bytes: u128 = count_bytes(chars_of(line).as_slice());
    if bytes < 12 || bytes > 200 {
        assert(triples(r@) =~= Seq::empty());
        return r;
    }
    if str_contains(low, "decided") || str_contains(low, "chose") || str_starts_with(
        low,
        "we'll use",
    ) {
        r.push(Fact::new(session_id, "decision", "states", line));
    }
    if str_contains(low, "must ") || str_contains(low, "always ") || str_contains(low, "never ") {
        r.push(Fact::new(session_id, "rule", "states", line));
    }
    assert(triples(r@) =~= line_facts(line@, low@));
    r
}

/// What the first `n` lines say.
pub open spec fn said_in(lines: Seq<Seq<char>>, n: int) -> Seq<Triple>
    decreases n,
{
    if n <= 0 {
        Seq::empty()
    } else {
        let line = text::trim_of(lines[n - 1]);
        said_in(lines, n - 1) + line_facts(line, text::lowered(line))
    }
}

// ── Languages ───────────────────────────────────────────────────────────────

/// What a word says of the project where it stands in a text, given in lower case.
pub open spec fn signal(low: Seq<char>, word: Seq<char>, object: Seq<char>) -> Seq<Triple> {
    if word_from(low, word, 0) {
        seq![Triple { subject: "project"@, predicate: "uses"@, object }]
    } else {
        Seq::empty()
    }
}

/// What a text, given in lower case, says of the languages and frameworks of the
/// project.
pub open spec fn signals(low: Seq<char>) -> Seq<Triple> {
    signal(low, "rust"@, "language:rust"@) + signal(low, "typescript"@, "language:typescript"@)
        + signal(low, "python"@, "language:python"@) + signal(low, "react"@, "framework:react"@)
        + signal(low, "tokio"@, "framework:tokio"@) + signal(low, "tauri"@, "framework:tauri"@)
}

fn add_signal(facts: &mut Vec<Fact>, session_id: &str, low: &[char], word: &str, object: &str)
    requires
        word@.len() > 0,
        forall|i: int|
            0 <= i < old(facts)@.len() ==> is_taken_in(#[trigger] old(facts)@[i], session_id@),
    ensures
        triples(final(facts)@) == triples(old(facts)@) + signal(low@, word@, object@),
        forall|i: int|
            0 <= i < final(facts)@.len() ==> is_taken_in(
                #[trigger] final(facts)@[i],
                session_id@,
            ),
{
    let w = chars_of(word);
    if contains_word(low, w.as_slice()) {
        facts.push(Fact::new(session_id, "project", "uses", object));
    }
    assert(triples(facts@) =~= triples(old(facts)@) + signal(low@, word@, object@));
}

/// Adds what a text, given in lower case, says of the languages and frameworks of the
/// project.
pub fn add_signals(facts: &mut Vec<Fact>, session_id: &str, low: &[char])
    requires
        forall|i: int|
            0 <= i < old(facts)@.len() ==> is_taken_in(#[trigger] old(facts)@[i], session_id@),
    ensures
        triples(final(facts)@) == triples(old(facts)@) + signals(low@),
        forall|i: int|
            0 <= i < final(facts)@.len() ==> is_taken_in(
                #[trigger] final(facts)@[i],
                session_id@,
            ),
{
    proof {
        reveal_strlit("rust");
        reveal_strlit("typescript");
        reveal_strlit("python");
        reveal_strlit("react");
        reveal_strlit("tokio");
        reveal_strlit("tauri");
    }
    let ghost before = triples(facts@);
    add_signal(facts, session_id, low, "rust", "language:rust");
    add_signal(facts, session_id, low, "typescript", "language:typescript");
    add_signal(facts, session_id, low, "python", "language:python");
    add_signal(facts, session_id, low, "react", "framework:react");
    add_signal(facts, session_id, low, "tokio", "framework:tokio");
    add_signal(facts, session_id, low, "tauri", "framework:tauri");
    assert(triples(facts@) =~= before + signals(low@));
}

// ── Extraction ──────────────────────────────────────────────────────────────

/// The first facts, up to the most that a message gives.
pub open spec fn first_facts(s: Seq<Triple>) -> Seq<Triple> {
    if s.len() <= MAX_FACTS {
        s
    } else {
        s.take(MAX_FACTS as int)
    }
}

/// The facts that a text gives: what its lines say, then what it says of languages
/// and frameworks, all of it outside of code.
pub open spec fn facts_of(s: Seq<char>) -> Seq<Triple> {
    let prose = prose_of(s);
    let l = text::lines_of(prose);
    first_facts(said_in(l, l.len() as int) + signals(text::lowered(prose)))
}

/// Takes the facts that a text gives.
pub fn extract_facts(session_id: &str, content: &str) -> (r: Vec<Fact>)
    ensures
        triples(r@) == facts_of(content@),
        forall|i: int| 0 <= i < r@.len() ==> is_taken_in(#[trigger] r@[i], session_id@),
{
    let prose = strip_code_blocks(content);
    let low = lowercase(prose.as_str());
    let ls = lines(chars_of(prose.as_str()).as_slice());
    let ghost v = text::char_views(ls@);
    let n: usize = ls.len();
    let mut facts: Vec<Fact> = Vec::new();
    assert(triples(facts@) =~= said_in(v, 0));
    for i in 0..n
        invariant
            n == ls@.len(),
            v == text::char_views(ls@),
            triples(facts@) == said_in(v, i as int),
            forall|k: int| 0 <= k < facts@.len() ==> is_taken_in(#[trigger] facts@[k], session_id@),
    {
        assert(v[i as int] == ls@[i as int]@);
        let line = text_of(trim(ls[i].as_slice()));
        let line_low = lowercase(line.as_str());
        let mut found = facts_in_line(session_id, line.as_str(), line_low.as_str());
        let ghost a = facts@;
        let ghost b = found@;
        facts.append(&mut found);
        proof {
            assert(triples(facts@) =~= triples(a) + triples(b));
            assert forall|k: int| 0 <= k < facts@.len() implies is_taken_in(
                #[trigger] facts@[k],
                session_id@,
            ) by {
                if k < a.len() {
                    assert(facts@[k] == a[k]);
                } else {
                    assert(facts@[k] == b[k - a.len()]);
                }
            }
        }
    }
    add_signals(&mut facts, session_id, chars_of(low.as_str()).as_slice());
    let ghost all = facts@;
    facts.truncate(MAX_FACTS);
    assert(triples(facts@) =~= first_facts(triples(all)));
    facts
}

// ── Laws ────────────────────────────────────────────────────────────────────

/// What was decided and what must hold comes first: what is said of languages is cut
/// before any of it, and a message never gives more than twelve facts.
pub proof fn law_statements_come_first(s: Seq<char>)
    ensures
        facts_of(s).len() <= MAX_FACTS,
        ({
            let l = text::lines_of(prose_of(s));
            let said = said_in(l, l.len() as int);
            &&& said.len() <= MAX_FACTS ==> facts_of(s).take(said.len() as int) == said
            &&& said.len() >= MAX_FACTS ==> facts_of(s) == said.take(MAX_FACTS as int)
        }),
{
    let l = text::lines_of(prose_of(s));
    let said = said_in(l, l.len() as int);
    let all = said + signals(text::lowered(prose_of(s)));
    if said.len() <= MAX_FACTS {
        assert(first_facts(all).take(said.len() as int) =~= said);
    }
    if said.len() >= MAX_FACTS {
        assert(first_facts(all) =~= said.take(MAX_FACTS as int));
    }
}

/// Lines, each with a line feed behind it.
pub open spec fn written(lines: Seq<Seq<char>>) -> Seq<char>
    decreases lines.len(),
{
    if lines.len() == 0 {
        Seq::empty()
    } else {
        (written(lines.drop_last()) + lines.last()).push('\n')
    }
}

/// Whether no line opens or closes a code block.
pub open spec fn has_no_fence(lines: Seq<Seq<char>>) -> bool {
    forall|i: int| 0 <= i < lines.len() ==> !is_fence(#[trigger] lines[i])
}

proof fn lemma_prose_add(a: Seq<Seq<char>>, b: Seq<Seq<char>>, n: int)
    requires
        has_no_fence(b),
        0 <= n <= b.len(),
    ensures
        ({
            let before = prose_in(a, a.len() as int);
            prose_in(a + b, a.len() + n) == (if before.fenced {
                before
            } else {
                Prose { text: before.text + written(b.take(n)), fenced: false }
            })
        }),
    decreases n,
{
    let before = prose_in(a, a.len() as int);
    if n == 0 {
        lemma_prose_front(a, b, a.len() as int);
        assert(b.take(0) =~= Seq::<Seq<char>>::empty());
        assert(before.text + written(b.take(0)) =~= before.text);
    } else {
        lemma_prose_add(a, b, n - 1);
        assert((a + b)[a.len() + n - 1] == b[n - 1]);
        assert(!is_fence(b[n - 1]));
        assert(b.take(n).drop_last() =~= b.take(n - 1));
        assert(b.take(n).last() == b[n - 1]);
        if !before.fenced {
            assert((before.text + written(b.take(n - 1)) + b[n - 1]).push('\n') =~= before.text
                + written(b.take(n)));
        }
    }
}

proof fn lemma_prose_front(a: Seq<Seq<char>>, b: Seq<Seq<char>>, n: int)
    requires
        0 <= n <= a.len(),
    ensures
        prose_in(a + b, n) == prose_in(a, n),
    decreases n,
{
    if n > 0 {
        lemma_prose_front(a, b, n - 1);
        assert((a + b)[n - 1] == a[n - 1]);
    }
}

/// What stands between two fences is left out, and everything else is kept, line by line.
#[verifier::rlimit(40)]
pub proof fn law_code_is_left_out(
    a: Seq<Seq<char>>,
    opening: Seq<char>,
    code: Seq<Seq<char>>,
    closing: Seq<char>,
    b: Seq<Seq<char>>,
)
    requires
        has_no_fence(a),
        has_no_fence(code),
        has_no_fence(b),
        is_fence(opening),
        is_fence(closing),
    ensures
        ({
            let all = a + seq![opening] + code + seq![closing] + b;
            prose_in(all, all.len() as int).text == written(a) + written(b)
        }),
        prose_in(a, a.len() as int).text == written(a),
{
    let none = Seq::<Seq<char>>::empty();
    lemma_prose_add(none, a, a.len() as int);
    assert(none + a =~= a);
    assert(a.take(a.len() as int) =~= a);
    assert(prose_in(none, 0) == Prose { text: Seq::empty(), fenced: false });
    assert(Seq::<char>::empty() + written(a) =~= written(a));
    let p = a + seq![opening];
    lemma_prose_front(a, seq![opening], a.len() as int);
    assert(p[a.len() as int] == opening);
    assert(prose_in(p, p.len() as int) == Prose { text: written(a), fenced: true });
    lemma_prose_add(p, code, code.len() as int);
    let q = p + code;
    assert(prose_in(q, q.len() as int) == Prose { text: written(a), fenced: true });
    let r = q + seq![closing];
    lemma_prose_front(q, seq![closing], q.len() as int);
    assert(r[q.len() as int] == closing);
    assert(prose_in(r, r.len() as int) == Prose { text: written(a), fenced: false });
    lemma_prose_add(r, b, b.len() as int);
    assert(b.take(b.len() as int) =~= b);
}

/// A line that says what was decided, or what must be, is recorded as such, whole; and
/// nothing is recorded that no line says.
#[verifier::rlimit(40)]
pub proof fn law_statements_are_recorded(lines: Seq<Seq<char>>, n: int, i: int)
    requires
        0 <= i < n <= lines.len(),
    ensures
        ({
            let line = text::trim_of(lines[i]);
            let low = text::lowered(line);
            let fits = 12 <= text::byte_len(line) <= 200;
            let said = said_in(lines, n);
            &&& fits && (text::has_part(low, "decided"@) || text::has_part(low, "chose"@)
                || text::starts(low, "we'll use"@)) ==> said.contains(
                Triple { subject: "decision"@, predicate: "states"@, object: line },
            )
            &&& fits && (text::has_part(low, "must "@) || text::has_part(low, "always "@)
                || text::has_part(low, "never "@)) ==> said.contains(
                Triple { subject: "rule"@, predicate: "states"@, object: line },
            )
        }),
        forall|k: int|
            0 <= k < said_in(lines, n).len() ==> (#[trigger] said_in(lines, n)[k]).predicate
                == "states"@ && exists|j: int|
                0 <= j < n && said_in(lines, n)[k].object == text::trim_of(#[trigger] lines[j]),
    decreases n,
{
    let front = said_in(lines, n - 1);
    let line = text::trim_of(lines[n - 1]);
    let low = text::lowered(line);
    let more = line_facts(line, low);
    let all = said_in(lines, n);
    assert(all =~= front + more);
    if i < n - 1 {
        law_statements_are_recorded(lines, n - 1, i);
        assert forall|t: Triple| front.contains(t) implies #[trigger] all.contains(t) by {
            let k = choose|k: int| 0 <= k < front.len() && front[k] == t;
            assert(all[k] == t);
        }
    } else {
        if more.len() > 0 {
            assert(all[front.len() as int] == more[0]);
        }
        if more.len() > 1 {
            assert(all[front.len() as int + 1] == more[1]);
        }
        if n - 1 > 0 {
            law_statements_are_recorded(lines, n - 1, 0);
        }
    }
    assert forall|k: int| 0 <= k < all.len() implies (#[trigger] all[k]).predicate == "states"@
        && exists|j: int| 0 <= j < n && all[k].object == text::trim_of(#[trigger] lines[j]) by {
        if k < front.len() {
            if n - 1 > 0 {
                law_statements_are_recorded(lines, n - 1, 0);
                assert(all[k] == front[k]);
                let j = choose|j: int|
                    0 <= j < n - 1 && front[k].object == text::trim_of(#[trigger] lines[j]);
                assert(all[k].object == text::trim_of(lines[j]));
            }
        } else {
            assert(all[k] == more[k - front.len()]);
            assert(all[k].object == text::trim_of(lines[n - 1]));
        }
    }
}

/// What a project uses is recorded exactly where its name stands alone in the text.
pub proof fn law_signal_is_a_whole_word(low: Seq<char>, word: Seq<char>, object: Seq<char>)
    requires
        is_word(word),
    ensures
        signal(low, word, object).len() > 0 <==> exists|i: int| #[trigger] word_at(low, word, i),
        signal(low, word, object).len() > 0 ==> signal(low, word, object) == seq![
            Triple { subject: "project"@, predicate: "uses"@, object },
        ],
{
    law_whole_words_are_found(low, word);
}

proof fn lemma_in_either(a: Seq<Triple>, b: Seq<Triple>, t: Triple)
    ensures
        a.contains(t) || b.contains(t) ==> (a + b).contains(t),
{
    if a.contains(t) {
        let k = choose|k: int| 0 <= k < a.len() && a[k] == t;
        assert((a + b)[k] == t);
    }
    if b.contains(t) {
        let k = choose|k: int| 0 <= k < b.len() && b[k] == t;
        assert((a + b)[a.len() + k] == t);
    }
}

proof fn lemma_in_signals(low: Seq<char>, t: Triple)
    ensures
        signal(low, "rust"@, "language:rust"@).contains(t) || signal(
            low,
            "typescript"@,
            "language:typescript"@,
        ).contains(t) || signal(low, "python"@, "language:python"@).contains(t) || signal(
            low,
            "react"@,
            "framework:react"@,
        ).contains(t) || signal(low, "tokio"@, "framework:tokio"@).contains(t) || signal(
            low,
            "tauri"@,
            "framework:tauri"@,
        ).contains(t) ==> signals(low).contains(t),
{
    let a = signal(low, "rust"@, "language:rust"@);
    let b = signal(low, "typescript"@, "language:typescript"@);
    let c = signal(low, "python"@, "language:python"@);
    let d = signal(low, "react"@, "framework:react"@);
    let e = signal(low, "tokio"@, "framework:tokio"@);
    let f = signal(low, "tauri"@, "framework:tauri"@);
    lemma_in_either(a, b, t);
    lemma_in_either(a + b, c, t);
    lemma_in_either(a + b + c, d, t);
    lemma_in_either(a + b + c + d, e, t);
    lemma_in_either(a + b + c + d + e, f, t);
}

proof fn lemma_signal_is_there(low: Seq<char>, word: Seq<char>, object: Seq<char>)
    requires
        word_from(low, word, 0),
    ensures
        signal(low, word, object).contains(
            Triple { subject: "project"@, predicate: "uses"@, object },
        ),
{
    assert(signal(low, word, object)[0] == Triple {
        subject: "project"@,
        predicate: "uses"@,
        object,
    });
}

/// Whether a text says that the project uses something.
pub open spec fn says_used(low: Seq<char>, object: Seq<char>) -> bool {
    signals(low).contains(Triple { subject: "project"@, predicate: "uses"@, object })
}

/// The languages and frameworks that a text names, as whole words, are recorded as used.
pub proof fn law_named_languages_are_recorded(low: Seq<char>)
    ensures
        word_from(low, "rust"@, 0) ==> says_used(low, "language:rust"@),
        word_from(low, "typescript"@, 0) ==> says_used(low, "language:typescript"@),
        word_from(low, "python"@, 0) ==> says_used(low, "language:python"@),
        word_from(low, "react"@, 0) ==> says_used(low, "framework:react"@),
        word_from(low, "tokio"@, 0) ==> says_used(low, "framework:tokio"@),
        word_from(low, "tauri"@, 0) ==> says_used(low, "framework:tauri"@),
{
    if word_from(low, "rust"@, 0) {
        lemma_used(low, "rust"@, "language:rust"@);
    }
    if word_from(low, "typescript"@, 0) {
        lemma_used(low, "typescript"@, "language:typescript"@);
    }
    if word_from(low, "python"@, 0) {
        lemma_used(low, "python"@, "language:python"@);
    }
    if word_from(low, "react"@, 0) {
        lemma_used(low, "react"@, "framework:react"@);
    }
    if word_from(low, "tokio"@, 0) {
        lemma_used(low, "tokio"@, "framework:tokio"@);
    }
    if word_from(low, "tauri"@, 0) {
        lemma_used(low, "tauri"@, "framework:tauri"@);
    }
}

proof fn lemma_used(low: Seq<char>, word: Seq<char>, object: Seq<char>)
    requires
        word_from(low, word, 0),
        (word == "rust"@ && object == "language:rust"@) || (word == "typescript"@ && object
            == "language:typescript"@) || (word == "python"@ && object == "language:python"@) || (word
            == "react"@ && object == "framework:react"@) || (word == "tokio"@ && object
            == "framework:tokio"@) || (word == "tauri"@ && object == "framework:tauri"@),
    ensures
        says_used(low, object),
{
    lemma_signal_is_there(low, word, object);
    lemma_in_signals(low, Triple { subject: "project"@, predicate: "uses"@, object });
}

} // verus!
