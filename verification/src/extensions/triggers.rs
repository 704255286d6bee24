//! The words of a message that bring a skill to mind.

use crate::text;
use crate::text::{chars_of, lowercase, same, split, text_of, trim};
use vstd::prelude::*;
use vstd::slice::slice_subrange;
use vstd::string::*;

verus! {

/// How many triggers a description gives at most.
pub const MAX_TRIGGERS: usize = 24;

// ── Quoted phrases ──────────────────────────────────────────────────────────

/// The marks that open and close a quoted phrase.
pub open spec fn is_quote_mark(c: char) -> bool {
    c == '"' || c == '\u{201c}' || c == '\u{201d}' || c == '「' || c == '」'
}

/// What reading quoted phrases has come to.
#[verifier::ext_equal]
pub struct Quotes {
    pub inside: bool,
    pub phrase: Seq<char>,
    pub found: Seq<Seq<char>>,
}

/// The quoted phrases in the first `n` characters.
pub open spec fn quotes_in(s: Seq<char>, n: int) -> Quotes
    decreases n,
{
    if n <= 0 {
        Quotes { inside: false, phrase: Seq::empty(), found: Seq::empty() }
    } else {
        let q = quotes_in(s, n - 1);
        let c = s[n - 1];
        if is_quote_mark(c) {
            if q.inside && q.phrase.len() > 0 {
                Quotes {
                    inside: false,
                    phrase: Seq::empty(),
                    found: q.found.push(text::trim_of(q.phrase)),
                }
            } else {
                Quotes { inside: !q.inside, ..q }
            }
        } else if q.inside {
            Quotes { phrase: q.phrase.push(c), ..q }
        } else {
            q
        }
    }
}

/// The quoted phrases of a text, trimmed.
pub fn quoted_phrases(s: &[char]) -> (r: Vec<String>)
    ensures
        text::texts(r@) == quotes_in(s@, s@.len() as int).found,
{
    let n: usize = s.len();
    let mut inside = false;
    let mut phrase: Vec<char> = Vec::new();
    let mut found: Vec<String> = Vec::new();
    assert(text::texts(found@) =~= Seq::empty());
    for i in 0..n
        invariant
            n == s@.len(),
            (Quotes { inside, phrase: phrase@, found: text::texts(found@) }) == quotes_in(
                s@,
                i as int,
            ),
    {
        let c = s[i];
        if c == '"' || c == '\u{201c}' || c == '\u{201d}' || c == '「' || c == '」' {
            if inside && phrase.len() > 0 {
                let t = text_of(trim(phrase.as_slice()));
                proof {
                    text::lemma_texts_push(found@, t);
                }
                found.push(t);
                phrase = Vec::new();
            }
            inside = !inside;
        } else if inside {
            phrase.push(c);
        }
    }
    found
}

// ── Runs of ideographs ──────────────────────────────────────────────────────

/// Whether a character is a Chinese, Japanese or Korean ideograph.
pub open spec fn is_ideograph(c: char) -> bool {
    '\u{4E00}' <= c <= '\u{9FFF}' || '\u{3400}' <= c <= '\u{4DBF}' || '\u{F900}' <= c <= '\u{FAFF}'
}

/// What reading runs has come to.
#[verifier::ext_equal]
pub struct Runs {
    pub run: Seq<char>,
    pub found: Seq<Seq<char>>,
}

/// The runs with the present one ended.
pub open spec fn run_ended(r: Runs) -> Seq<Seq<char>> {
    if r.run.len() >= 2 {
        r.found.push(r.run)
    } else {
        r.found
    }
}

/// The runs of ideographs in the first `n` characters.
pub open spec fn runs_in(s: Seq<char>, n: int) -> Runs
    decreases n,
{
    if n <= 0 {
        Runs { run: Seq::empty(), found: Seq::empty() }
    } else {
        let r = runs_in(s, n - 1);
        if is_ideograph(s[n - 1]) {
            Runs { run: r.run.push(s[n - 1]), ..r }
        } else {
            Runs { run: Seq::empty(), found: run_ended(r) }
        }
    }
}

fn ideograph(c: char) -> (b: bool)
    ensures
        b == is_ideograph(c),
{
    let u: u32 = c as u32;
    (0x4E00 <= u && u <= 0x9FFF) || (0x3400 <= u && u <= 0x4DBF) || (0xF900 <= u && u <= 0xFAFF)
}

/// The runs of two or more ideographs in a text.
pub fn ideograph_runs(s: &[char]) -> (r: Vec<String>)
    ensures
        text::texts(r@) == run_ended(runs_in(s@, s@.len() as int)),
{
    let n: usize = s.len();
    let mut run: Vec<char> = Vec::new();
    let mut found: Vec<String> = Vec::new();
    assert(text::texts(found@) =~= Seq::empty());
    for i in 0..n
        invariant
            n == s@.len(),
            (Runs { run: run@, found: text::texts(found@) }) == runs_in(s@, i as int),
    {
        let c = s[i];
        if ideograph(c) {
            run.push(c);
        } else {
            if run.len() >= 2 {
                let t = text_of(run.as_slice());
                proof {
                    text::lemma_texts_push(found@, t);
                }
                found.push(t);
            }
            run = Vec::new();
        }
    }
    if run.len() >= 2 {
        let t = text_of(run.as_slice());
        proof {
            text::lemma_texts_push(found@, t);
        }
        found.push(t);
    }
    found
}

// ── Words ───────────────────────────────────────────────────────────────────

/// What ends a sentence.
pub open spec fn ends_sentence() -> spec_fn(char) -> bool {
    |c: char| c == '.' || c == '。' || c == '!' || c == '！'
}

/// What stands between words.
pub open spec fn between_words() -> spec_fn(char) -> bool {
    |c: char| !text::is_ascii_word(c) && c != '-' && c != '_'
}

/// The words of four or more letters in the first sentence.
pub open spec fn sentence_words(s: Seq<char>) -> Seq<Seq<char>> {
    text::parts_of(s.take(text::part_end(s, ends_sentence(), 0)), between_words()).filter(
        |w: Seq<char>| w.len() >= 4,
    )
}

fn is_between_words(c: char) -> (b: bool)
    ensures
        b == between_words()(c),
{
    let u: u32 = c as u32;
    !((48 <= u && u <= 57) || (65 <= u && u <= 90) || (97 <= u && u <= 122)) && c != '-' && c != '_'
}

/// The words of four or more letters in the first sentence of a text.
pub fn first_words(s: &[char]) -> (r: Vec<String>)
    ensures
        text::texts(r@) == sentence_words(s@),
{
    let n: usize = s.len();
    let mut end: usize = 0;
    while end < n && s[end] != '.' && s[end] != '。' && s[end] != '!' && s[end] != '！'
        invariant
            end <= n == s@.len(),
            text::part_end(s@, ends_sentence(), 0) == text::part_end(
                s@,
                ends_sentence(),
                end as int,
            ),
        decreases n - end,
    {
        end = end + 1;
    }
    let first = slice_subrange(s, 0, end);
    assert(first@ =~= s@.take(end as int));
    let parts = split(first, is_between_words, Ghost(between_words()));
    let ghost all = text::char_views(parts@);
    let ghost q = |w: Seq<char>| w.len() >= 4;
    let m: usize = parts.len();
    let mut r: Vec<String> = Vec::new();
    proof {
        reveal(Seq::filter);
        assert(text::texts(r@) =~= all.take(0).filter(q));
    }
    for i in 0..m
        invariant
            m == parts@.len(),
            all == text::char_views(parts@),
            q == |w: Seq<char>| w.len() >= 4,
            text::texts(r@) == all.take(i as int).filter(q),
    {
        proof {
            text::lemma_filter_take(all, i as int, q);
            assert(all[i as int] == parts@[i as int]@);
        }
        if parts[i].len() >= 4 {
            let t = text_of(parts[i].as_slice());
            proof {
                text::lemma_texts_push(r@, t);
            }
            r.push(t);
        }
    }
    assert(all.take(m as int) =~= all);
    r
}

// ── The choice ──────────────────────────────────────────────────────────────

/// The first `n` candidates that are not empty, each once.
pub open spec fn distinct(s: Seq<Seq<char>>, n: int) -> Seq<Seq<char>>
    decreases n,
{
    if n <= 0 {
        Seq::empty()
    } else {
        let d = distinct(s, n - 1);
        if s[n - 1].len() > 0 && !d.contains(s[n - 1]) {
            d.push(s[n - 1])
        } else {
            d
        }
    }
}

/// The triggers among some candidates: those that are not empty, each once, and
/// no more than there may be.
pub open spec fn chosen(s: Seq<Seq<char>>) -> Seq<Seq<char>> {
    let d = distinct(s, s.len() as int);
    if d.len() <= MAX_TRIGGERS {
        d
    } else {
        d.take(MAX_TRIGGERS as int)
    }
}

/// The texts in lower case.
pub open spec fn all_lowered(s: Seq<Seq<char>>) -> Seq<Seq<char>> {
    s.map_values(|t: Seq<char>| text::lowered(t))
}

/// The triggers that a description gives: its quoted phrases, its runs of
/// ideographs, and the longer words of its first sentence.
pub open spec fn triggers_of(desc: Seq<char>) -> Seq<Seq<char>> {
    let d = text::trim_of(desc);
    if d.len() == 0 {
        Seq::empty()
    } else {
        chosen(
            all_lowered(quotes_in(d, d.len() as int).found) + run_ended(
                runs_in(d, d.len() as int),
            ) + sentence_words(text::lowered(d)),
        )
    }
}

fn holds(v: &Vec<String>, s: &str) -> (b: bool)
    ensures
        b == text::texts(v@).contains(s@),
{
    let n: usize = v.len();
    for i in 0..n
        invariant
            n == v@.len(),
            forall|k: int| 0 <= k < i ==> (#[trigger] text::texts(v@)[k]) != s@,
    {
        assert(text::texts(v@)[i as int] == v@[i as int]@);
        if same(v[i].as_str(), s) {
            return true;
        }
    }
    false
}

proof fn lemma_distinct_grows(s: Seq<Seq<char>>, a: int, b: int)
    requires
        0 <= a <= b <= s.len(),
    ensures
        distinct(s, a).len() <= distinct(s, b).len(),
        distinct(s, b).take(distinct(s, a).len() as int) == distinct(s, a),
    decreases b - a,
{
    if a < b {
        lemma_distinct_grows(s, a, b - 1);
        let k = distinct(s, a).len() as int;
        assert(distinct(s, b).take(k) =~= distinct(s, b - 1).take(k));
    } else {
        assert(distinct(s, b).take(distinct(s, a).len() as int) =~= distinct(s, a));
    }
}

/// Chooses the triggers among some candidates.
pub fn choose_triggers(candidates: &Vec<String>) -> (r: Vec<String>)
    ensures
        text::texts(r@) == chosen(text::texts(candidates@)),
{
    let ghost s = text::texts(candidates@);
    let n: usize = candidates.len();
    let mut r: Vec<String> = Vec::new();
    assert(text::texts(r@) =~= distinct(s, 0));
    for i in 0..n
        invariant
            n == candidates@.len(),
            s == text::texts(candidates@),
            text::texts(r@) == distinct(s, i as int),
            r@.len() <= MAX_TRIGGERS,
    {
        assert(s[i as int] == candidates@[i as int]@);
        let t = candidates[i].as_str();
        if !t.is_empty() && !holds(&r, t) {
            if r.len() == MAX_TRIGGERS {
                proof {
                    assert(distinct(s, i + 1).len() == MAX_TRIGGERS + 1);
                    lemma_distinct_grows(s, i + 1, n as int);
                    lemma_distinct_grows(s, i as int, n as int);
                }
                return r;
            }
            let copy = candidates[i].clone();
            proof {
                text::lemma_texts_push(r@, copy);
            }
            r.push(copy);
        }
    }
    r
}

/// The triggers that a description gives.
pub fn extract_triggers(desc: &str) -> (r: Vec<String>)
    ensures
        text::texts(r@) == triggers_of(desc@),
{
    let all = chars_of(desc);
    let d = trim(all.as_slice());
    if d.len() == 0 {
        let none: Vec<String> = Vec::new();
        assert(text::texts(none@) =~= Seq::empty());
        return none;
    }
    let phrases = quoted_phrases(d);
    let ghost found = text::texts(phrases@);
    let n: usize = phrases.len();
    let mut candidates: Vec<String> = Vec::new();
    assert(text::texts(candidates@) =~= all_lowered(found).take(0));
    for i in 0..n
        invariant
            n == phrases@.len(),
            found == text::texts(phrases@),
            text::texts(candidates@) == all_lowered(found).take(i as int),
    {
        let low = lowercase(phrases[i].as_str());
        proof {
            assert(found[i as int] == phrases@[i as int]@);
            text::lemma_texts_push(candidates@, low);
            assert(all_lowered(found).take(i + 1) =~= all_lowered(found).take(i as int).push(
                all_lowered(found)[i as int],
            ));
        }
        candidates.push(low);
    }
    assert(all_lowered(found).take(n as int) =~= all_lowered(found));
    let mut runs = ideograph_runs(d);
    let low = lowercase(text_of(d).as_str());
    let mut words = first_words(chars_of(low.as_str()).as_slice());
    let ghost a = candidates@;
    let ghost b = runs@;
    let ghost c = words@;
    candidates.append(&mut runs);
    candidates.append(&mut words);
    assert(text::texts(candidates@) =~= text::texts(a) + text::texts(b) + text::texts(c));
    choose_triggers(&candidates)
}

// ── Laws ────────────────────────────────────────────────────────────────────

proof fn lemma_distinct(s: Seq<Seq<char>>, n: int)
    requires
        0 <= n <= s.len(),
    ensures
        forall|i: int| 0 <= i < distinct(s, n).len() ==> (#[trigger] distinct(s, n)[i]).len() > 0,
        forall|i: int, j: int|
            0 <= i < j < distinct(s, n).len() ==> #[trigger] distinct(s, n)[i]
                != #[trigger] distinct(s, n)[j],
    decreases n,
{
    if n > 0 {
        lemma_distinct(s, n - 1);
        let d = distinct(s, n - 1);
        let all = distinct(s, n);
        assert forall|i: int, j: int| 0 <= i < j < all.len() implies #[trigger] all[i]
            != #[trigger] all[j] by {
            if j == d.len() {
                assert(d.contains(d[i]));
            }
        }
    }
}

/// Triggers are never empty, never listed twice, and never more than 24.
pub proof fn law_triggers_are_distinct(desc: Seq<char>)
    ensures
        triggers_of(desc).len() <= MAX_TRIGGERS,
        forall|i: int| 0 <= i < triggers_of(desc).len() ==> (#[trigger] triggers_of(desc)[i]).len() > 0,
        forall|i: int, j: int|
            0 <= i < j < triggers_of(desc).len() ==> #[trigger] triggers_of(desc)[i]
                != #[trigger] triggers_of(desc)[j],
{
    let d = text::trim_of(desc);
    if d.len() > 0 {
        let s = all_lowered(quotes_in(d, d.len() as int).found) + run_ended(
            runs_in(d, d.len() as int),
        ) + sentence_words(text::lowered(d));
        lemma_distinct(s, s.len() as int);
    }
}

/// Whether a text has no quotation mark.
pub open spec fn has_no_quote(s: Seq<char>) -> bool {
    forall|i: int| 0 <= i < s.len() ==> !is_quote_mark(#[trigger] s[i])
}

proof fn lemma_quotes_front(a: Seq<char>, b: Seq<char>, n: int)
    requires
        0 <= n <= a.len(),
    ensures
        quotes_in(a + b, n) == quotes_in(a, n),
    decreases n,
{
    if n > 0 {
        lemma_quotes_front(a, b, n - 1);
        assert((a + b)[n - 1] == a[n - 1]);
    }
}

proof fn lemma_quotes_plain(a: Seq<char>, b: Seq<char>, n: int)
    requires
        has_no_quote(b),
        0 <= n <= b.len(),
    ensures
        ({
            let q = quotes_in(a, a.len() as int);
            quotes_in(a + b, a.len() + n) == (if q.inside {
                Quotes { phrase: q.phrase + b.take(n), ..q }
            } else {
                q
            })
        }),
    decreases n,
{
    let q = quotes_in(a, a.len() as int);
    if n == 0 {
        lemma_quotes_front(a, b, a.len() as int);
        assert(q.phrase + b.take(0) =~= q.phrase);
    } else {
        lemma_quotes_plain(a, b, n - 1);
        assert((a + b)[a.len() + n - 1] == b[n - 1]);
        assert(!is_quote_mark(b[n - 1]));
        assert((q.phrase + b.take(n - 1)).push(b[n - 1]) =~= q.phrase + b.take(n));
    }
}

/// A phrase in quotation marks is found, whole and without the whitespace around it, and
/// what stands outside of them is not.
pub proof fn law_quoted_phrase_is_found(
    a: Seq<char>,
    opening: char,
    phrase: Seq<char>,
    closing: char,
    b: Seq<char>,
)
    requires
        has_no_quote(a),
        has_no_quote(phrase),
        has_no_quote(b),
        phrase.len() > 0,
        is_quote_mark(opening),
        is_quote_mark(closing),
    ensures
        ({
            let s = a + seq![opening] + phrase + seq![closing] + b;
            quotes_in(s, s.len() as int).found == seq![text::trim_of(phrase)]
        }),
        quotes_in(a, a.len() as int).found.len() == 0,
{
    let none = Seq::<char>::empty();
    lemma_quotes_plain(none, a, a.len() as int);
    assert(none + a =~= a);
    let start = Quotes { inside: false, phrase: none, found: Seq::<Seq<char>>::empty() };
    assert(quotes_in(a, a.len() as int) == start);
    let p = a + seq![opening];
    lemma_quotes_front(a, seq![opening], a.len() as int);
    assert(p[a.len() as int] == opening);
    assert(quotes_in(p, p.len() as int) == Quotes { inside: true, ..start });
    lemma_quotes_plain(p, phrase, phrase.len() as int);
    let q = p + phrase;
    assert(phrase.take(phrase.len() as int) =~= phrase);
    assert(none + phrase =~= phrase);
    assert(quotes_in(q, q.len() as int) == Quotes { inside: true, phrase, ..start });
    let r = q + seq![closing];
    lemma_quotes_front(q, seq![closing], q.len() as int);
    assert(r[q.len() as int] == closing);
    assert(quotes_in(r, r.len() as int).found =~= seq![text::trim_of(phrase)]);
    lemma_quotes_plain(r, b, b.len() as int);
}

/// The first of the candidates are chosen, each once, in their order.
pub proof fn law_candidates_are_chosen(s: Seq<Seq<char>>, n: int, i: int)
    requires
        0 <= i < n <= s.len(),
        s[i].len() > 0,
    ensures
        distinct(s, n).contains(s[i]),
        forall|k: int| 0 <= k < distinct(s, n).len() ==> s.contains(#[trigger] distinct(s, n)[k]),
    decreases n,
{
    let front = distinct(s, n - 1);
    let all = distinct(s, n);
    if i < n - 1 {
        law_candidates_are_chosen(s, n - 1, i);
        let k = choose|k: int| 0 <= k < front.len() && front[k] == s[i];
        assert(all[k] == s[i]);
    } else {
        if !front.contains(s[i]) {
            assert(all[front.len() as int] == s[i]);
        } else {
            assert(all == front);
        }
    }
    lemma_distinct_within(s, n);
}

proof fn lemma_distinct_within(s: Seq<Seq<char>>, n: int)
    requires
        0 <= n <= s.len(),
    ensures
        forall|k: int| 0 <= k < distinct(s, n).len() ==> s.contains(#[trigger] distinct(s, n)[k]),
    decreases n,
{
    if n > 0 {
        lemma_distinct_within(s, n - 1);
        let front = distinct(s, n - 1);
        let all = distinct(s, n);
        assert forall|k: int| 0 <= k < all.len() implies s.contains(#[trigger] all[k]) by {
            if k < front.len() {
                assert(all[k] == front[k]);
            } else {
                assert(all[k] == s[n - 1]);
            }
        }
    }
}

} // verus!
