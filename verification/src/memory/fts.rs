//! Search terms.

use crate::text;
use crate::text::{cat3, chars_of, join, split_filled};
use vstd::prelude::*;
use vstd::string::*;

verus! {

/// How many terms of a query count.
pub const MAX_QUERY_TOKENS: usize = 32;

/// What stands between terms: all but letters and digits.
pub open spec fn between_terms() -> spec_fn(char) -> bool {
    |c: char| !text::is_alphanumeric(c)
}

fn is_between_terms(c: char) -> (b: bool)
    ensures
        b == between_terms()(c),
{
    !c.is_alphanumeric()
}

/// The first terms, up to the most that count.
pub open spec fn first_terms(s: Seq<Seq<char>>) -> Seq<Seq<char>> {
    if s.len() <= MAX_QUERY_TOKENS {
        s
    } else {
        s.take(MAX_QUERY_TOKENS as int)
    }
}

/// The terms of a query.
pub open spec fn terms_of(query: Seq<char>) -> Seq<Seq<char>> {
    first_terms(text::filled_parts(query, between_terms()))
}

/// The terms of a query: its runs of letters and digits.
pub fn query_tokens(query: &str) -> (r: Vec<String>)
    ensures
        text::texts(r@) == terms_of(query@),
{
    let mut r = split_filled(
        chars_of(query).as_slice(),
        is_between_terms,
        Ghost(between_terms()),
    );
    let ghost all = r@;
    r.truncate(MAX_QUERY_TOKENS);
    assert(text::texts(r@) =~= first_terms(text::texts(all)));
    r
}

/// The terms between double quotes.
pub open spec fn quoted_terms(s: Seq<Seq<char>>) -> Seq<Seq<char>> {
    s.map_values(|t: Seq<char>| "\""@ + t + "\""@)
}

/// The search expression for some terms: any of them, each as it is. None where there
/// are no terms.
pub open spec fn expression_of(terms: Seq<Seq<char>>) -> Option<Seq<char>> {
    if terms.len() == 0 {
        None
    } else {
        Some(text::joined(quoted_terms(terms), " OR "@))
    }
}

/// The search expression for some terms.
pub fn match_any(terms: &Vec<String>) -> (r: Option<String>)
    ensures
        text::opt_text(r) == expression_of(text::texts(terms@)),
{
    let ghost s = text::texts(terms@);
    let n: usize = terms.len();
    if n == 0 {
        return None;
    }
    let mut quoted: Vec<String> = Vec::new();
    assert(text::texts(quoted@) =~= quoted_terms(s).take(0));
    for i in 0..n
        invariant
            n == terms@.len(),
            s == text::texts(terms@),
            text::texts(quoted@) == quoted_terms(s).take(i as int),
    {
        let t = cat3("\"", terms[i].as_str(), "\"");
        proof {
            text::lemma_texts_push(quoted@, t);
            assert(t@ =~= quoted_terms(s)[i as int]);
            assert(quoted_terms(s).take(i + 1) =~= quoted_terms(s).take(i as int).push(
                quoted_terms(s)[i as int],
            ));
        }
        quoted.push(t);
    }
    assert(quoted_terms(s).take(n as int) =~= quoted_terms(s));
    Some(join(&quoted, " OR "))
}

/// The search expression for a query. None where it has no terms: then there is
/// nothing to search for.
pub fn build_match_query(query: &str) -> (r: Option<String>)
    ensures
        text::opt_text(r) == expression_of(terms_of(query@)),
{
    match_any(&query_tokens(query))
}

/// The place of the longest of the first `n` terms, the last of those that are
/// equally long.
pub open spec fn longest_at(s: Seq<Seq<char>>, n: int) -> int
    decreases n,
{
    if n <= 1 {
        n - 1
    } else {
        let k = longest_at(s, n - 1);
        if s[n - 1].len() >= s[k].len() {
            n - 1
        } else {
            k
        }
    }
}

/// The pattern that finds the longest of some terms anywhere in a text. None where
/// there are no terms.
pub fn like_pattern(terms: &Vec<String>) -> (r: Option<String>)
    ensures
        text::opt_text(r) == (if terms@.len() == 0 {
            None
        } else {
            Some(
                "%"@ + text::texts(terms@)[longest_at(
                    text::texts(terms@),
                    terms@.len() as int,
                )] + "%"@,
            )
        }),
{
    let ghost s = text::texts(terms@);
    let n: usize = terms.len();
    if n == 0 {
        return None;
    }
    let mut best: usize = 0;
    for i in 1..n
        invariant
            n == terms@.len() > 0,
            s == text::texts(terms@),
            best == longest_at(s, i as int),
            best < i,
    {
        assert(s[i as int] == terms@[i as int]@);
        assert(s[best as int] == terms@[best as int]@);
        if terms[i].as_str().unicode_len() >= terms[best].as_str().unicode_len() {
            best = i;
        }
    }
    assert(s[best as int] == terms@[best as int]@);
    Some(cat3("%", terms[best].as_str(), "%"))
}

// ── Laws ────────────────────────────────────────────────────────────────────

/// A term is made of letters and digits only and is never empty, so nothing in it has
/// a meaning of its own in a search expression; and no more than 32 terms count.
pub proof fn law_terms_are_plain(query: Seq<char>)
    ensures
        terms_of(query).len() <= MAX_QUERY_TOKENS,
        forall|i: int| 0 <= i < terms_of(query).len() ==> (#[trigger] terms_of(query)[i]).len() > 0,
        forall|i: int, k: int|
            #![trigger terms_of(query)[i][k]]
            0 <= i < terms_of(query).len() && 0 <= k < terms_of(query)[i].len()
                ==> text::is_alphanumeric(terms_of(query)[i][k]),
{
    let p = between_terms();
    let parts = text::parts_of(query, p);
    let q = |t: Seq<char>| t.len() > 0;
    text::lemma_parts_between(query, p, 0);
    text::lemma_filter_members(parts, q);
    let filled = text::filled_parts(query, p);
    let terms = terms_of(query);
    assert forall|i: int| 0 <= i < terms.len() implies (#[trigger] terms[i]).len() > 0 by {
        assert(terms[i] == filled[i]);
    }
    assert forall|i: int, k: int|
        #![trigger terms[i][k]]
        0 <= i < terms.len() && 0 <= k < terms[i].len() implies text::is_alphanumeric(terms[i][k]) by {
        assert(terms[i] == filled[i]);
        let m = choose|m: int| 0 <= m < parts.len() && parts[m] == filled[i];
        assert(!p(parts[m][k]));
    }
}

proof fn lemma_longest_at(s: Seq<Seq<char>>, n: int)
    requires
        0 < n <= s.len(),
    ensures
        0 <= longest_at(s, n) < n,
        forall|i: int| 0 <= i < n ==> (#[trigger] s[i]).len() <= s[longest_at(s, n)].len(),
    decreases n,
{
    if n > 1 {
        lemma_longest_at(s, n - 1);
    }
}

/// The term that stands for a query is one of its longest.
pub proof fn law_longest_term_stands_for_the_query(s: Seq<Seq<char>>, i: int)
    requires
        0 <= i < s.len(),
    ensures
        0 <= longest_at(s, s.len() as int) < s.len(),
        s[i].len() <= s[longest_at(s, s.len() as int)].len(),
{
    lemma_longest_at(s, s.len() as int);
}

/// Every term of a query is looked for, in quotes.
pub proof fn law_every_term_is_looked_for(terms: Seq<Seq<char>>, i: int)
    requires
        0 <= i < terms.len(),
    ensures
        expression_of(terms) matches Some(e) && text::has_part(e, "\""@ + terms[i] + "\""@),
{
    text::lemma_joined_has(quoted_terms(terms), " OR "@, i);
}

/// The terms of a query are its words, in order and unaltered: all of them, or as many of
/// the first as are looked for.
pub proof fn law_terms_are_the_words(words: Seq<Seq<char>>)
    requires
        words.len() > 0,
        forall|i: int| 0 <= i < words.len() ==> (#[trigger] words[i]).len() > 0,
        forall|i: int, k: int|
            0 <= i < words.len() && 0 <= k < words[i].len() ==> text::is_alphanumeric(
                #[trigger] words[i][k],
            ),
    ensures
        terms_of(text::joined(words, seq![' '])) == (if words.len() <= MAX_QUERY_TOKENS {
            words
        } else {
            words.take(MAX_QUERY_TOKENS as int)
        }),
{
    assert(between_terms()(' '));
    assert forall|i: int, k: int|
        0 <= i < words.len() && 0 <= k < words[i].len() implies !between_terms()(
        #[trigger] words[i][k],
    ) by {
        assert(text::is_alphanumeric(words[i][k]));
    }
    text::law_parts_read_back(words, ' ', between_terms());
    text::lemma_filter_all(words, |t: Seq<char>| t.len() > 0);
}

} // verus!
