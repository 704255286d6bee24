//! Patterns: facts that come up again and again.

use crate::ident::{fresh_id, unix_seconds};
use crate::text;
use crate::text::{cat3, decimal, same};
use vstd::prelude::*;
use vstd::string::*;

verus! {

/// Something that was seen more than once.
#[derive(Debug)]
pub struct Pattern {
    pub id: String,
    pub name: String,
    pub description: String,
    pub occurrence_count: u32,
    /// In seconds.
    pub last_seen_at: i64,
    pub tags: Vec<String>,
}

/// What a pattern says.
#[verifier::ext_equal]
pub struct PatternView {
    pub name: Seq<char>,
    pub description: Seq<char>,
    pub occurrence_count: u32,
    pub tags: Seq<Seq<char>>,
}

impl View for Pattern {
    type V = PatternView;

    open spec fn view(&self) -> PatternView {
        PatternView {
            name: self.name@,
            description: self.description@,
            occurrence_count: self.occurrence_count,
            tags: text::texts(self.tags@),
        }
    }
}

/// What some patterns say.
pub open spec fn pattern_views(v: Seq<Pattern>) -> Seq<PatternView> {
    v.map_values(|p: Pattern| p@)
}

impl Pattern {
    /// Something that was seen once, now, with an id of its own.
    pub fn new(name: String, description: String) -> (r: Self)
        ensures
            r.id@.len() == 36,
            r@ == (PatternView {
                name: name@,
                description: description@,
                occurrence_count: 1,
                tags: Seq::empty(),
            }),
    {
        let tags: Vec<String> = Vec::new();
        assert(text::texts(tags@) =~= Seq::empty());
        Pattern {
            id: fresh_id(),
            name,
            description,
            occurrence_count: 1,
            last_seen_at: unix_seconds(),
            tags,
        }
    }
}

/// What a fact says.
pub open spec fn fact_view(f: (String, String, String)) -> (Seq<char>, Seq<char>, Seq<char>) {
    (f.0@, f.1@, f.2@)
}

/// What some facts say.
pub open spec fn fact_views(v: Seq<(String, String, String)>) -> Seq<
    (Seq<char>, Seq<char>, Seq<char>),
> {
    v.map_values(|f: (String, String, String)| fact_view(f))
}

/// How often a fact is among the first `n`.
pub open spec fn times(
    s: Seq<(Seq<char>, Seq<char>, Seq<char>)>,
    f: (Seq<char>, Seq<char>, Seq<char>),
    n: int,
) -> nat
    decreases n,
{
    if n <= 0 {
        0
    } else {
        times(s, f, n - 1) + (if s[n - 1] == f {
            1nat
        } else {
            0
        })
    }
}

/// Whether no fact comes up more often than can be counted.
pub open spec fn countable(s: Seq<(Seq<char>, Seq<char>, Seq<char>)>) -> bool {
    forall|i: int|
        #![trigger s[i]]
        0 <= i < s.len() ==> times(s, s[i], s.len() as int) <= u32::MAX
}

/// The pattern that a fact makes that was seen `n` times.
pub open spec fn pattern_of(f: (Seq<char>, Seq<char>, Seq<char>), n: nat) -> PatternView {
    PatternView {
        name: f.0 + "_"@ + f.1,
        description: f.0 + " "@ + f.1 + " "@ + f.2 + " (seen "@ + text::dec(n) + " times)"@,
        occurrence_count: n as u32,
        tags: seq![f.1],
    }
}

/// The patterns that facts make, for the facts that come up first among the first `n`:
/// one for each that is seen more than once, in the order in which they come up.
pub open spec fn patterns_of(s: Seq<(Seq<char>, Seq<char>, Seq<char>)>, n: int) -> Seq<PatternView>
    decreases n,
{
    if n <= 0 {
        Seq::empty()
    } else {
        let f = s[n - 1];
        let all = times(s, f, s.len() as int);
        if times(s, f, n - 1) == 0 && all >= 2 {
            patterns_of(s, n - 1).push(pattern_of(f, all))
        } else {
            patterns_of(s, n - 1)
        }
    }
}

fn count(facts: &Vec<(String, String, String)>, i: usize, n: usize) -> (r: usize)
    requires
        i < facts@.len(),
        n <= facts@.len(),
    ensures
        r == times(fact_views(facts@), fact_views(facts@)[i as int], n as int),
        r <= n,
{
    let ghost s = fact_views(facts@);
    let mut r: usize = 0;
    for k in 0..n
        invariant
            i < facts@.len(),
            n <= facts@.len(),
            s == fact_views(facts@),
            r == times(s, s[i as int], k as int),
            r <= k,
    {
        assert(s[k as int] == fact_view(facts@[k as int]));
        assert(s[i as int] == fact_view(facts@[i as int]));
        if same(facts[k].0.as_str(), facts[i].0.as_str()) && same(
            facts[k].1.as_str(),
            facts[i].1.as_str(),
        ) && same(facts[k].2.as_str(), facts[i].2.as_str()) {
            r = r + 1;
        }
    }
    r
}

/// Makes patterns of the facts that come up more than once.
pub fn promote_patterns(facts: &Vec<(String, String, String)>) -> (r: Vec<Pattern>)
    requires
        countable(fact_views(facts@)),
    ensures
        pattern_views(r@) == patterns_of(fact_views(facts@), facts@.len() as int),
        forall|i: int| 0 <= i < r@.len() ==> (#[trigger] r@[i]).id@.len() == 36,
{
    let ghost s = fact_views(facts@);
    let n: usize = facts.len();
    let mut r: Vec<Pattern> = Vec::new();
    assert(pattern_views(r@) =~= patterns_of(s, 0));
    for i in 0..n
        invariant
            n == facts@.len(),
            s == fact_views(facts@),
            countable(s),
            pattern_views(r@) == patterns_of(s, i as int),
            forall|k: int| 0 <= k < r@.len() ==> (#[trigger] r@[k]).id@.len() == 36,
    {
        let before: usize = count(facts, i, i);
        let all: usize = count(facts, i, n);
        if before == 0 && all >= 2 {
            let f = &facts[i];
            let name = cat3(f.0.as_str(), "_", f.1.as_str());
            let description = cat3(f.0.as_str(), " ", f.1.as_str()).concat(" ").concat(
                f.2.as_str(),
            ).concat(" (seen ").concat(decimal(all as u64).as_str()).concat(" times)");
            let mut p = Pattern::new(name, description);
            p.occurrence_count = all as u32;
            p.tags.push(f.1.clone());
            proof {
                assert(s[i as int] == fact_view(facts@[i as int]));
                assert(text::texts(p.tags@) =~= seq![f.1@]);
                assert(p@ =~= pattern_of(s[i as int], all as nat));
                assert(pattern_views(r@.push(p)) =~= pattern_views(r@).push(p@));
            }
            r.push(p);
        }
    }
    r
}

/// The facts that make patterns, among those that come up first among the first `n`:
/// each that is seen more than once, in the order in which they come up.
pub open spec fn repeated(s: Seq<(Seq<char>, Seq<char>, Seq<char>)>, n: int) -> Seq<
    (Seq<char>, Seq<char>, Seq<char>),
>
    decreases n,
{
    if n <= 0 {
        Seq::empty()
    } else if times(s, s[n - 1], n - 1) == 0 && times(s, s[n - 1], s.len() as int) >= 2 {
        repeated(s, n - 1).push(s[n - 1])
    } else {
        repeated(s, n - 1)
    }
}

/// Each fact that is seen twice or more makes one pattern, which says how often, and
/// no other fact makes any.
pub proof fn law_patterns_are_repeated(s: Seq<(Seq<char>, Seq<char>, Seq<char>)>)
    requires
        countable(s),
    ensures
        ({
            let facts = repeated(s, s.len() as int);
            let patterns = patterns_of(s, s.len() as int);
            &&& facts.no_duplicates()
            &&& forall|f: (Seq<char>, Seq<char>, Seq<char>)| #[trigger]
                facts.contains(f) <==> times(s, f, s.len() as int) >= 2
            &&& patterns.len() == facts.len()
            &&& forall|i: int|
                0 <= i < patterns.len() ==> #[trigger] patterns[i] == pattern_of(
                    facts[i],
                    times(s, facts[i], s.len() as int),
                ) && patterns[i].occurrence_count >= 2
        }),
{
    let n = s.len() as int;
    lemma_repeated(s, n);
    let facts = repeated(s, n);
    assert forall|f: (Seq<char>, Seq<char>, Seq<char>)|
        #[trigger] facts.contains(f) <==> times(s, f, n) >= 2 by {
        if times(s, f, n) >= 2 {
            assert(times(s, f, n) > 0);
        }
    }
}

proof fn lemma_times_grow(
    s: Seq<(Seq<char>, Seq<char>, Seq<char>)>,
    f: (Seq<char>, Seq<char>, Seq<char>),
    n: int,
    m: int,
)
    requires
        0 <= n <= m,
    ensures
        times(s, f, n) <= times(s, f, m),
    decreases m,
{
    if n < m {
        lemma_times_grow(s, f, n, m - 1);
    }
}

proof fn lemma_repeated(s: Seq<(Seq<char>, Seq<char>, Seq<char>)>, n: int)
    requires
        0 <= n <= s.len(),
        countable(s),
    ensures
        repeated(s, n).no_duplicates(),
        forall|f: (Seq<char>, Seq<char>, Seq<char>)| #[trigger]
            repeated(s, n).contains(f) <==> times(s, f, n) > 0 && times(s, f, s.len() as int) >= 2,
        patterns_of(s, n).len() == repeated(s, n).len(),
        forall|i: int|
            0 <= i < patterns_of(s, n).len() ==> #[trigger] patterns_of(s, n)[i] == pattern_of(
                repeated(s, n)[i],
                times(s, repeated(s, n)[i], s.len() as int),
            ) && patterns_of(s, n)[i].occurrence_count >= 2,
    decreases n,
{
    let all = repeated(s, n);
    if n > 0 {
        lemma_repeated(s, n - 1);
        let front = repeated(s, n - 1);
        let last = s[n - 1];
        lemma_times_grow(s, last, n, s.len() as int);
        assert(!front.contains(last) || times(s, last, n - 1) > 0);
        assert forall|f: (Seq<char>, Seq<char>, Seq<char>)|
            #[trigger] all.contains(f) <==> times(s, f, n) > 0 && times(s, f, s.len() as int)
                >= 2 by {
            if all.contains(f) {
                if !front.contains(f) {
                    assert(f == last);
                }
            } else {
                if front.contains(f) {
                    let k = choose|k: int| 0 <= k < front.len() && front[k] == f;
                    assert(all[k] == f);
                }
                if f == last && all.len() > front.len() {
                    assert(all.last() == f);
                }
            }
        }
        assert forall|i: int| 0 <= i < patterns_of(s, n).len() implies #[trigger] patterns_of(s, n)[i]
            == pattern_of(all[i], times(s, all[i], s.len() as int)) && patterns_of(
            s,
            n,
        )[i].occurrence_count >= 2 by {
            if i < front.len() {
                assert(patterns_of(s, n)[i] == patterns_of(s, n - 1)[i]);
                assert(all[i] == front[i]);
            }
        }
    }
}

/// A fact is counted as often as it was stated.
pub proof fn law_facts_are_counted(
    s: Seq<(Seq<char>, Seq<char>, Seq<char>)>,
    f: (Seq<char>, Seq<char>, Seq<char>),
    n: int,
)
    requires
        0 <= n <= s.len(),
    ensures
        times(s, f, n) == s.take(n).filter(|g: (Seq<char>, Seq<char>, Seq<char>)| g == f).len(),
    decreases n,
{
    reveal(Seq::filter);
    if n > 0 {
        law_facts_are_counted(s, f, n - 1);
        assert(s.take(n).drop_last() =~= s.take(n - 1));
        assert(s.take(n).last() == s[n - 1]);
    } else {
        assert(s.take(0) =~= Seq::<(Seq<char>, Seq<char>, Seq<char>)>::empty());
    }
}

/// A pattern says what was stated, and how often.
pub proof fn law_pattern_says_what_was_stated(f: (Seq<char>, Seq<char>, Seq<char>), n: nat)
    ensures
        text::starts(pattern_of(f, n).description, f.0 + " "@ + f.1 + " "@ + f.2),
        text::has_part(pattern_of(f, n).description, "seen "@ + text::dec(n)),
        pattern_of(f, n).tags == seq![f.1],
        n <= u32::MAX ==> pattern_of(f, n).occurrence_count == n,
{
    let none = Seq::<char>::empty();
    let a = f.0 + " "@ + f.1 + " "@ + f.2;
    let d = text::dec(n);
    let z = " times)"@;
    let t = pattern_of(f, n).description;
    assert(" (seen "@ =~= " ("@ + "seen "@) by {
        reveal_strlit(" (seen ");
        reveal_strlit(" (");
        reveal_strlit("seen ");
    }
    text::lemma_part_at(none, a, " (seen "@ + d + z);
    assert(none + a + (" (seen "@ + d + z) =~= t);
    text::lemma_part_at(a + " ("@, "seen "@ + d, z);
    assert(a + " ("@ + ("seen "@ + d) + z =~= t);
}

} // verus!
