//! Noticing that the model calls the same tools over and over.
//!
//! Each turn with tool calls leaves the set of their fingerprints in a window of
//! the last five. A set that is there three times is a loop.

use crate::agent::forge;
use crate::agent::forge::tool_fingerprint;
use crate::providers::trait_def;
use crate::providers::trait_def::{Message, MessageView, ToolCall, ToolCallView};
use crate::text;
use crate::text::{chars_of, same};
use vstd::prelude::*;

verus! {

/// What tells a tool call apart.
pub type Print = (Seq<char>, u64);

/// Whether `a` comes before `b` in the order of their characters.
pub open spec fn text_before(a: Seq<char>, b: Seq<char>) -> bool
    decreases a.len(),
{
    if b.len() == 0 {
        false
    } else if a.len() == 0 {
        true
    } else if a[0] != b[0] {
        (a[0] as u32) < (b[0] as u32)
    } else {
        text_before(a.drop_first(), b.drop_first())
    }
}

/// Whether `a` comes before `b`: by name, then by hash.
pub open spec fn print_before(a: Print, b: Print) -> bool {
    if a.0 == b.0 {
        a.1 < b.1
    } else {
        text_before(a.0, b.0)
    }
}

/// Where `x` is, or belongs, from `k` on.
pub open spec fn print_position(s: Seq<Print>, x: Print, k: int) -> int
    decreases s.len() - k,
{
    if 0 <= k < s.len() && print_before(s[k], x) {
        print_position(s, x, k + 1)
    } else {
        k
    }
}

/// The set with one more fingerprint.
pub open spec fn with_print(s: Seq<Print>, x: Print) -> Seq<Print> {
    let p = print_position(s, x, 0);
    if p < s.len() && s[p] == x {
        s
    } else {
        s.insert(p, x)
    }
}

/// The fingerprints of some calls, in order and each once.
pub open spec fn print_set(calls: Seq<ToolCallView>) -> Seq<Print>
    decreases calls.len(),
{
    if calls.len() == 0 {
        Seq::empty()
    } else {
        with_print(print_set(calls.drop_last()), forge::fingerprint(calls.last()))
    }
}

/// The values of a list of fingerprints.
pub open spec fn prints(v: Seq<(String, u64)>) -> Seq<Print> {
    v.map_values(|p: (String, u64)| (p.0@, p.1))
}

/// The values of a window.
pub open spec fn print_sets(v: Seq<Vec<(String, u64)>>) -> Seq<Seq<Print>> {
    v.map_values(|s: Vec<(String, u64)>| prints(s@))
}

fn is_text_before(a: &str, b: &str) -> (r: bool)
    ensures
        r == text_before(a@, b@),
{
    let x = chars_of(a);
    let y = chars_of(b);
    let n: usize = x.len();
    let m: usize = y.len();
    let mut i: usize = 0;
    assert(x@.skip(0) =~= x@);
    assert(y@.skip(0) =~= y@);
    while i < n && i < m
        invariant
            i <= n == x@.len(),
            i <= m == y@.len(),
            x@ == a@,
            y@ == b@,
            text_before(x@, y@) == text_before(x@.skip(i as int), y@.skip(i as int)),
        decreases n - i,
    {
        if x[i] != y[i] {
            return (x[i] as u32) < (y[i] as u32);
        }
        assert(x@.skip(i as int).drop_first() =~= x@.skip(i + 1));
        assert(y@.skip(i as int).drop_first() =~= y@.skip(i + 1));
        i = i + 1;
    }
    i < m
}

fn is_print_before(a: &(String, u64), b: &(String, u64)) -> (r: bool)
    ensures
        r == print_before((a.0@, a.1), (b.0@, b.1)),
{
    if same(a.0.as_str(), b.0.as_str()) {
        a.1 < b.1
    } else {
        is_text_before(a.0.as_str(), b.0.as_str())
    }
}

fn add_print(set: &mut Vec<(String, u64)>, x: (String, u64))
    ensures
        prints(final(set)@) == with_print(prints(old(set)@), (x.0@, x.1)),
{
    let ghost s = prints(set@);
    let ghost all = set@;
    let ghost xv = (x.0@, x.1);
    let n: usize = set.len();
    let mut p: usize = 0;
    while p < n && is_print_before(&set[p], &x)
        invariant
            p <= n == set@.len(),
            set@ == all,
            s == prints(all),
            xv == (x.0@, x.1),
            print_position(s, xv, 0) == print_position(s, xv, p as int),
        decreases n - p,
    {
        p = p + 1;
    }
    let found = p < n && same(set[p].0.as_str(), x.0.as_str()) && set[p].1 == x.1;
    if !found {
        set.insert(p, x);
        assert(prints(set@) =~= s.insert(p as int, xv));
    }
}

/// The fingerprints of some calls, in order and each once.
pub fn fingerprint_set(calls: &Vec<ToolCall>) -> (r: Vec<(String, u64)>)
    ensures
        prints(r@) == print_set(trait_def::call_views(calls@)),
{
    let ghost s = trait_def::call_views(calls@);
    let n: usize = calls.len();
    let mut r: Vec<(String, u64)> = Vec::new();
    assert(prints(r@) =~= print_set(s.take(0)));
    for i in 0..n
        invariant
            n == calls@.len(),
            s == trait_def::call_views(calls@),
            prints(r@) == print_set(s.take(i as int)),
    {
        assert(s.take(i + 1).drop_last() =~= s.take(i as int));
        add_print(&mut r, tool_fingerprint(&calls[i]));
    }
    assert(s.take(n as int) =~= s);
    r
}

/// The fingerprints of the last row with tool calls from `from` on.
pub open spec fn latest_set(s: Seq<MessageView>, from: int) -> Seq<Print>
    decreases s.len(),
{
    if s.len() <= from || s.len() == 0 {
        Seq::empty()
    } else {
        match s.last().tool_calls {
            Some(calls) => print_set(calls),
            None => latest_set(s.drop_last(), from),
        }
    }
}

/// The fingerprints of the last row with tool calls from `from` on.
pub fn latest_fingerprints(rows: &Vec<Message>, from: usize) -> (r: Vec<(String, u64)>)
    ensures
        prints(r@) == latest_set(trait_def::views(rows@), from as int),
{
    let ghost s = trait_def::views(rows@);
    let mut n: usize = rows.len();
    assert(s.take(n as int) =~= s);
    while n > from
        invariant
            n <= rows@.len(),
            s == trait_def::views(rows@),
            latest_set(s, from as int) == latest_set(s.take(n as int), from as int),
        decreases n,
    {
        assert(s.take(n as int).drop_last() =~= s.take(n - 1));
        if let Some(calls) = &rows[n - 1].tool_calls {
            return fingerprint_set(calls);
        }
        n = n - 1;
    }
    let r: Vec<(String, u64)> = Vec::new();
    assert(prints(r@) =~= Seq::empty());
    r
}

/// The window with one more set: the last five.
pub open spec fn shifted(window: Seq<Seq<Print>>, set: Seq<Print>) -> Seq<Seq<Print>> {
    if window.len() >= 5 {
        window.drop_first().push(set)
    } else {
        window.push(set)
    }
}

/// How many sets of the window are `set`.
pub open spec fn times_seen(window: Seq<Seq<Print>>, set: Seq<Print>) -> nat
    decreases window.len(),
{
    if window.len() == 0 {
        0
    } else {
        times_seen(window.drop_last(), set) + (if window.last() == set {
            1nat
        } else {
            0
        })
    }
}

/// Whether some set is in the window three times or more.
pub open spec fn loops(window: Seq<Seq<Print>>) -> bool {
    exists|i: int| 0 <= i < window.len() && times_seen(window, #[trigger] window[i]) >= 3
}

fn same_set(a: &Vec<(String, u64)>, b: &Vec<(String, u64)>) -> (r: bool)
    ensures
        r == (prints(a@) == prints(b@)),
{
    let n: usize = a.len();
    if n != b.len() {
        assert(prints(a@).len() != prints(b@).len());
        return false;
    }
    for i in 0..n
        invariant
            n == a@.len() == b@.len(),
            forall|k: int| 0 <= k < i ==> prints(a@)[k] == prints(b@)[k],
    {
        if !same(a[i].0.as_str(), b[i].0.as_str()) || a[i].1 != b[i].1 {
            assert(prints(a@)[i as int] != prints(b@)[i as int]);
            return false;
        }
    }
    assert(prints(a@) =~= prints(b@));
    true
}

/// Puts a set into the window of the last five.
pub fn shift_window(window: &mut Vec<Vec<(String, u64)>>, set: Vec<(String, u64)>)
    ensures
        print_sets(final(window)@) == shifted(print_sets(old(window)@), prints(set@)),
{
    let ghost w = print_sets(window@);
    let ghost x = prints(set@);
    if window.len() >= 5 {
        let _ = window.remove(0);
        assert(print_sets(window@) =~= w.drop_first());
    }
    let ghost before = print_sets(window@);
    window.push(set);
    assert(print_sets(window@) =~= before.push(x));
}

/// Whether some set is in the window three times or more.
pub fn window_loops(window: &Vec<Vec<(String, u64)>>) -> (b: bool)
    ensures
        b == loops(print_sets(window@)),
{
    let ghost w = print_sets(window@);
    let n: usize = window.len();
    for i in 0..n
        invariant
            n == window@.len(),
            w == print_sets(window@),
            forall|k: int| 0 <= k < i ==> times_seen(w, #[trigger] w[k]) < 3,
    {
        let mut seen: usize = 0;
        for j in 0..n
            invariant
                i < n == window@.len(),
                w == print_sets(window@),
                seen == times_seen(w.take(j as int), w[i as int]),
                seen <= j,
        {
            assert(w.take(j + 1).drop_last() =~= w.take(j as int));
            if same_set(&window[j], &window[i]) {
                seen = seen + 1;
            }
        }
        assert(w.take(n as int) =~= w);
        if seen >= 3 {
            assert(times_seen(w, w[i as int]) >= 3);
            return true;
        }
    }
    false
}

/// The names in a set of fingerprints.
pub open spec fn names_of(s: Seq<Print>) -> Seq<Seq<char>> {
    s.map_values(|p: Print| p.0)
}

/// The names in a set of fingerprints.
pub fn set_names(set: &Vec<(String, u64)>) -> (r: Vec<String>)
    ensures
        text::texts(r@) == names_of(prints(set@)),
{
    let ghost s = names_of(prints(set@));
    let n: usize = set.len();
    let mut r: Vec<String> = Vec::new();
    for i in 0..n
        invariant
            n == set@.len() == s.len(),
            s == names_of(prints(set@)),
            text::texts(r@) == s.take(i as int),
    {
        let name = set[i].0.clone();
        proof {
            text::lemma_texts_push(r@, name);
            assert(s.take(i + 1) =~= s.take(i as int).push(s[i as int]));
        }
        r.push(name);
    }
    assert(s.take(n as int) =~= s);
    r
}

/// The window never holds more than five sets.
pub proof fn law_window_is_bounded(window: Seq<Seq<Print>>, set: Seq<Print>)
    requires
        window.len() <= 5,
    ensures
        shifted(window, set).len() <= 5,
        shifted(window, set).last() == set,
{
}

proof fn lemma_times_seen(window: Seq<Seq<Print>>, set: Seq<Print>)
    ensures
        times_seen(window, set) >= 1 ==> exists|i: int|
            0 <= i < window.len() && #[trigger] window[i] == set,
        times_seen(window, set) >= 2 ==> exists|i: int, j: int|
            0 <= i < j < window.len() && #[trigger] window[i] == set && #[trigger] window[j] == set,
        times_seen(window, set) >= 3 ==> exists|i: int, j: int, k: int|
            0 <= i < j < k < window.len() && #[trigger] window[i] == set && #[trigger] window[j]
                == set && #[trigger] window[k] == set,
    decreases window.len(),
{
    if window.len() > 0 {
        let front = window.drop_last();
        lemma_times_seen(front, set);
        let n = window.len() - 1;
        assert(window[n] == window.last());
        assert forall|x: int| 0 <= x < n implies #[trigger] window[x] == front[x] by {}
        if times_seen(window, set) >= 1 {
            if window.last() != set {
                let i = choose|i: int| 0 <= i < front.len() && #[trigger] front[i] == set;
                assert(window[i] == set);
            }
        }
        if times_seen(window, set) >= 2 {
            if window.last() == set {
                let i = choose|i: int| 0 <= i < front.len() && #[trigger] front[i] == set;
                assert(window[i] == set && window[n] == set);
            } else {
                let (i, j) = choose|i: int, j: int|
                    0 <= i < j < front.len() && #[trigger] front[i] == set && #[trigger] front[j]
                        == set;
                assert(window[i] == set && window[j] == set);
            }
        }
        if times_seen(window, set) >= 3 {
            if window.last() == set {
                let (i, j) = choose|i: int, j: int|
                    0 <= i < j < front.len() && #[trigger] front[i] == set && #[trigger] front[j]
                        == set;
                assert(window[i] == set && window[j] == set && window[n] == set);
            } else {
                let (i, j, k) = choose|i: int, j: int, k: int|
                    0 <= i < j < k < front.len() && #[trigger] front[i] == set
                        && #[trigger] front[j] == set && #[trigger] front[k] == set;
                assert(window[i] == set && window[j] == set && window[k] == set);
            }
        }
    }
}

proof fn lemma_seen_at_least(window: Seq<Seq<Print>>, set: Seq<Print>, n: int)
    requires
        0 <= n <= window.len(),
    ensures
        times_seen(window, set) >= times_seen(window.take(n), set),
        n < window.len() && window[n] == set ==> times_seen(window.take(n + 1), set) == times_seen(
            window.take(n),
            set,
        ) + 1,
    decreases window.len() - n,
{
    if n < window.len() {
        lemma_seen_at_least(window, set, n + 1);
        assert(window.take(n + 1).drop_last() =~= window.take(n));
        assert(window.take(n + 1).last() == window[n]);
    } else {
        assert(window.take(n) =~= window);
    }
}

proof fn lemma_seen_between(window: Seq<Seq<Print>>, set: Seq<Print>, a: int, b: int)
    requires
        0 <= a <= b <= window.len(),
    ensures
        times_seen(window.take(a), set) <= times_seen(window.take(b), set),
{
    lemma_seen_at_least(window.take(b), set, a);
    assert(window.take(b).take(a) =~= window.take(a));
}

/// A loop is found exactly where one set of calls was made three times in the window.
pub proof fn law_three_times_is_a_loop(window: Seq<Seq<Print>>)
    ensures
        loops(window) <==> exists|i: int, j: int, k: int|
            0 <= i < j < k < window.len() && #[trigger] window[i] == #[trigger] window[j]
                && window[j] == #[trigger] window[k],
{
    if loops(window) {
        let m = choose|i: int| 0 <= i < window.len() && times_seen(window, #[trigger] window[i]) >= 3;
        lemma_times_seen(window, window[m]);
    }
    if exists|i: int, j: int, k: int|
        0 <= i < j < k < window.len() && #[trigger] window[i] == #[trigger] window[j] && window[j]
            == #[trigger] window[k] {
        let (i, j, k) = choose|i: int, j: int, k: int|
            0 <= i < j < k < window.len() && #[trigger] window[i] == #[trigger] window[j]
                && window[j] == #[trigger] window[k];
        let set = window[i];
        lemma_seen_at_least(window, set, i);
        lemma_seen_at_least(window, set, j);
        lemma_seen_at_least(window, set, k);
        lemma_seen_at_least(window, set, k + 1);
        lemma_seen_between(window, set, i + 1, j);
        lemma_seen_between(window, set, j + 1, k);
        assert(times_seen(window, window[i]) >= 3);
    }
}

/// The window holds the newest sets, in the order in which they came.
pub proof fn law_window_holds_the_newest(window: Seq<Seq<Print>>, set: Seq<Print>)
    requires
        window.len() <= 5,
    ensures
        ({
            let now = shifted(window, set);
            let all = window.push(set);
            &&& now.is_suffix_of(all)
            &&& now.len() == (if all.len() > 5 {
                5
            } else {
                all.len() as int
            })
        }),
{
    let now = shifted(window, set);
    let all = window.push(set);
    assert(now =~= all.subrange(all.len() - now.len(), all.len() as int));
}

proof fn lemma_with_print(s: Seq<Print>, x: Print, y: Print)
    ensures
        with_print(s, x).contains(y) <==> s.contains(y) || y == x,
{
    let p = print_position(s, x, 0);
    lemma_print_position(s, x, 0);
    let t = with_print(s, x);
    if p < s.len() && s[p] == x {
        assert(s.contains(x));
    } else {
        assert(t[p] == x);
        if s.contains(y) {
            let k = choose|k: int| 0 <= k < s.len() && s[k] == y;
            assert(t[if k < p {
                k
            } else {
                k + 1
            }] == y);
        }
        if t.contains(y) && y != x {
            let k = choose|k: int| 0 <= k < t.len() && t[k] == y;
            assert(s[if k < p {
                k
            } else {
                k - 1
            }] == y);
        }
    }
}

proof fn lemma_print_position(s: Seq<Print>, x: Print, k: int)
    requires
        0 <= k <= s.len(),
    ensures
        k <= print_position(s, x, k) <= s.len(),
    decreases s.len() - k,
{
    if k < s.len() && print_before(s[k], x) {
        lemma_print_position(s, x, k + 1);
    }
}

/// The set of some calls holds the fingerprint of every one of them and no other.
pub proof fn law_set_holds_the_calls(calls: Seq<ToolCallView>, p: Print)
    ensures
        print_set(calls).contains(p) <==> exists|i: int|
            0 <= i < calls.len() && forge::fingerprint(#[trigger] calls[i]) == p,
    decreases calls.len(),
{
    if calls.len() > 0 {
        let front = calls.drop_last();
        law_set_holds_the_calls(front, p);
        lemma_with_print(print_set(front), forge::fingerprint(calls.last()), p);
        assert(calls.last() == calls[calls.len() - 1]);
        if print_set(front).contains(p) {
            let i = choose|i: int|
                0 <= i < front.len() && forge::fingerprint(#[trigger] front[i]) == p;
            assert(forge::fingerprint(calls[i]) == p);
        }
        if exists|i: int| 0 <= i < calls.len() && forge::fingerprint(#[trigger] calls[i]) == p {
            let i = choose|i: int|
                0 <= i < calls.len() && forge::fingerprint(#[trigger] calls[i]) == p;
            if i < front.len() {
                assert(forge::fingerprint(front[i]) == p);
            }
        }
    }
}

/// The calls that count are those of the latest row of the turn that has any, all of them.
pub proof fn law_latest_calls_count(
    s: Seq<MessageView>,
    m: MessageView,
    behind: Seq<MessageView>,
    from: int,
)
    requires
        0 <= from <= s.len(),
        m.tool_calls is Some,
        forall|i: int| 0 <= i < behind.len() ==> (#[trigger] behind[i]).tool_calls is None,
    ensures
        latest_set(s.push(m) + behind, from) == print_set(m.tool_calls->0),
        latest_set(behind, 0) == Seq::<Print>::empty(),
    decreases behind.len(),
{
    let all = s.push(m) + behind;
    if behind.len() == 0 {
        assert(all =~= s.push(m));
    } else {
        let front = behind.drop_last();
        assert(all.drop_last() =~= s.push(m) + front);
        assert(all.last() == behind[behind.len() - 1]);
        assert forall|i: int| 0 <= i < front.len() implies (#[trigger] front[i]).tool_calls is None by {
            assert(front[i] == behind[i]);
        }
        law_latest_calls_count(s, m, front, from);
        assert(behind.last() == behind[behind.len() - 1]);
    }
}

} // verus!
