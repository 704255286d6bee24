//! Breaking a task down into subtasks.
//!
//! The model is asked for a numbered list; [`parse_subtasks`] reads it.
//! `1. Create model` is a subtask, `2. Migration deps: 1` one that waits for the
//! first.

use crate::auto::subtask;
use crate::auto::subtask::{has_cycle, StatusView, Subtask, SubtaskStatus, SubtaskView};
use crate::magi::scheduler::MagiError;
use crate::providers::trait_def;
use crate::providers::trait_def::{Message, Role};
use crate::text;
use crate::text::{
    ascii_lowercase, cat2, cat3, chars_of, copy_range, decimal, find, is_ascii_digit, lines,
    read_digits, read_number, text_of, trim, trim_start,
};
use vstd::prelude::*;
use vstd::slice::slice_subrange;
use vstd::string::*;

verus! {

// ── The prompt ──────────────────────────────────────────────────────────────

/// The prompt that asks for the subtasks of a task.
pub open spec fn decompose_text(prd: Seq<char>) -> Seq<char> {
    "Break down the following task into a numbered list of subtasks.\nEach line: `N. description` optionally followed by `deps: A,B` where A,B are other numbers.\nExample:\n1. Create user model\n2. Add migration deps: 1\n3. Wire API deps: 1,2\nPrefer independent tasks when possible. Max 12 subtasks.\nOutput ONLY the numbered list, no commentary.\n\nTask:\n"@
        + prd
}

/// The conversation that asks for the subtasks of a task.
pub fn decompose_task(prd: &str) -> (r: Vec<Message>)
    ensures
        trait_def::views(r@) == seq![
            trait_def::text_message(
                Role::System,
                "You are a task decomposition assistant. Output only a numbered list. Use deps: when a task must wait on earlier numbers."@,
            ),
            trait_def::text_message(Role::User, decompose_text(prd@)),
        ],
{
    let mut r: Vec<Message> = Vec::new();
    r.push(
        Message::from_text(
            Role::System,
            "You are a task decomposition assistant. Output only a numbered list. Use deps: when a task must wait on earlier numbers.".to_string(),
        ),
    );
    r.push(
        Message::from_text(
            Role::User,
            cat2(
                "Break down the following task into a numbered list of subtasks.\nEach line: `N. description` optionally followed by `deps: A,B` where A,B are other numbers.\nExample:\n1. Create user model\n2. Add migration deps: 1\n3. Wire API deps: 1,2\nPrefer independent tasks when possible. Max 12 subtasks.\nOutput ONLY the numbered list, no commentary.\n\nTask:\n",
                prd,
            ),
        ),
    );
    assert(trait_def::views(r@) =~= seq![
        trait_def::text_message(
            Role::System,
            "You are a task decomposition assistant. Output only a numbered list. Use deps: when a task must wait on earlier numbers."@,
        ),
        trait_def::text_message(Role::User, decompose_text(prd@)),
    ]);
    r
}

// ── One line ────────────────────────────────────────────────────────────────

/// How many digits a text starts with.
pub open spec fn leading_digits(s: Seq<char>, k: int) -> int
    decreases s.len() - k,
{
    if 0 <= k < s.len() && text::is_digit(s[k]) {
        leading_digits(s, k + 1)
    } else {
        k
    }
}

/// The number that a line starts with, and what stands behind it and the dot or
/// bracket after it. Nothing for a line that starts with no number, or with one
/// that is too large.
pub open spec fn numbered(line: Seq<char>) -> Option<(usize, Seq<char>)> {
    let t = text::trim_of(line);
    let k = leading_digits(t, 0);
    if k == 0 {
        None
    } else {
        match text::usize_of(Some(text::value_of(t.take(k)))) {
            Some(n) => {
                let rest = text::trim_start_of(t.skip(k));
                let rest = if rest.len() > 0 && (rest[0] == '.' || rest[0] == ')') {
                    rest.skip(1)
                } else {
                    rest
                };
                Some((n, text::trim_start_of(rest)))
            },
            None => None,
        }
    }
}

/// What separates the numbers of dependencies.
pub open spec fn is_dep_separator(c: char) -> bool {
    c == ',' || c == ' ' || c == ';'
}

/// Where the item that starts at `from` ends.
pub open spec fn item_end(s: Seq<char>, from: int) -> int
    decreases s.len() - from,
{
    if 0 <= from < s.len() && !is_dep_separator(s[from]) {
        item_end(s, from + 1)
    } else {
        from
    }
}

proof fn lemma_item_end(s: Seq<char>, from: int)
    requires
        0 <= from <= s.len(),
    ensures
        from <= item_end(s, from) <= s.len(),
    decreases s.len() - from,
{
    if from < s.len() && !is_dep_separator(s[from]) {
        lemma_item_end(s, from + 1);
    }
}

/// The number in an item, as a list.
pub open spec fn dep_in(item: Seq<char>) -> Seq<usize> {
    match text::usize_of(text::number_of(text::trim_of(item))) {
        Some(n) => seq![n],
        None => Seq::empty(),
    }
}

/// The numbers of dependencies in the text from `from` on. What is no number is
/// left out.
pub open spec fn deps_from(s: Seq<char>, from: int) -> Seq<usize>
    decreases s.len() - from + 1,
    via deps_decrease
{
    if from < 0 || from > s.len() {
        Seq::empty()
    } else {
        let end = item_end(s, from);
        dep_in(s.subrange(from, end)) + (if end >= s.len() {
            Seq::empty()
        } else {
            deps_from(s, end + 1)
        })
    }
}

#[via_fn]
proof fn deps_decrease(s: Seq<char>, from: int) {
    if 0 <= from <= s.len() {
        lemma_item_end(s, from);
    }
}

/// A description without the dependencies at its end, and these.
pub open spec fn parted(rest: Seq<char>) -> (Seq<char>, Seq<usize>) {
    let lower = text::ascii_lowered(rest);
    let a = text::first_at(lower, "deps:"@);
    let b = text::first_at(lower, "depends_on:"@);
    if a >= 0 {
        (text::trim_of(rest.take(a)), deps_from(text::trim_of(rest.skip(a + 5)), 0))
    } else if b >= 0 {
        (text::trim_of(rest.take(b)), deps_from(text::trim_of(rest.skip(b + 11)), 0))
    } else {
        (text::trim_of(rest), Seq::empty())
    }
}

/// Reads the number that a line starts with.
pub fn split_numbered(line: &[char]) -> (r: Option<(usize, Vec<char>)>)
    ensures
        match r {
            Some(p) => numbered(line@) == Some((p.0, p.1@)),
            None => numbered(line@) is None,
        },
{
    let t = trim(line);
    let n: usize = t.len();
    let mut k: usize = 0;
    while k < n && is_ascii_digit(t[k])
        invariant
            k <= n == t@.len(),
            leading_digits(t@, 0) == leading_digits(t@, k as int),
            forall|i: int| 0 <= i < k ==> text::is_digit(#[trigger] t@[i]),
        decreases n - k,
    {
        k = k + 1;
    }
    if k == 0 {
        return None;
    }
    let digits = slice_subrange(t, 0, k);
    assert(digits@ =~= t@.take(k as int));
    let num: usize = match read_digits(digits) {
        Some(v) => v,
        None => return None,
    };
    let behind = slice_subrange(t, k, n);
    assert(behind@ =~= t@.skip(k as int));
    let rest = trim_start(behind);
    let m: usize = rest.len();
    let from: usize = if m > 0 && (rest[0] == '.' || rest[0] == ')') {
        1
    } else {
        0
    };
    let after = slice_subrange(rest, from, m);
    proof {
        assert(rest@.subrange(0, m as int) =~= rest@);
        assert(rest@.subrange(1, m as int) =~= rest@.skip(1));
    }
    let last = trim_start(after);
    let out = copy_range(last, 0, last.len());
    assert(out@ =~= last@);
    Some((num, out))
}

/// Reads a list of dependencies.
pub fn parse_dep_list(s: &[char]) -> (r: Vec<usize>)
    ensures
        r@ == deps_from(s@, 0),
{
    let n: usize = s.len();
    let mut r: Vec<usize> = Vec::new();
    let mut from: usize = 0;
    let mut more = true;
    assert(r@ + deps_from(s@, 0) =~= deps_from(s@, 0));
    while more
        invariant
            n == s@.len(),
            more ==> from <= n,
            more ==> r@ + deps_from(s@, from as int) == deps_from(s@, 0),
            !more ==> r@ == deps_from(s@, 0),
        decreases (if more {
            n - from + 1
        } else {
            0
        }),
    {
        let ghost before = r@;
        let mut end: usize = from;
        while end < n && !(s[end] == ',' || s[end] == ' ' || s[end] == ';')
            invariant
                from <= end <= n == s@.len(),
                item_end(s@, from as int) == item_end(s@, end as int),
            decreases n - end,
        {
            end = end + 1;
        }
        if let Some(d) = read_number(trim(slice_subrange(s, from, end))) {
            r.push(d);
        }
        assert(r@ =~= before + dep_in(s@.subrange(from as int, end as int)));
        if end >= n {
            assert(r@ =~= before + deps_from(s@, from as int));
            more = false;
        } else {
            assert(r@ + deps_from(s@, end + 1) =~= before + deps_from(s@, from as int));
            from = end + 1;
        }
    }
    r
}

/// Parts a description from the dependencies at its end.
pub fn split_deps(rest: &[char]) -> (r: (String, Vec<usize>))
    ensures
        (r.0@, r.1@) == parted(rest@),
{
    let lower = chars_of(ascii_lowercase(text_of(rest).as_str()).as_str());
    assert(lower@.len() == rest@.len());
    let n: usize = rest.len();
    let deps = chars_of("deps:");
    let depends = chars_of("depends_on:");
    proof {
        reveal_strlit("deps:");
        reveal_strlit("depends_on:");
    }
    if let Some(i) = find(lower.as_slice(), deps.as_slice()) {
        let head = slice_subrange(rest, 0, i);
        let tail = slice_subrange(rest, i + 5, n);
        assert(head@ =~= rest@.take(i as int));
        assert(tail@ =~= rest@.skip(i + 5));
        return (text_of(trim(head)), parse_dep_list(trim(tail)));
    }
    if let Some(i) = find(lower.as_slice(), depends.as_slice()) {
        let head = slice_subrange(rest, 0, i);
        let tail = slice_subrange(rest, i + 11, n);
        assert(head@ =~= rest@.take(i as int));
        assert(tail@ =~= rest@.skip(i + 11));
        return (text_of(trim(head)), parse_dep_list(trim(tail)));
    }
    let none: Vec<usize> = Vec::new();
    assert(none@ =~= Seq::empty());
    (text_of(trim(rest)), none)
}

// ── The list ────────────────────────────────────────────────────────────────

/// One entry of the list: its number, its description and the numbers that it
/// depends on.
#[verifier::ext_equal]
pub struct EntryView {
    pub number: usize,
    pub description: Seq<char>,
    pub deps: Seq<usize>,
}

/// The entry in a line, as a list: none in a line without a number or without a
/// description.
pub open spec fn entry_in(line: Seq<char>) -> Seq<EntryView> {
    match numbered(line) {
        Some(p) => {
            let d = parted(p.1);
            if d.0.len() > 0 {
                seq![EntryView { number: p.0, description: d.0, deps: d.1 }]
            } else {
                Seq::empty()
            }
        },
        None => Seq::empty(),
    }
}

/// Whether a line starts the list: one numeral, and a dot or bracket.
pub open spec fn starts_list(line: Seq<char>) -> bool {
    let t = text::trim_of(line);
    t.len() >= 2 && text::is_number_char(t[0]) && (t[1] == '.' || t[1] == ')')
}

/// The first line that starts the list; all lines where none does.
pub open spec fn list_start(lines: Seq<Seq<char>>, k: int) -> int
    decreases lines.len() - k,
{
    if k < 0 || k >= lines.len() {
        0
    } else if starts_list(lines[k]) {
        k
    } else {
        list_start(lines, k + 1)
    }
}

/// The entries in the lines from `k` on.
pub open spec fn entries_from(lines: Seq<Seq<char>>, k: int) -> Seq<EntryView>
    decreases lines.len() - k,
{
    if k < 0 || k >= lines.len() {
        Seq::empty()
    } else {
        entry_in(lines[k]) + entries_from(lines, k + 1)
    }
}

/// The entries of a reply.
pub open spec fn entries(content: Seq<char>) -> Seq<EntryView> {
    let lines = text::lines_of(content);
    entries_from(lines, list_start(lines, 0))
}

/// The place in the plan of the last entry with the number, counted from one,
/// or 0.
pub open spec fn place_of(es: Seq<EntryView>, number: usize) -> int
    decreases es.len(),
{
    if es.len() == 0 {
        0
    } else if es.last().number == number {
        es.len() as int
    } else {
        place_of(es.drop_last(), number)
    }
}

/// The places of some numbers: those that the list has, without the entry's own.
pub open spec fn places(es: Seq<EntryView>, deps: Seq<usize>, own: int) -> Seq<usize>
    decreases deps.len(),
{
    if deps.len() == 0 {
        Seq::empty()
    } else {
        let front = places(es, deps.drop_last(), own);
        let p = place_of(es, deps.last());
        if p > 0 && p != own {
            front.push(p as usize)
        } else {
            front
        }
    }
}

/// The plan of a list, numbered from one.
pub open spec fn plan_of(es: Seq<EntryView>) -> Seq<SubtaskView> {
    Seq::new(
        es.len(),
        |i: int|
            SubtaskView {
                id: (i + 1) as usize,
                description: es[i].description,
                dependencies: places(es, es[i].deps, i + 1),
                status: StatusView::Pending,
            },
    )
}

/// A plan without its dependencies.
pub open spec fn independent(s: Seq<SubtaskView>) -> Seq<SubtaskView> {
    s.map_values(|t: SubtaskView| SubtaskView { dependencies: Seq::empty(), ..t })
}

/// The plan of a reply: without dependencies where these could not be worked
/// off.
pub open spec fn subtasks_of(content: Seq<char>) -> Seq<SubtaskView> {
    let plan = plan_of(entries(content));
    if subtask::ids_are_unique(plan) && subtask::can_be_worked_off(plan) {
        plan
    } else {
        independent(plan)
    }
}

/// Why a run failed.
#[derive(Debug)]
pub enum AutoError {
    /// A spiral failed.
    Magi(MagiError),
    /// The provider failed.
    Provider(String),
    /// A reply could not be read.
    Parse(String),
    /// The task was broken down anew too often.
    MaxRecomposeCycles(u32),
    /// There is nothing to do.
    NoSubtasks,
}

impl AutoError {
    /// What is said about a failure.
    pub open spec fn told(e: AutoError) -> Seq<char> {
        match e {
            AutoError::Magi(m) => "MAGI error: "@ + MagiError::told(m@),
            AutoError::Provider(s) => "provider error: "@ + s@,
            AutoError::Parse(s) => "parse error: "@ + s@,
            AutoError::MaxRecomposeCycles(n) => "max re-decompose cycles ("@ + text::dec(n as nat)
                + ") reached"@,
            AutoError::NoSubtasks => "decomposer produced no subtasks"@,
        }
    }

    /// What is said about the failure.
    pub fn describe(&self) -> (r: String)
        ensures
            r@ == AutoError::told(*self),
    {
        match self {
            AutoError::Magi(m) => cat2("MAGI error: ", m.describe().as_str()),
            AutoError::Provider(s) => cat2("provider error: ", s.as_str()),
            AutoError::Parse(s) => cat2("parse error: ", s.as_str()),
            AutoError::MaxRecomposeCycles(n) => cat3(
                "max re-decompose cycles (",
                decimal(*n as u64).as_str(),
                ") reached",
            ),
            AutoError::NoSubtasks => "decomposer produced no subtasks".to_string(),
        }
    }
}

/// One entry of the list.
struct Entry {
    number: usize,
    description: String,
    deps: Vec<usize>,
}

impl View for Entry {
    type V = EntryView;

    closed spec fn view(&self) -> EntryView {
        EntryView {
            number: self.number,
            description: self.description@,
            deps: self.deps@,
        }
    }
}

spec fn entry_views(v: Seq<Entry>) -> Seq<EntryView> {
    v.map_values(|e: Entry| e@)
}

/// Whether a line starts the list, given whether its first character is a
/// numeral.
pub fn line_starts_list(trimmed: &[char], numeral: bool) -> (b: bool)
    ensures
        b == (trimmed@.len() >= 2 && numeral && (trimmed@[1] == '.' || trimmed@[1] == ')')),
{
    trimmed.len() >= 2 && numeral && (trimmed[1] == '.' || trimmed[1] == ')')
}

fn find_list_start(ls: &Vec<Vec<char>>) -> (r: usize)
    ensures
        r == list_start(text::char_views(ls@), 0),
        r <= ls@.len(),
{
    let ghost s = text::char_views(ls@);
    let n: usize = ls.len();
    let mut k: usize = 0;
    while k < n
        invariant
            k <= n == ls@.len(),
            s == text::char_views(ls@),
            list_start(s, 0) == list_start(s, k as int),
        decreases n - k,
    {
        let t = trim(ls[k].as_slice());
        let numeral = t.len() > 0 && t[0].is_numeric();
        if line_starts_list(t, numeral) {
            return k;
        }
        k = k + 1;
    }
    0
}

fn read_entries(ls: &Vec<Vec<char>>, from: usize) -> (r: Vec<Entry>)
    requires
        from <= ls@.len(),
    ensures
        entry_views(r@) == entries_from(text::char_views(ls@), from as int),
{
    let ghost s = text::char_views(ls@);
    let n: usize = ls.len();
    let mut r: Vec<Entry> = Vec::new();
    assert(entry_views(r@) + entries_from(s, from as int) =~= entries_from(s, from as int));
    for k in from..n
        invariant
            from <= k <= n == ls@.len(),
            s == text::char_views(ls@),
            entry_views(r@) + entries_from(s, k as int) == entries_from(s, from as int),
    {
        let ghost before = entry_views(r@);
        if let Some((number, rest)) = split_numbered(ls[k].as_slice()) {
            let (description, deps) = split_deps(rest.as_slice());
            if !description.as_str().is_empty() {
                r.push(Entry { number, description, deps });
            }
        }
        assert(entry_views(r@) =~= before + entry_in(s[k as int]));
        assert(entry_views(r@) + entries_from(s, k + 1) =~= before + entries_from(s, k as int));
    }
    assert(entry_views(r@) + entries_from(s, n as int) =~= entry_views(r@));
    r
}

proof fn lemma_place_of(es: Seq<EntryView>, number: usize)
    ensures
        0 <= place_of(es, number) <= es.len(),
    decreases es.len(),
{
    if es.len() > 0 {
        lemma_place_of(es.drop_last(), number);
    }
}

fn find_place(es: &Vec<Entry>, number: usize) -> (r: usize)
    ensures
        r == place_of(entry_views(es@), number),
        r <= es@.len(),
{
    let ghost s = entry_views(es@);
    let mut n: usize = es.len();
    assert(s.take(n as int) =~= s);
    while n > 0
        invariant
            n <= es@.len(),
            s == entry_views(es@),
            place_of(s, number) == place_of(s.take(n as int), number),
        decreases n,
    {
        assert(s.take(n as int).drop_last() =~= s.take(n - 1));
        if es[n - 1].number == number {
            return n;
        }
        n = n - 1;
    }
    0
}

fn find_places(es: &Vec<Entry>, deps: &Vec<usize>, own: usize) -> (r: Vec<usize>)
    ensures
        r@ == places(entry_views(es@), deps@, own as int),
{
    let ghost s = entry_views(es@);
    let n: usize = deps.len();
    let mut r: Vec<usize> = Vec::new();
    for i in 0..n
        invariant
            n == deps@.len(),
            s == entry_views(es@),
            r@ == places(s, deps@.take(i as int), own as int),
    {
        assert(deps@.take(i + 1).drop_last() =~= deps@.take(i as int));
        let p: usize = find_place(es, deps[i]);
        if p > 0 && p != own {
            r.push(p);
        }
    }
    assert(deps@.take(n as int) =~= deps@);
    r
}

/// Reads a numbered list into a plan.
///
/// The subtasks are numbered from one, whatever numbers the list has; of two
/// entries with one number the later is meant. A subtask does not depend on
/// itself. Where the dependencies could not be worked off, all are dropped.
pub fn parse_subtasks(content: &str) -> (r: Result<Vec<Subtask>, AutoError>)
    ensures
        match r {
            Ok(v) => entries(content@).len() > 0 && subtask::task_views(v@) == subtasks_of(
                content@,
            ),
            Err(e) => entries(content@).len() == 0 && (e matches AutoError::Parse(msg) && msg@
                == "no numbered subtasks in decomposer output"@),
        },
{
    let chars = chars_of(content);
    let ls = lines(chars.as_slice());
    let from: usize = find_list_start(&ls);
    let es = read_entries(&ls, from);
    let ghost s = entry_views(es@);
    assert(s == entries(content@));
    let n: usize = es.len();
    assert(s.len() == n);
    if n == 0 {
        return Err(AutoError::Parse("no numbered subtasks in decomposer output".to_string()));
    }
    let mut plan: Vec<Subtask> = Vec::new();
    let ghost p = plan_of(s);
    for i in 0..n
        invariant
            n == es@.len() == p.len(),
            s == entry_views(es@),
            p == plan_of(s),
            subtask::task_views(plan@) == p.take(i as int),
    {
        let t = Subtask {
            id: i + 1,
            description: es[i].description.clone(),
            dependencies: find_places(&es, &es[i].deps, i + 1),
            status: SubtaskStatus::Pending,
        };
        proof {
            assert(t@ =~= p[i as int]);
            subtask::lemma_task_views_push(plan@, t);
            assert(p.take(i + 1) =~= p.take(i as int).push(p[i as int]));
        }
        plan.push(t);
    }
    assert(p.take(n as int) =~= p);
    if !has_cycle(&plan) {
        return Ok(plan);
    }
    let mut free: Vec<Subtask> = Vec::new();
    let ghost q = independent(p);
    for i in 0..n
        invariant
            n == plan@.len() == p.len(),
            subtask::task_views(plan@) == p,
            q == independent(p),
            subtask::task_views(free@) == q.take(i as int),
    {
        let t = Subtask {
            id: plan[i].id,
            description: plan[i].description.clone(),
            dependencies: Vec::new(),
            status: plan[i].status.clone(),
        };
        proof {
            assert(plan@[i as int]@ == p[i as int]);
            assert(t@ =~= q[i as int]);
            subtask::lemma_task_views_push(free@, t);
            assert(q.take(i + 1) =~= q.take(i as int).push(q[i as int]));
        }
        free.push(t);
    }
    assert(q.take(n as int) =~= q);
    Ok(free)
}

// ── Laws ────────────────────────────────────────────────────────────────────

proof fn lemma_places(es: Seq<EntryView>, deps: Seq<usize>, own: int)
    requires
        es.len() <= usize::MAX,
    ensures
        forall|k: int|
            0 <= k < places(es, deps, own).len() ==> 1 <= #[trigger] places(es, deps, own)[k]
                <= es.len() && places(es, deps, own)[k] != own,
    decreases deps.len(),
{
    if deps.len() > 0 {
        let front = places(es, deps.drop_last(), own);
        let all = places(es, deps, own);
        lemma_places(es, deps.drop_last(), own);
        lemma_place_of(es, deps.last());
        assert forall|k: int| 0 <= k < all.len() implies 1 <= #[trigger] all[k] <= es.len() && all[k]
            != own by {
            if k < front.len() {
                assert(all[k] == front[k]);
            }
        }
    }
}

/// A plan that was read is numbered from one without gaps, its dependencies are
/// other subtasks of it, and it can be worked off: none of it waits for itself
/// in a circle.
pub proof fn law_plan_can_be_worked_off(content: Seq<char>)
    requires
        entries(content).len() <= usize::MAX,
    ensures
        subtask::can_be_worked_off(subtasks_of(content)),
        forall|i: int|
            0 <= i < subtasks_of(content).len() ==> (#[trigger] subtasks_of(content)[i]).id == i + 1,
        forall|i: int, k: int|
            0 <= i < subtasks_of(content).len() && 0 <= k < subtasks_of(
                content,
            )[i].dependencies.len() ==> 1 <= #[trigger] subtasks_of(content)[i].dependencies[k]
                <= subtasks_of(content).len() && subtasks_of(content)[i].dependencies[k] != i + 1,
{
    let es = entries(content);
    let plan = plan_of(es);
    let tasks = subtasks_of(content);
    if !(subtask::ids_are_unique(plan) && subtask::can_be_worked_off(plan)) {
        subtask::law_independent_tasks_can_be_worked_off(tasks);
    }
    assert forall|i: int, k: int|
        0 <= i < tasks.len() && 0 <= k < tasks[i].dependencies.len() implies 1
        <= #[trigger] tasks[i].dependencies[k] <= tasks.len() && tasks[i].dependencies[k] != i + 1 by {
        lemma_places(es, es[i].deps, i + 1);
    }
}

/// Whether a text holds no word that announces dependencies, in whatever case.
pub open spec fn announces_nothing(s: Seq<char>) -> bool {
    !text::has_part(text::ascii_lowered(s), "deps:"@) && !text::has_part(
        text::ascii_lowered(s),
        "depends_on:"@,
    )
}

/// Whether a text can stand as a description: it says something on one line, has no
/// whitespace around it and announces no dependencies.
pub open spec fn is_description(s: Seq<char>) -> bool {
    &&& s.len() > 0
    &&& text::is_tight(s)
    &&& text::is_line(s)
    &&& announces_nothing(s)
}

/// Numbers in decimal notation.
pub open spec fn decimals(ns: Seq<usize>) -> Seq<Seq<char>> {
    ns.map_values(|n: usize| text::dec(n as nat))
}

/// An entry as a line: its number, its description, and its dependencies where it
/// has any, behind the word `announced` and with `separator` between them.
pub open spec fn entry_line(e: EntryView, announced: Seq<char>, separator: char) -> Seq<char> {
    text::dec(e.number as nat) + ". "@ + e.description + (if e.deps.len() > 0 {
        " "@ + announced + " "@ + text::joined(decimals(e.deps), seq![separator])
    } else {
        Seq::empty()
    })
}

proof fn lemma_leading_digits(a: Seq<char>, b: Seq<char>, k: int)
    requires
        0 <= k <= a.len(),
        text::all_digits(a),
        b.len() > 0 ==> !text::is_digit(b[0]),
    ensures
        leading_digits(a + b, k) == a.len(),
    decreases a.len() - k,
{
    if k < a.len() {
        assert((a + b)[k] == a[k]);
        lemma_leading_digits(a, b, k + 1);
    } else if b.len() > 0 {
        assert((a + b)[k] == b[0]);
    }
}

/// A line that starts with a number, a dot or a bracket and a space is numbered by it, and
/// what stands behind is left as it is.
pub proof fn law_number_is_read(n: usize, mark: char, rest: Seq<char>)
    requires
        mark == '.' || mark == ')',
        rest.len() > 0,
        text::is_tight(rest),
    ensures
        numbered(text::dec(n as nat) + seq![mark, ' '] + rest) == Some((n, rest)),
{
    let none = Seq::<char>::empty();
    let d = text::dec(n as nat);
    let line = d + seq![mark, ' '] + rest;
    text::law_number_reads_back(n as nat);
    assert(text::is_digit(d[0]));
    assert(line[0] == d[0]);
    assert(line.last() == rest.last());
    text::law_trim_takes_whitespace(none, line, none);
    assert(none + line + none =~= line);
    assert(text::trim_of(line) == line);
    let b = seq![mark, ' '] + rest;
    assert(line =~= d + b);
    lemma_leading_digits(d, b, 0);
    let k = d.len() as int;
    assert(line.take(k) =~= d);
    assert(line.skip(k) =~= b);
    assert(text::trim_start_of(b) == b);
    assert(b.skip(1) =~= seq![' '] + rest);
    assert(text::is_blank(seq![' ']));
    text::lemma_trim_start_behind(seq![' '], rest);
    assert(text::trim_start_of(rest) == rest);
}

proof fn lemma_numbered(n: usize, rest: Seq<char>)
    requires
        rest.len() > 0,
        text::is_tight(rest),
    ensures
        numbered(text::dec(n as nat) + ". "@ + rest) == Some((n, rest)),
{
    reveal_strlit(". ");
    assert(". "@ =~= seq!['.', ' ']);
    law_number_is_read(n, '.', rest);
}

proof fn lemma_plain_is_parted(d: Seq<char>)
    requires
        text::is_tight(d),
        announces_nothing(d),
    ensures
        parted(d) == (d, Seq::<usize>::empty()),
{
    let none = Seq::<char>::empty();
    let lower = text::ascii_lowered(d);
    text::lemma_first_at(lower, "deps:"@);
    text::lemma_first_at(lower, "depends_on:"@);
    text::law_trim_takes_whitespace(none, d, none);
    assert(none + d + none =~= d);
}

proof fn lemma_item_ends(s: Seq<char>, from: int, d: Seq<char>)
    requires
        text::at(s, d, from),
        text::all_digits(d),
        from + d.len() < s.len() ==> is_dep_separator(s[from + d.len()]),
    ensures
        item_end(s, from) == from + d.len(),
    decreases d.len(),
{
    if d.len() > 0 {
        assert(s.subrange(from, from + d.len())[0] == s[from]);
        assert(text::is_digit(d[0]));
        assert(!is_dep_separator(s[from]));
        let e = d.skip(1);
        assert(s.subrange(from + 1, from + 1 + e.len()) =~= e) by {
            assert(s.subrange(from + 1, from + 1 + e.len()) =~= s.subrange(
                from,
                from + d.len(),
            ).skip(1));
        }
        assert forall|i: int| 0 <= i < e.len() implies text::is_digit(#[trigger] e[i]) by {
            assert(e[i] == d[i + 1]);
        }
        lemma_item_ends(s, from + 1, e);
    }
}

proof fn lemma_dep_in(n: usize)
    ensures
        dep_in(text::dec(n as nat)) == seq![n],
{
    let none = Seq::<char>::empty();
    let d = text::dec(n as nat);
    text::law_number_reads_back(n as nat);
    assert(text::is_digit(d[0]));
    assert(text::is_digit(d[d.len() - 1]));
    text::law_trim_takes_whitespace(none, d, none);
    assert(none + d + none =~= d);
}

#[verifier::rlimit(40)]
proof fn lemma_deps_from(s: Seq<char>, from: int, ns: Seq<usize>, c: char)
    requires
        0 <= from <= s.len(),
        ns.len() > 0,
        is_dep_separator(c),
        s.skip(from) == text::joined(decimals(ns), seq![c]),
    ensures
        deps_from(s, from) == ns,
    decreases ns.len(),
{
    let t = s.skip(from);
    let ds = decimals(ns);
    let d = ds[0];
    let m = d.len() as int;
    text::law_number_reads_back(ns[0] as nat);
    lemma_dep_in(ns[0]);
    if ns.len() == 1 {
        assert(t == d);
        assert(s.subrange(from, from + m) =~= d);
        lemma_item_ends(s, from, d);
        assert(deps_from(s, from) =~= ns);
    } else {
        let rest = ns.drop_first();
        let tail = text::joined(decimals(rest), seq![c]);
        assert(t == d + seq![c] + tail) by {
            assert(ds =~= seq![d] + decimals(rest));
            text::lemma_joined_front(d, decimals(rest), seq![c]);
        }
        assert(t[m] == c);
        assert(s.subrange(from, from + m) =~= d) by {
            assert(s.subrange(from, from + m) =~= t.take(m));
            assert(t.take(m) =~= d);
        }
        lemma_item_ends(s, from, d);
        assert(s.skip(from + m + 1) =~= tail) by {
            assert(s.skip(from + m + 1) =~= t.skip(m + 1));
            assert(t.skip(m + 1) =~= tail);
        }
        lemma_deps_from(s, from + m + 1, rest, c);
        assert(seq![ns[0]] + rest =~= ns);
    }
}

/// A list of numbers is tight: it starts and ends with a digit.
proof fn lemma_list_is_tight(ns: Seq<usize>, c: char)
    requires
        ns.len() > 0,
    ensures
        text::joined(decimals(ns), seq![c]).len() > 0,
        text::is_tight(text::joined(decimals(ns), seq![c])),
    decreases ns.len(),
{
    let ds = decimals(ns);
    let all = text::joined(ds, seq![c]);
    let d = ds.last();
    text::law_number_reads_back(ns.last() as nat);
    assert(text::is_digit(d[0]));
    assert(text::is_digit(d[d.len() - 1]));
    assert(all.last() == d.last());
    if ns.len() > 1 {
        let front = ns.drop_last();
        lemma_list_is_tight(front, c);
        assert(ds.drop_last() =~= decimals(front));
        assert(all[0] == text::joined(decimals(front), seq![c])[0]);
    }
}

#[verifier::rlimit(40)]
proof fn lemma_deps_are_parted(d: Seq<char>, w: Seq<char>, ns: Seq<usize>, c: char)
    requires
        d.len() > 0,
        text::is_tight(d),
        announces_nothing(d),
        text::ascii_lowered(w) == "deps:"@,
        ns.len() > 0,
        is_dep_separator(c),
    ensures
        parted(d + (" "@ + w + " "@ + text::joined(decimals(ns), seq![c]))) == (d, ns),
{
    let none = Seq::<char>::empty();
    let list = text::joined(decimals(ns), seq![c]);
    let rest = d + (" "@ + w + " "@ + list);
    let lower = text::ascii_lowered(rest);
    let low = text::ascii_lowered(d);
    let m = d.len() as int;
    let p = "deps:"@;
    reveal_strlit("deps:");
    reveal_strlit(" ");
    assert(text::ascii_lowered(w).len() == w.len());
    assert(rest.skip(m + 1).take(5) =~= w);
    assert(lower.subrange(m + 1, m + 6) =~= p) by {
        assert(lower.subrange(m + 1, m + 6) =~= text::ascii_lowered(w));
    }
    assert(text::at(lower, p, m + 1));
    text::lemma_first_at(lower, p);
    let a = text::first_at(lower, p);
    if a < 0 {
        assert(text::has_part(lower, p));
    }
    assert(a <= m + 1);
    if a < m + 1 {
        assert(lower[m] == ' ');
        if a + 5 <= m {
            assert(low.subrange(a, a + 5) =~= lower.subrange(a, a + 5));
            assert(text::at(low, p, a));
        } else {
            assert(lower.subrange(a, a + 5)[m - a] == lower[m]);
            assert(p[m - a] == ' ');
        }
    }
    assert(a == m + 1);
    assert(text::is_blank(seq![' ']));
    assert(text::is_blank(none));
    assert(rest.take(a) =~= none + d + seq![' ']);
    text::law_trim_takes_whitespace(none, d, seq![' ']);
    lemma_list_is_tight(ns, c);
    assert(rest.skip(a + 5) =~= seq![' '] + list + none);
    text::law_trim_takes_whitespace(seq![' '], list, none);
    assert(list.skip(0) =~= list);
    lemma_deps_from(list, 0, ns, c);
}

/// A line that says what an entry is gives that entry, whole and unaltered: its
/// number, its description up to the last word, and its dependencies in order. They
/// may be announced by `deps:` in any case, and parted by commas, semicolons or spaces.
pub proof fn law_entry_reads_back(e: EntryView, announced: Seq<char>, separator: char)
    requires
        e.description.len() > 0,
        text::is_tight(e.description),
        announces_nothing(e.description),
        text::ascii_lowered(announced) == "deps:"@,
        separator == ',' || separator == ';' || separator == ' ',
    ensures
        entry_in(entry_line(e, announced, separator)) == seq![e],
{
    let d = e.description;
    let n = text::dec(e.number as nat);
    if e.deps.len() > 0 {
        let list = text::joined(decimals(e.deps), seq![separator]);
        let tail = " "@ + announced + " "@ + list;
        lemma_deps_are_parted(d, announced, e.deps, separator);
        lemma_list_is_tight(e.deps, separator);
        assert((d + tail)[0] == d[0]);
        assert((d + tail).last() == list.last());
        lemma_numbered(e.number, d + tail);
        assert(n + ". "@ + (d + tail) =~= entry_line(e, announced, separator));
    } else {
        assert(e.deps =~= Seq::<usize>::empty());
        lemma_plain_is_parted(d);
        lemma_numbered(e.number, d);
        assert(n + ". "@ + d =~= entry_line(e, announced, separator));
    }
    assert(entry_in(entry_line(e, announced, separator)) =~= seq![e]);
}

/// The entries of a plan.
pub open spec fn entries_of_plan(plan: Seq<SubtaskView>) -> Seq<EntryView> {
    plan.map_values(
        |t: SubtaskView|
            EntryView { number: t.id, description: t.description, deps: t.dependencies },
    )
}

/// A plan as lines, in the form that the model is asked for.
pub open spec fn plan_lines(plan: Seq<SubtaskView>) -> Seq<Seq<char>> {
    entries_of_plan(plan).map_values(|e: EntryView| entry_line(e, "deps:"@, ','))
}

/// Whether a plan can be written down: its subtasks are numbered from one, none has
/// begun, each says on one line what to do, and each depends on others of the plan in
/// a way that can be worked off.
pub open spec fn can_be_written(plan: Seq<SubtaskView>) -> bool {
    &&& 0 < plan.len() <= usize::MAX
    &&& forall|i: int|
        0 <= i < plan.len() ==> {
            let t = #[trigger] plan[i];
            &&& t.id == i + 1
            &&& t.status == StatusView::Pending
            &&& is_description(t.description)
            &&& forall|k: int|
                0 <= k < t.dependencies.len() ==> 1 <= #[trigger] t.dependencies[k] <= plan.len()
                    && t.dependencies[k] != t.id
        }
    &&& subtask::can_be_worked_off(plan)
}

proof fn lemma_list_is_line(ns: Seq<usize>)
    ensures
        forall|j: int|
            0 <= j < text::joined(decimals(ns), seq![',']).len() ==> #[trigger] text::joined(
                decimals(ns),
                seq![','],
            )[j] != '\n',
    decreases ns.len(),
{
    let ds = decimals(ns);
    let all = text::joined(ds, seq![',']);
    if ns.len() > 0 {
        let front = ns.drop_last();
        lemma_list_is_line(front);
        assert(ds.drop_last() =~= decimals(front));
        let d = ds.last();
        text::law_number_reads_back(ns.last() as nat);
        let f = text::joined(decimals(front), seq![',']);
        assert forall|j: int| 0 <= j < all.len() implies #[trigger] all[j] != '\n' by {
            if ns.len() == 1 {
                assert(all == d);
                assert(text::is_digit(d[j]));
            } else if j < f.len() {
                assert(all[j] == f[j]);
            } else if j > f.len() {
                assert(all[j] == d[j - f.len() - 1]);
                assert(text::is_digit(d[j - f.len() - 1]));
            }
        }
    }
}

#[verifier::rlimit(40)]
proof fn lemma_entry_is_line(e: EntryView)
    requires
        is_description(e.description),
    ensures
        text::is_line(entry_line(e, "deps:"@, ',')),
        entry_line(e, "deps:"@, ',').len() > 0,
{
    let line = entry_line(e, "deps:"@, ',');
    let n = text::dec(e.number as nat);
    let d = e.description;
    reveal_strlit(". ");
    reveal_strlit(" ");
    reveal_strlit("deps:");
    text::law_number_reads_back(e.number as nat);
    let list = text::joined(decimals(e.deps), seq![',']);
    lemma_list_is_line(e.deps);
    if e.deps.len() > 0 {
        lemma_list_is_tight(e.deps, ',');
        assert(line.last() == list.last());
    } else {
        assert(line.last() == d.last());
    }
    assert(text::is_ws('\r'));
    let a = n.len() as int + 2;
    let b = a + d.len();
    assert forall|j: int| 0 <= j < line.len() implies #[trigger] line[j] != '\n' by {
        if j < n.len() {
            assert(line[j] == n[j]);
            assert(text::is_digit(n[j]));
        } else if j < a {
        } else if j < b {
            assert(line[j] == d[j - a]);
        } else if j < b + 7 {
            let w = " "@ + "deps:"@ + " "@;
            assert(line[j] == w[j - b]);
        } else {
            assert(line[j] == list[j - b - 7]);
        }
    }
}

proof fn lemma_entries_from_lines(es: Seq<EntryView>, k: int)
    requires
        0 <= k <= es.len(),
        forall|i: int| 0 <= i < es.len() ==> is_description((#[trigger] es[i]).description),
    ensures
        entries_from(es.map_values(|e: EntryView| entry_line(e, "deps:"@, ',')), k) == es.skip(k),
    decreases es.len() - k,
{
    let lines = es.map_values(|e: EntryView| entry_line(e, "deps:"@, ','));
    if k < es.len() {
        lemma_entries_from_lines(es, k + 1);
        assert(is_description(es[k].description));
        lemma_deps_word();
        law_entry_reads_back(es[k], "deps:"@, ',');
        assert(seq![es[k]] + es.skip(k + 1) =~= es.skip(k));
    } else {
        assert(es.skip(k) =~= Seq::<EntryView>::empty());
    }
}

proof fn lemma_deps_word()
    ensures
        text::ascii_lowered("deps:"@) == "deps:"@,
{
    reveal_strlit("deps:");
    assert(text::ascii_lowered("deps:"@) =~= "deps:"@);
}

proof fn lemma_places_are_numbers(es: Seq<EntryView>, deps: Seq<usize>, own: int)
    requires
        es.len() <= usize::MAX,
        forall|i: int| 0 <= i < es.len() ==> (#[trigger] es[i]).number == i + 1,
        forall|k: int|
            0 <= k < deps.len() ==> 1 <= #[trigger] deps[k] <= es.len() && deps[k] != own,
    ensures
        places(es, deps, own) == deps,
    decreases deps.len(),
{
    if deps.len() > 0 {
        let front = deps.drop_last();
        assert forall|k: int| 0 <= k < front.len() implies 1 <= #[trigger] front[k] <= es.len()
            && front[k] != own by {
            assert(front[k] == deps[k]);
        }
        lemma_places_are_numbers(es, front, own);
        let n = deps[deps.len() - 1];
        lemma_place_is_number(es, n, es.len() as int);
        assert(es.take(es.len() as int) =~= es);
        assert(front.push(n) =~= deps);
    } else {
        assert(places(es, deps, own) =~= deps);
    }
}

proof fn lemma_place_is_number(es: Seq<EntryView>, number: usize, k: int)
    requires
        number <= k <= es.len(),
        number >= 1,
        forall|i: int| 0 <= i < es.len() ==> (#[trigger] es[i]).number == i + 1,
    ensures
        place_of(es.take(k), number) == number,
    decreases k,
{
    let t = es.take(k);
    assert(t.last() == es[k - 1]);
    if number < k {
        assert(t.drop_last() =~= es.take(k - 1));
        lemma_place_is_number(es, number, k - 1);
    }
}

/// A plan that is written down in the form that the model is asked for, one line for
/// each subtask, reads back as itself.
#[verifier::rlimit(40)]
pub proof fn law_plan_reads_back(plan: Seq<SubtaskView>)
    requires
        can_be_written(plan),
    ensures
        subtasks_of(text::joined(plan_lines(plan), seq!['\n'])) == plan,
{
    let es = entries_of_plan(plan);
    let ls = plan_lines(plan);
    let content = text::joined(ls, seq!['\n']);
    assert forall|i: int| 0 <= i < es.len() implies is_description(
        (#[trigger] es[i]).description,
    ) by {
        assert(is_description(plan[i].description));
    }
    assert forall|i: int| 0 <= i < ls.len() implies text::is_line(#[trigger] ls[i]) && ls[i].len()
        > 0 by {
        assert(is_description(es[i].description));
        lemma_entry_is_line(es[i]);
    }
    text::law_lines_read_back(ls);
    assert(text::lines_of(content) == ls);
    assert(list_start(ls, 0) == 0) by {
        lemma_first_line_starts(es[0]);
        assert(plan[0].id == 1);
        assert(starts_list(ls[0]));
    }
    lemma_entries_from_lines(es, 0);
    assert(es.skip(0) =~= es);
    assert(entries(content) == es);
    let read = plan_of(es);
    assert forall|i: int| 0 <= i < plan.len() implies #[trigger] read[i] == plan[i] by {
        let t = plan[i];
        assert(t.id == i + 1);
        assert(es[i].deps == t.dependencies);
        assert forall|k: int| 0 <= k < es.len() implies (#[trigger] es[k]).number == k + 1 by {
            assert(plan[k].id == k + 1);
        }
        lemma_places_are_numbers(es, t.dependencies, i + 1);
    }
    assert(read =~= plan);
    assert(subtask::ids_are_unique(plan));
}

proof fn lemma_first_line_starts(e: EntryView)
    requires
        e.number == 1,
        is_description(e.description),
    ensures
        starts_list(entry_line(e, "deps:"@, ',')),
{
    let none = Seq::<char>::empty();
    let line = entry_line(e, "deps:"@, ',');
    reveal_strlit(". ");
    assert(text::dec(1) =~= seq!['1']);
    assert(line[0] == '1');
    assert(line[1] == '.');
    if e.deps.len() > 0 {
        lemma_list_is_tight(e.deps, ',');
        assert(line.last() == text::joined(decimals(e.deps), seq![',']).last());
    } else {
        assert(line.last() == e.description.last());
    }
    text::law_trim_takes_whitespace(none, line, none);
    assert(none + line + none =~= line);
}

/// What the model is asked to break down is the task, whole and at the end.
pub proof fn law_task_is_asked_for(prd: Seq<char>)
    ensures
        text::ends(decompose_text(prd), "Task:\n"@ + prd),
{
    let all = decompose_text(prd);
    reveal_strlit("Task:\n");
    reveal_strlit("Break down the following task into a numbered list of subtasks.\nEach line: `N. description` optionally followed by `deps: A,B` where A,B are other numbers.\nExample:\n1. Create user model\n2. Add migration deps: 1\n3. Wire API deps: 1,2\nPrefer independent tasks when possible. Max 12 subtasks.\nOutput ONLY the numbered list, no commentary.\n\nTask:\n");
    let tail = "Task:\n"@ + prd;
    assert(all.subrange(all.len() - tail.len(), all.len() as int) =~= tail);
}

proof fn lemma_place_is_last(es: Seq<EntryView>, number: usize)
    ensures
        ({
            let p = place_of(es, number);
            &&& 0 <= p <= es.len()
            &&& p > 0 ==> es[p - 1].number == number
            &&& forall|j: int| p <= j < es.len() ==> (#[trigger] es[j]).number != number
        }),
    decreases es.len(),
{
    if es.len() > 0 && es.last().number != number {
        let front = es.drop_last();
        lemma_place_is_last(front, number);
        let p = place_of(front, number);
        if p > 0 {
            assert(es[p - 1] == front[p - 1]);
        }
        assert forall|j: int| p <= j < es.len() implies (#[trigger] es[j]).number != number by {
            if j < front.len() {
                assert(front[j] == es[j]);
            }
        }
    }
}

/// A dependency means the entry with its number, the last where there are several; numbers
/// that the list does not have, and the entry's own, are left out, and no others.
pub proof fn law_dependencies_mean_their_numbers(es: Seq<EntryView>, deps: Seq<usize>, own: int, d: usize)
    requires
        es.len() <= usize::MAX,
    ensures
        forall|k: int|
            0 <= k < places(es, deps, own).len() ==> {
                let p = #[trigger] places(es, deps, own)[k];
                &&& 1 <= p <= es.len()
                &&& deps.contains(es[p - 1].number)
                &&& forall|j: int| p <= j < es.len() ==> (#[trigger] es[j]).number != es[p - 1].number
            },
        deps.contains(d) && place_of(es, d) > 0 && place_of(es, d) != own ==> places(
            es,
            deps,
            own,
        ).contains(place_of(es, d) as usize),
        (exists|j: int| 0 <= j < es.len() && (#[trigger] es[j]).number == d) ==> place_of(es, d) > 0,
    decreases deps.len(),
{
    lemma_place_is_last(es, d);
    if deps.len() > 0 {
        let rest = deps.drop_last();
        let front = places(es, rest, own);
        let all = places(es, deps, own);
        let last = deps.last();
        law_dependencies_mean_their_numbers(es, rest, own, d);
        lemma_place_is_last(es, last);
        assert(deps[deps.len() - 1] == last);
        assert forall|k: int| 0 <= k < all.len() implies {
            let p = #[trigger] all[k];
            &&& 1 <= p <= es.len()
            &&& deps.contains(es[p - 1].number)
            &&& forall|j: int| p <= j < es.len() ==> (#[trigger] es[j]).number != es[p - 1].number
        } by {
            if k < front.len() {
                assert(all[k] == front[k]);
                let p = front[k];
                let x = es[p - 1].number;
                let i = choose|i: int| 0 <= i < rest.len() && rest[i] == x;
                assert(deps[i] == x);
            }
        }
        if deps.contains(d) && place_of(es, d) > 0 && place_of(es, d) != own {
            if last == d {
                assert(all[all.len() - 1] == place_of(es, d) as usize);
            } else {
                let i = choose|i: int| 0 <= i < deps.len() && deps[i] == d;
                assert(rest[i] == d);
                let k = choose|k: int| 0 <= k < front.len() && front[k] == place_of(es, d) as usize;
                assert(all[k] == front[k]);
            }
        }
    }
}

proof fn lemma_list_has_no_letter(ns: Seq<usize>, c: char)
    requires
        is_dep_separator(c),
    ensures
        forall|j: int|
            0 <= j < text::joined(decimals(ns), seq![c]).len() ==> #[trigger] text::joined(
                decimals(ns),
                seq![c],
            )[j] != 'd',
    decreases ns.len(),
{
    let ds = decimals(ns);
    let all = text::joined(ds, seq![c]);
    if ns.len() > 0 {
        let front = ns.drop_last();
        lemma_list_has_no_letter(front, c);
        assert(ds.drop_last() =~= decimals(front));
        let d = ds.last();
        text::law_number_reads_back(ns.last() as nat);
        let f = text::joined(decimals(front), seq![c]);
        assert forall|j: int| 0 <= j < all.len() implies #[trigger] all[j] != 'd' by {
            if ns.len() == 1 {
                assert(all == d);
                assert(text::is_digit(d[j]));
            } else if j < f.len() {
                assert(all[j] == f[j]);
            } else if j > f.len() {
                assert(all[j] == d[j - f.len() - 1]);
                assert(text::is_digit(d[j - f.len() - 1]));
            }
        }
    }
}

/// Dependencies may be announced by `depends_on:` too.
#[verifier::rlimit(40)]
pub proof fn law_other_word_announces_dependencies(d: Seq<char>, ns: Seq<usize>, c: char)
    requires
        d.len() > 0,
        text::is_tight(d),
        announces_nothing(d),
        ns.len() > 0,
        c == ',' || c == ';',
    ensures
        parted(d + (" depends_on: "@ + text::joined(decimals(ns), seq![c]))) == (d, ns),
{
    let none = Seq::<char>::empty();
    let list = text::joined(decimals(ns), seq![c]);
    let w = " depends_on: "@;
    let rest = d + (w + list);
    let lower = text::ascii_lowered(rest);
    let low = text::ascii_lowered(d);
    let m = d.len() as int;
    let p = "deps:"@;
    let q = "depends_on:"@;
    reveal_strlit("deps:");
    reveal_strlit("depends_on:");
    reveal_strlit(" depends_on: ");
    lemma_list_has_no_letter(ns, c);
    text::lemma_first_at(lower, p);
    text::lemma_first_at(lower, q);
    assert forall|i: int| 0 <= i < lower.len() implies lower[i] == text::ascii_lower(
        #[trigger] rest[i],
    ) by {}
    assert forall|i: int| m <= i < m + 13 implies #[trigger] rest[i] == w[i - m] by {}
    assert forall|i: int| m + 13 <= i < rest.len() implies #[trigger] rest[i] == list[i - m - 13] by {}
    let a = text::first_at(lower, p);
    if a >= 0 {
        assert(text::at(lower, p, a));
        let x = lower.subrange(a, a + 5);
        assert(x == p);
        assert(x[0] == lower[a] && x[1] == lower[a + 1] && x[3] == lower[a + 3]);
        if a + 5 <= m {
            assert(low.subrange(a, a + 5) =~= x);
            assert(text::at(low, p, a));
        } else if a <= m {
            assert(x[m - a] == lower[m]);
            assert(rest[m] == ' ');
        } else if a < m + 13 {
            assert(rest[a] == w[a - m]);
            assert(a == m + 1 || a == m + 6);
            if a == m + 1 {
                assert(rest[a + 3] == w[4]);
            } else {
                assert(rest[a + 1] == w[7]);
            }
        } else {
            let y = list[a - m - 13];
            assert(rest[a] == y);
            assert(y != 'd');
            lemma_list_is_lower(ns, c, a - m - 13);
        }
    }
    assert(a < 0);
    assert(lower.subrange(m + 1, m + 12) =~= q);
    assert(text::at(lower, q, m + 1));
    let b = text::first_at(lower, q);
    if b < 0 {
        assert(text::has_part(lower, q));
    } else if b < m + 1 {
        let x = lower.subrange(b, b + 11);
        assert(x == q);
        if b + 11 <= m {
            assert(low.subrange(b, b + 11) =~= x);
            assert(text::at(low, q, b));
        } else {
            assert(x[m - b] == lower[m]);
            assert(rest[m] == ' ');
        }
    }
    assert(b == m + 1);
    assert(text::is_blank(seq![' ']));
    assert(text::is_blank(none));
    assert(rest.take(b) =~= none + d + seq![' ']);
    text::law_trim_takes_whitespace(none, d, seq![' ']);
    lemma_list_is_tight(ns, c);
    assert(rest.skip(b + 11) =~= seq![' '] + list + none);
    text::law_trim_takes_whitespace(seq![' '], list, none);
    assert(list.skip(0) =~= list);
    lemma_deps_from(list, 0, ns, c);
}

/// A list of numbers has nothing that lower case would change.
proof fn lemma_list_is_lower(ns: Seq<usize>, c: char, j: int)
    requires
        c == ',' || c == ';',
        0 <= j < text::joined(decimals(ns), seq![c]).len(),
    ensures
        text::ascii_lower(text::joined(decimals(ns), seq![c])[j]) != 'd',
    decreases ns.len(),
{
    let ds = decimals(ns);
    let all = text::joined(ds, seq![c]);
    if ns.len() > 0 {
        let front = ns.drop_last();
        assert(ds.drop_last() =~= decimals(front));
        let d = ds.last();
        text::law_number_reads_back(ns.last() as nat);
        let f = text::joined(decimals(front), seq![c]);
        if ns.len() == 1 {
            assert(all == d);
            assert(text::is_digit(d[j]));
        } else if j < f.len() {
            assert(all[j] == f[j]);
            lemma_list_is_lower(front, c, j);
        } else if j > f.len() {
            assert(all[j] == d[j - f.len() - 1]);
            assert(text::is_digit(d[j - f.len() - 1]));
        } else {
            assert(all[j] == c);
        }
    }
}

} // verus!
