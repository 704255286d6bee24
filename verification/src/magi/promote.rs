//! Evaluating a round: a score, and whether to stop.
//!
//! The model answers with `STOP`, `REASON`, `QUALITY` and `FOCUS` lines;
//! [`parse_promotion`] reads them. A stop without a score of at least 90 does
//! not count, and an answer without a score is no evaluation at all.

use crate::magi::scheduler::{MagiError, Promotion, PromotionView};
use crate::providers::trait_def;
use crate::providers::trait_def::{Message, Role};
use crate::text;
use crate::text::{cat3, chars_of, is_ascii_digit, is_whitespace, lines, lowercase, same, skip_back, skip_while, take_chars, text_of, trim, trim_start, uppercase};
use vstd::prelude::*;
use vstd::slice::slice_subrange;
use vstd::string::*;

verus! {

/// What the evaluating model is told.
pub const MELCHIOR_SYSTEM_PROMPT: &'static str = r#"You are Melchior, the quality evaluation brain of the MAGI system.
Your job is to review the execution output against the PRD and scrutiny report,
then produce a structured evaluation.

You MUST respond in exactly this format (no other text):

STOP: true|false
REASON: <one-line explanation of your decision>
QUALITY: <integer 0-100>
FOCUS: <what the next round should focus on, or "None" if stopping>

Rules for evaluation:
- QUALITY 90-100: Task is essentially done, minor polish at most. STOP should be true.
- QUALITY 70-89: Good progress but notable gaps remain. STOP should be false.
- QUALITY 50-69: Partial progress, significant work remaining. STOP should be false.
- QUALITY 0-49: Little or no meaningful progress. STOP should be false and FOCUS must be specific.

Be honest and critical. Do not inflate scores. If the execution was poor, say so."#;

/// What the evaluating model is asked.
pub open spec fn evaluation_text(
    prd: Seq<char>,
    scrutiny: Seq<char>,
    execution: Seq<char>,
) -> Seq<char> {
    "## PRD\n\n"@ + prd + "\n\n## Casper's Scrutiny Report\n\n"@ + scrutiny
        + "\n\n## Balthasar's Execution Output\n\n"@ + execution
        + "\n\nEvaluate the execution against the PRD and scrutiny report. Respond in the required format."@
}

/// The conversation that asks for an evaluation.
pub open spec fn evaluation_rows(
    prd: Seq<char>,
    scrutiny: Seq<char>,
    execution: Seq<char>,
) -> Seq<trait_def::MessageView> {
    seq![
        trait_def::text_message(Role::System, MELCHIOR_SYSTEM_PROMPT@),
        trait_def::text_message(Role::User, evaluation_text(prd, scrutiny, execution)),
    ]
}

/// Builds the conversation that asks for an evaluation.
pub fn promote(prd: &str, scrutiny: &str, execution: &str) -> (r: Vec<Message>)
    ensures
        trait_def::views(r@) == evaluation_rows(prd@, scrutiny@, execution@),
{
    let mut r: Vec<Message> = Vec::new();
    r.push(Message::from_text(Role::System, MELCHIOR_SYSTEM_PROMPT.to_string()));
    let body = cat3("## PRD\n\n", prd, "\n\n## Casper's Scrutiny Report\n\n").concat(
        scrutiny,
    ).concat("\n\n## Balthasar's Execution Output\n\n").concat(execution).concat(
        "\n\nEvaluate the execution against the PRD and scrutiny report. Respond in the required format.",
    );
    r.push(Message::from_text(Role::User, body));
    assert(trait_def::views(r@) =~= evaluation_rows(prd@, scrutiny@, execution@));
    r
}

// ── One line ────────────────────────────────────────────────────────────────

/// What a list item may start with.
pub open spec fn bullet() -> spec_fn(char) -> bool {
    |c: char| c == '-' || c == '*' || c == ' ' || c == '\t'
}

fn is_bullet(c: char) -> (b: bool)
    ensures
        b == bullet()(c),
{
    c == '-' || c == '*' || c == ' ' || c == '\t'
}

/// How many digits a text starts with.
pub open spec fn digits_at_start(s: Seq<char>, k: int) -> int
    decreases s.len() - k,
{
    if 0 <= k < s.len() && text::is_digit(s[k]) {
        digits_at_start(s, k + 1)
    } else {
        k
    }
}

/// A line without a list number of up to three digits at its start.
pub open spec fn unnumbered(line: Seq<char>) -> Seq<char> {
    let k = digits_at_start(line, 0);
    let rest = text::trim_start_of(line.skip(k));
    if 1 <= k <= 3 && rest.len() > 0 && (rest[0] == '.' || rest[0] == ')') {
        text::trim_start_of(rest.skip(1))
    } else {
        line
    }
}

/// A line without what decorates its start.
pub open spec fn undecorated(line: Seq<char>) -> Seq<char> {
    unnumbered(text::skipped(text::trim_of(line), bullet()))
}

/// The first whitespace from `k` on, or -1.
pub open spec fn first_space(s: Seq<char>, k: int) -> int
    decreases s.len() - k,
{
    if k < 0 || k >= s.len() {
        -1
    } else if text::is_ws(s[k]) {
        k
    } else {
        first_space(s, k + 1)
    }
}

/// Key and value of a line: parted at the first colon, or at the first
/// whitespace where there is no colon.
pub open spec fn field_of(line: Seq<char>) -> (Seq<char>, Seq<char>) {
    let colon = text::first_at(line, ":"@);
    let space = first_space(line, 0);
    if colon >= 0 {
        (line.take(colon), text::trim_of(line.skip(colon + 1)))
    } else if space >= 0 {
        (line.take(space), text::trim_of(line.skip(space)))
    } else {
        (line, Seq::empty())
    }
}

/// Characters that are neither letters nor digits.
pub open spec fn decoration() -> spec_fn(char) -> bool {
    |c: char| !text::is_alphanumeric(c)
}

fn is_decoration(c: char) -> (b: bool)
    ensures
        b == decoration()(c),
{
    !c.is_alphanumeric()
}

/// A key in upper case, without what decorates it.
pub open spec fn key_of(raw: Seq<char>) -> Seq<char> {
    text::uppered(text::stripped(raw, decoration()))
}

/// Stars.
pub open spec fn star() -> spec_fn(char) -> bool {
    |c: char| c == '*'
}

fn is_star(c: char) -> (b: bool)
    ensures
        b == star()(c),
{
    c == '*'
}

/// A value without stars around it.
pub open spec fn plain_value(value: Seq<char>) -> Seq<char> {
    text::trim_of(text::stripped(value, star()))
}

/// The first word of a text in lower case, without what decorates it.
pub open spec fn word_of(s: Seq<char>) -> Seq<char> {
    let t = text::skipped(s, decoration());
    let space = first_space(t, 0);
    let first = if space >= 0 {
        t.take(space)
    } else {
        t
    };
    text::lowered(text::stripped(first, decoration()))
}

/// Strips a list number of up to three digits from the start of a line.
pub fn strip_list_number<'a>(line: &'a [char]) -> (r: &'a [char])
    ensures
        r@ == unnumbered(line@),
{
    let n: usize = line.len();
    let mut k: usize = 0;
    while k < n && is_ascii_digit(line[k])
        invariant
            k <= n == line@.len(),
            digits_at_start(line@, 0) == digits_at_start(line@, k as int),
        decreases n - k,
    {
        k = k + 1;
    }
    if k == 0 || k > 3 {
        return line;
    }
    let behind = slice_subrange(line, k, n);
    assert(behind@ =~= line@.skip(k as int));
    let rest = trim_start(behind);
    let m: usize = rest.len();
    if m > 0 && (rest[0] == '.' || rest[0] == ')') {
        let after = slice_subrange(rest, 1, m);
        assert(after@ =~= rest@.skip(1));
        trim_start(after)
    } else {
        line
    }
}

fn find_space(s: &[char]) -> (r: Option<usize>)
    ensures
        match r {
            Some(i) => first_space(s@, 0) == i && i < s@.len(),
            None => first_space(s@, 0) == -1,
        },
{
    let n: usize = s.len();
    let mut k: usize = 0;
    while k < n
        invariant
            k <= n == s@.len(),
            first_space(s@, 0) == first_space(s@, k as int),
        decreases n - k,
    {
        if is_whitespace(s[k]) {
            return Some(k);
        }
        k = k + 1;
    }
    None
}

/// Drops what decorates the start of a line.
pub fn undecorate<'a>(line: &'a [char]) -> (r: &'a [char])
    ensures
        r@ == undecorated(line@),
{
    let t = skip_while(
        trim(line),
        is_bullet,
        Ghost(bullet()),
    );
    strip_list_number(t)
}

/// Parts a line into key and value.
pub fn split_field<'a>(line: &'a [char]) -> (r: (&'a [char], &'a [char]))
    ensures
        (r.0@, r.1@) == field_of(line@),
{
    let n: usize = line.len();
    let colon = chars_of(":");
    proof {
        reveal_strlit(":");
    }
    if let Some(i) = text::find(line, colon.as_slice()) {
        let key = slice_subrange(line, 0, i);
        let value = slice_subrange(line, i + 1, n);
        assert(key@ =~= line@.take(i as int));
        assert(value@ =~= line@.skip(i + 1));
        return (key, trim(value));
    }
    if let Some(i) = find_space(line) {
        let key = slice_subrange(line, 0, i);
        let value = slice_subrange(line, i, n);
        assert(key@ =~= line@.take(i as int));
        assert(value@ =~= line@.skip(i as int));
        return (key, trim(value));
    }
    let none = slice_subrange(line, n, n);
    assert(none@ =~= Seq::empty());
    (line, none)
}

fn undecorate_word<'a>(s: &'a [char]) -> (r: &'a [char])
    ensures
        r@ == text::stripped(s@, decoration()),
{
    let front = skip_while(
        s,
        is_decoration,
        Ghost(decoration()),
    );
    skip_back(
        front,
        is_decoration,
        Ghost(decoration()),
    )
}

fn field_key(raw: &[char]) -> (r: String)
    ensures
        r@ == key_of(raw@),
{
    uppercase(text_of(undecorate_word(raw)).as_str())
}

/// The first word of a value in lower case, without what decorates it.
pub fn first_word(s: &[char]) -> (r: String)
    ensures
        r@ == word_of(s@),
{
    let t = skip_while(
        s,
        is_decoration,
        Ghost(decoration()),
    );
    let n: usize = t.len();
    let end: usize = match find_space(t) {
        Some(i) => i,
        None => n,
    };
    let first = slice_subrange(t, 0, end);
    proof {
        assert(t@.subrange(0, n as int) =~= t@);
        assert(t@.subrange(0, end as int) =~= t@.take(end as int));
    }
    lowercase(text_of(undecorate_word(first)).as_str())
}

// ── Scores ──────────────────────────────────────────────────────────────────

/// What may stand before a score.
pub open spec fn score_mark() -> spec_fn(char) -> bool {
    |c: char| c == '*' || c == '`' || c == ' '
}

fn is_score_mark(c: char) -> (b: bool)
    ensures
        b == score_mark()(c),
{
    c == '*' || c == '`' || c == ' '
}

/// The whole number that a value starts with, behind marks and perhaps a sign.
pub open spec fn score_of(value: Seq<char>) -> Option<int> {
    let s = text::skipped(text::trim_of(value), score_mark());
    let signed = s.len() > 0 && (s[0] == '-' || s[0] == '+');
    let from = if signed {
        1
    } else {
        0
    };
    let end = digits_at_start(s, from);
    if end == from {
        None
    } else {
        let v = text::value_of(s.subrange(from, end)) as int;
        Some(
            if signed && s[0] == '-' {
                -v
            } else {
                v
            },
        )
    }
}

/// A number held within the range of an `i64`.
pub open spec fn saturated(v: int) -> i64 {
    if v > i64::MAX {
        i64::MAX
    } else if v < -i64::MAX {
        (-i64::MAX) as i64
    } else {
        v as i64
    }
}

/// A score held between 0 and 100.
pub open spec fn clamped(v: int) -> u32 {
    if v < 0 {
        0
    } else if v > 100 {
        100
    } else {
        v as u32
    }
}

proof fn lemma_value_prefix(s: Seq<char>, k: int)
    requires
        0 <= k <= s.len(),
        text::all_digits(s),
    ensures
        text::value_of(s.take(k)) <= text::value_of(s),
    decreases s.len(),
{
    if k == s.len() {
        assert(s.take(k) =~= s);
    } else {
        assert(s.drop_last().take(k) =~= s.take(k));
        lemma_value_prefix(s.drop_last(), k);
        assert(text::is_digit(s[s.len() - 1]));
    }
}

fn read_saturated(s: &[char]) -> (r: i64)
    requires
        text::all_digits(s@),
    ensures
        r == saturated(text::value_of(s@) as int),
        r >= 0,
{
    let n: usize = s.len();
    let mut v: i64 = 0;
    for i in 0..n
        invariant
            n == s@.len(),
            text::all_digits(s@),
            v == text::value_of(s@.take(i as int)),
            v >= 0,
    {
        proof {
            assert(s@.take(i + 1).drop_last() =~= s@.take(i as int));
            assert(text::is_digit(s@[i as int]));
            lemma_value_prefix(s@, i + 1);
        }
        let d: i64 = (s[i] as u32 - 48) as i64;
        if v > (i64::MAX - d) / 10 {
            assert(v * 10 + d > i64::MAX);
            return i64::MAX;
        }
        v = v * 10 + d;
    }
    assert(s@.take(n as int) =~= s@);
    v
}

/// Reads the whole number that a value such as `88/100`, `**88**` or `-50`
/// starts with, held within the range of an `i64`.
pub fn parse_leading_int(value: &[char]) -> (r: Option<i64>)
    ensures
        match score_of(value@) {
            Some(v) => r == Some(saturated(v)),
            None => r is None,
        },
{
    let s = skip_while(
        trim(value),
        is_score_mark,
        Ghost(score_mark()),
    );
    let n: usize = s.len();
    let signed = n > 0 && (s[0] == '-' || s[0] == '+');
    let from: usize = if signed {
        1
    } else {
        0
    };
    let mut end: usize = from;
    while end < n && is_ascii_digit(s[end])
        invariant
            from <= end <= n == s@.len(),
            digits_at_start(s@, from as int) == digits_at_start(s@, end as int),
            forall|i: int| from <= i < end ==> text::is_digit(#[trigger] s@[i]),
        decreases n - end,
    {
        end = end + 1;
    }
    if end == from {
        return None;
    }
    let digits = slice_subrange(s, from, end);
    assert forall|i: int| 0 <= i < digits@.len() implies text::is_digit(#[trigger] digits@[i]) by {
        assert(digits@[i] == s@[from + i]);
    }
    let v: i64 = read_saturated(digits);
    if signed && s[0] == '-' {
        Some(-v)
    } else {
        Some(v)
    }
}

// ── The answer ──────────────────────────────────────────────────────────────

/// What the lines so far say.
#[derive(Debug)]
pub struct Verdict {
    pub stop: Option<bool>,
    pub reason: String,
    pub quality: Option<i64>,
    pub focus: String,
}

/// What the lines so far say, as a value.
#[verifier::ext_equal]
pub struct VerdictView {
    pub stop: Option<bool>,
    pub reason: Seq<char>,
    pub quality: Option<i64>,
    pub focus: Seq<char>,
}

impl View for Verdict {
    type V = VerdictView;

    open spec fn view(&self) -> VerdictView {
        VerdictView {
            stop: self.stop,
            reason: self.reason@,
            quality: self.quality,
            focus: self.focus@,
        }
    }
}

/// Words that mean to stop.
pub open spec fn means_stop(word: Seq<char>) -> bool {
    ||| word == "true"@
    ||| word == "yes"@
    ||| word == "done"@
    ||| word == "complete"@
    ||| word == "completed"@
}

/// What the lines say with one more field, whose key is `key` and whose first
/// word is `word`. A stop that is not understood means to go on.
pub open spec fn with_field(
    v: VerdictView,
    key: Seq<char>,
    word: Seq<char>,
    value: Seq<char>,
) -> VerdictView {
    if key == "STOP"@ {
        VerdictView { stop: Some(means_stop(word)), ..v }
    } else if key == "REASON"@ {
        VerdictView { reason: plain_value(value), ..v }
    } else if key == "QUALITY"@ {
        VerdictView {
            quality: match score_of(value) {
                Some(n) => Some(saturated(n)),
                None => None,
            },
            ..v
        }
    } else if key == "FOCUS"@ {
        VerdictView { focus: plain_value(value), ..v }
    } else {
        v
    }
}

/// What the first `n` lines say.
pub open spec fn verdict_of(lines: Seq<Seq<char>>, n: int) -> VerdictView
    decreases n,
{
    if n <= 0 {
        VerdictView { stop: None, reason: Seq::empty(), quality: None, focus: Seq::empty() }
    } else {
        let f = field_of(undecorated(lines[n - 1]));
        with_field(verdict_of(lines, n - 1), key_of(f.0), word_of(f.1), f.1)
    }
}

/// The evaluation that a verdict makes: none without a score, and no stop below
/// a score of 90.
pub open spec fn concluded(v: VerdictView) -> Option<PromotionView> {
    match v.quality {
        Some(q) => {
            let score = clamped(q as int);
            let stop = v.stop == Some(true) && score >= 90;
            Some(
                PromotionView {
                    quality_score: score,
                    should_stop: stop,
                    stop_reason: if v.reason.len() > 0 {
                        v.reason
                    } else if stop {
                        "Task complete"@
                    } else {
                        "Further work needed"@
                    },
                    next_round_focus: if v.focus.len() > 0 {
                        v.focus
                    } else if stop {
                        "None"@
                    } else {
                        "Continue implementation"@
                    },
                },
            )
        },
        None => None,
    }
}

/// The evaluation in an answer.
pub open spec fn promotion_of(raw: Seq<char>) -> Option<PromotionView> {
    let lines = text::lines_of(text::trim_of(raw));
    concluded(verdict_of(lines, lines.len() as int))
}

/// What is said of an answer without a score.
pub open spec fn no_score_text(raw: Seq<char>) -> Seq<char> {
    "Melchior response has no parseable QUALITY (raw: "@ + text::first_chars(
        text::trim_of(raw),
        200,
    ) + ")"@
}

fn plain(value: &[char]) -> (r: String)
    ensures
        r@ == plain_value(value@),
{
    let front = skip_while(
        value,
        is_star,
        Ghost(star()),
    );
    let both = skip_back(
        front,
        is_star,
        Ghost(star()),
    );
    text_of(trim(both))
}

/// Takes a field, given its key in upper case and the first word of its value in
/// lower case.
pub fn record_field(v: Verdict, key: &str, word: &str, value: &[char]) -> (r: Verdict)
    ensures
        r@ == with_field(v@, key@, word@, value@),
{
    if same(key, "STOP") {
        let stop = same(word, "true") || same(word, "yes") || same(word, "done") || same(
            word,
            "complete",
        ) || same(word, "completed");
        Verdict { stop: Some(stop), ..v }
    } else if same(key, "REASON") {
        Verdict { reason: plain(value), ..v }
    } else if same(key, "QUALITY") {
        Verdict { quality: parse_leading_int(value), ..v }
    } else if same(key, "FOCUS") {
        Verdict { focus: plain(value), ..v }
    } else {
        v
    }
}

/// Makes an evaluation of what the lines say; none without a score.
pub fn conclude(v: Verdict) -> (r: Option<Promotion>)
    ensures
        match r {
            Some(p) => concluded(v@) == Some(p@),
            None => concluded(v@) is None,
        },
{
    let quality_score: u32 = match v.quality {
        Some(q) => {
            if q < 0 {
                0
            } else if q > 100 {
                100
            } else {
                q as u32
            }
        },
        None => return None,
    };
    let should_stop = match v.stop {
        Some(s) => s && quality_score >= 90,
        None => false,
    };
    let stop_reason = if !v.reason.as_str().is_empty() {
        v.reason
    } else if should_stop {
        "Task complete".to_string()
    } else {
        "Further work needed".to_string()
    };
    let next_round_focus = if !v.focus.as_str().is_empty() {
        v.focus
    } else if should_stop {
        "None".to_string()
    } else {
        "Continue implementation".to_string()
    };
    Some(Promotion { quality_score, should_stop, stop_reason, next_round_focus })
}

/// Reads the answer of the evaluating model. An answer without a score is an
/// error, not a vote to go on.
pub fn parse_promotion(raw: &str) -> (r: Result<Promotion, MagiError>)
    ensures
        match r {
            Ok(p) => promotion_of(raw@) == Some(p@),
            Err(e) => promotion_of(raw@) is None && (e matches MagiError::Parse(msg) && msg@
                == no_score_text(raw@)),
        },
{
    let all = chars_of(raw);
    let body = trim(all.as_slice());
    let ls = lines(body);
    let ghost s = text::char_views(ls@);
    let n: usize = ls.len();
    let mut v = Verdict { stop: None, reason: String::new(), quality: None, focus: String::new() };
    for i in 0..n
        invariant
            n == ls@.len(),
            s == text::char_views(ls@),
            v@ == verdict_of(s, i as int),
    {
        let (raw_key, value) = split_field(undecorate(ls[i].as_slice()));
        let key = field_key(raw_key);
        let word = first_word(value);
        v = record_field(v, key.as_str(), word.as_str(), value);
    }
    match conclude(v) {
        Some(p) => Ok(p),
        None => Err(
            MagiError::Parse(
                cat3(
                    "Melchior response has no parseable QUALITY (raw: ",
                    take_chars(text_of(body).as_str(), 200).as_str(),
                    ")",
                ),
            ),
        ),
    }
}

/// Whatever the model answers, an evaluation that stops has a score of at least
/// 90, and no score is above 100.
pub proof fn law_stop_needs_quality(raw: Seq<char>)
    ensures
        promotion_of(raw) matches Some(p) ==> p.quality_score <= 100 && (p.should_stop
            ==> p.quality_score >= 90),
{
}

/// Whether a request for an evaluation tells the model what it should: directly behind
/// each heading stands what belongs there, first the task, then the review, then what
/// the execution gave.
pub open spec fn tells_the_round(
    rows: Seq<trait_def::MessageView>,
    prd: Seq<char>,
    scrutiny: Seq<char>,
    execution: Seq<char>,
) -> bool {
    &&& rows.len() == 2
    &&& rows[0].role == Role::System
    &&& rows[0].content == trait_def::ContentView::Text(MELCHIOR_SYSTEM_PROMPT@)
    &&& rows[1].role == Role::User
    &&& text::starts(rows[1].content.text(), "## PRD\n\n"@ + prd)
    &&& exists|i: int, j: int|
        {
            &&& ("## PRD\n\n"@ + prd).len() <= i
            &&& i + ("## Casper's Scrutiny Report\n\n"@ + scrutiny).len() <= j
            &&& #[trigger] text::at(
                rows[1].content.text(),
                "## Casper's Scrutiny Report\n\n"@ + scrutiny,
                i,
            )
            &&& #[trigger] text::at(
                rows[1].content.text(),
                "## Balthasar's Execution Output\n\n"@ + execution,
                j,
            )
        }
}

/// The evaluating model is told the task, the review and what the execution gave, each
/// whole and directly behind its heading.
#[verifier::rlimit(40)]
pub proof fn law_evaluator_sees_the_round(
    prd: Seq<char>,
    scrutiny: Seq<char>,
    execution: Seq<char>,
)
    ensures
        tells_the_round(evaluation_rows(prd, scrutiny, execution), prd, scrutiny, execution),
{
    let t = evaluation_text(prd, scrutiny, execution);
    let none = Seq::<char>::empty();
    let nl = "\n\n"@;
    let a = "## PRD\n\n"@ + prd;
    let b = "## Casper's Scrutiny Report\n\n"@ + scrutiny;
    let c = "## Balthasar's Execution Output\n\n"@ + execution;
    let z = "\n\nEvaluate the execution against the PRD and scrutiny report. Respond in the required format."@;
    assert("\n\n## Casper's Scrutiny Report\n\n"@ =~= nl + "## Casper's Scrutiny Report\n\n"@) by {
        reveal_strlit("\n\n");
        reveal_strlit("\n\n## Casper's Scrutiny Report\n\n");
        reveal_strlit("## Casper's Scrutiny Report\n\n");
    }
    assert("\n\n## Balthasar's Execution Output\n\n"@ =~= nl
        + "## Balthasar's Execution Output\n\n"@) by {
        reveal_strlit("\n\n");
        reveal_strlit("\n\n## Balthasar's Execution Output\n\n");
        reveal_strlit("## Balthasar's Execution Output\n\n");
    }
    assert(t =~= a + nl + b + nl + c + z);
    text::lemma_part_at(none, a, nl + b + nl + c + z);
    assert(t =~= none + a + (nl + b + nl + c + z));
    text::lemma_part_at(a + nl, b, nl + c + z);
    assert(t =~= a + nl + b + (nl + c + z));
    text::lemma_part_at(a + nl + b + nl, c, z);
}

/// Whether a text is ASCII letters only, and at least one.
pub open spec fn is_letters(s: Seq<char>) -> bool {
    s.len() > 0 && forall|i: int|
        0 <= i < s.len() ==> 'a' <= #[trigger] s[i] <= 'z' || 'A' <= s[i] <= 'Z'
}

/// A text with `a` to `z` in upper case.
pub open spec fn in_capitals(s: Seq<char>) -> Seq<char> {
    s.map_values(|c: char| text::ascii_upper(c))
}

/// A line of an evaluation.
pub open spec fn field_line(label: Seq<char>, value: Seq<char>) -> Seq<char> {
    label + ": "@ + value
}

proof fn lemma_letters(s: Seq<char>)
    requires
        is_letters(s),
    ensures
        text::skipped(s, decoration()) == s,
        text::stripped(s, decoration()) == s,
        vstd::utf8::is_ascii_chars(s),
        key_of(s) == in_capitals(s),
        first_space(s, 0) < 0,
        word_of(s) == text::ascii_lowered(s),
{
    assert(!decoration()(s[0]));
    assert(!decoration()(s[s.len() - 1]));
    lemma_no_space(s, 0);
}

proof fn lemma_no_space(s: Seq<char>, k: int)
    requires
        is_letters(s),
        0 <= k <= s.len(),
    ensures
        first_space(s, k) < 0,
    decreases s.len() - k,
{
    if k < s.len() {
        assert('a' <= s[k] <= 'z' || 'A' <= s[k] <= 'Z');
        lemma_no_space(s, k + 1);
    }
}

/// A label and a value with a colon between them are read as that label, in capitals, and
/// that value, whole.
#[verifier::rlimit(40)]
pub proof fn law_field_reads_back(label: Seq<char>, value: Seq<char>)
    requires
        is_letters(label),
        value.len() > 0,
        text::is_tight(value),
    ensures
        field_of(undecorated(field_line(label, value))) == (label, value),
        key_of(label) == in_capitals(label),
{
    let none = Seq::<char>::empty();
    let line = field_line(label, value);
    let n = label.len() as int;
    reveal_strlit(": ");
    reveal_strlit(":");
    lemma_letters(label);
    assert('a' <= label[0] <= 'z' || 'A' <= label[0] <= 'Z');
    assert(line[0] == label[0]);
    assert(line.last() == value.last());
    assert(text::is_blank(none));
    text::law_trim_takes_whitespace(none, line, none);
    assert(none + line + none =~= line);
    assert(!bullet()(line[0]));
    assert(text::skipped(line, bullet()) == line);
    assert(digits_at_start(line, 0) == 0);
    assert(undecorated(line) == line);
    text::lemma_first_at(line, ":"@);
    let a = text::first_at(line, ":"@);
    assert(line.subrange(n, n + 1) =~= ":"@);
    assert(text::at(line, ":"@, n));
    if a < 0 {
        assert(text::has_part(line, ":"@));
    } else if a < n {
        assert(line.subrange(a, a + 1)[0] == ':');
        assert(line[a] == label[a]);
    }
    assert(a == n);
    assert(line.take(n) =~= label);
    assert(text::is_blank(seq![' ']));
    assert(line.skip(n + 1) =~= seq![' '] + value + none);
    text::law_trim_takes_whitespace(seq![' '], value, none);
}

proof fn lemma_digits_at_start(d: Seq<char>, k: int)
    requires
        0 <= k <= d.len(),
        text::all_digits(d),
    ensures
        digits_at_start(d, k) == d.len(),
    decreases d.len() - k,
{
    if k < d.len() {
        assert(text::is_digit(d[k]));
        lemma_digits_at_start(d, k + 1);
    }
}

proof fn lemma_score_reads_back(n: nat)
    ensures
        score_of(text::dec(n)) == Some(n as int),
        text::is_tight(text::dec(n)),
        text::is_line(text::dec(n)),
        text::dec(n).len() > 0,
{
    let none = Seq::<char>::empty();
    let d = text::dec(n);
    text::law_number_reads_back(n);
    assert(text::is_digit(d[0]));
    assert(text::is_digit(d[d.len() - 1]));
    text::law_trim_takes_whitespace(none, d, none);
    assert(none + d + none =~= d);
    assert(!score_mark()(d[0]));
    assert(text::skipped(d, score_mark()) == d);
    lemma_digits_at_start(d, 0);
    assert(d.subrange(0, d.len() as int) =~= d);
    assert forall|i: int| 0 <= i < d.len() implies #[trigger] d[i] != '\n' by {
        assert(text::is_digit(d[i]));
    }
}

/// Whether a text can stand as a value: it says something on one line, with neither
/// whitespace nor stars around it.
pub open spec fn is_value(s: Seq<char>) -> bool {
    s.len() > 0 && text::is_tight(s) && text::is_line(s) && s[0] != '*' && s.last() != '*'
}

proof fn lemma_value_is_plain(s: Seq<char>)
    requires
        is_value(s),
    ensures
        plain_value(s) == s,
{
    let none = Seq::<char>::empty();
    assert(!star()(s[0]));
    assert(!star()(s.last()));
    assert(text::stripped(s, star()) == s);
    text::law_trim_takes_whitespace(none, s, none);
    assert(none + s + none =~= s);
}

proof fn lemma_field_is_line(label: Seq<char>, value: Seq<char>)
    requires
        is_letters(label),
        value.len() > 0,
        text::is_tight(value),
        text::is_line(value),
    ensures
        text::is_line(field_line(label, value)),
        text::is_tight(field_line(label, value)),
        field_line(label, value).len() > 0,
{
    let line = field_line(label, value);
    let n = label.len() as int;
    reveal_strlit(": ");
    assert('a' <= label[0] <= 'z' || 'A' <= label[0] <= 'Z');
    assert(line[0] == label[0]);
    assert(line.last() == value.last());
    assert(text::is_ws('\r'));
    assert forall|i: int| 0 <= i < line.len() implies #[trigger] line[i] != '\n' by {
        if i < n {
            assert(line[i] == label[i]);
        } else if i >= n + 2 {
            assert(line[i] == value[i - n - 2]);
        }
    }
}

/// The evaluation that the model is asked for, written out.
pub open spec fn evaluation_lines(
    labels: (Seq<char>, Seq<char>, Seq<char>, Seq<char>),
    stop: Seq<char>,
    reason: Seq<char>,
    quality: u32,
    focus: Seq<char>,
) -> Seq<Seq<char>> {
    seq![
        field_line(labels.0, stop),
        field_line(labels.1, reason),
        field_line(labels.2, text::dec(quality as nat)),
        field_line(labels.3, focus),
    ]
}

/// An evaluation in the format that the model is asked for, with its labels in any case,
/// is read as it was written: the score, at most a hundred, the reason and the focus. It
/// stops the work exactly where it says so and the score is at least 90.
#[verifier::spinoff_prover]
#[verifier::rlimit(80)]
pub proof fn law_evaluation_reads_back(
    labels: (Seq<char>, Seq<char>, Seq<char>, Seq<char>),
    stop: Seq<char>,
    reason: Seq<char>,
    quality: u32,
    focus: Seq<char>,
)
    requires
        is_letters(labels.0) && in_capitals(labels.0) == "STOP"@,
        is_letters(labels.1) && in_capitals(labels.1) == "REASON"@,
        is_letters(labels.2) && in_capitals(labels.2) == "QUALITY"@,
        is_letters(labels.3) && in_capitals(labels.3) == "FOCUS"@,
        is_letters(stop),
        is_value(reason),
        is_value(focus),
    ensures
        ({
            let raw = text::joined(
                evaluation_lines(labels, stop, reason, quality, focus),
                seq!['\n'],
            );
            let word = text::ascii_lowered(stop);
            let says_stop = word == "true"@ || word == "yes"@ || word == "done"@ || word
                == "complete"@ || word == "completed"@;
            promotion_of(raw) == Some(
                PromotionView {
                    quality_score: if quality > 100 {
                        100
                    } else {
                        quality
                    },
                    should_stop: says_stop && quality >= 90,
                    stop_reason: reason,
                    next_round_focus: focus,
                },
            )
        }),
{
    let none = Seq::<char>::empty();
    let n = text::dec(quality as nat);
    let ls = evaluation_lines(labels, stop, reason, quality, focus);
    let raw = text::joined(ls, seq!['\n']);
    assert(text::is_tight(stop) && text::is_line(stop)) by {
        assert('a' <= stop[0] <= 'z' || 'A' <= stop[0] <= 'Z');
        assert('a' <= stop[stop.len() - 1] <= 'z' || 'A' <= stop[stop.len() - 1] <= 'Z');
        assert forall|i: int| 0 <= i < stop.len() implies #[trigger] stop[i] != '\n' by {}
    }
    lemma_score_reads_back(quality as nat);
    lemma_field_is_line(labels.0, stop);
    lemma_field_is_line(labels.1, reason);
    lemma_field_is_line(labels.2, n);
    lemma_field_is_line(labels.3, focus);
    assert forall|i: int| 0 <= i < ls.len() implies text::is_line(#[trigger] ls[i]) by {
        assert(i == 0 || i == 1 || i == 2 || i == 3);
    }
    text::law_lines_read_back(ls);
    text::lemma_joined_front(ls[0], ls.drop_first(), seq!['\n']);
    assert(ls =~= seq![ls[0]] + ls.drop_first());
    assert(raw[0] == ls[0][0]);
    assert(raw.last() == ls[3].last());
    text::law_trim_takes_whitespace(none, raw, none);
    assert(none + raw + none =~= raw);
    law_field_reads_back(labels.0, stop);
    law_field_reads_back(labels.1, reason);
    law_field_reads_back(labels.2, n);
    law_field_reads_back(labels.3, focus);
    lemma_letters(stop);
    lemma_value_is_plain(reason);
    lemma_value_is_plain(focus);
    lemma_keys_differ();
    reveal_with_fuel(verdict_of, 5);
    let v = verdict_of(ls, 4);
    assert(v.stop == Some(means_stop(text::ascii_lowered(stop))));
    assert(v.quality == Some(quality as i64));
    assert(v.reason == reason);
    assert(v.focus == focus);
}

proof fn lemma_keys_differ()
    ensures
        "STOP"@ != "REASON"@,
        "STOP"@ != "QUALITY"@,
        "STOP"@ != "FOCUS"@,
        "REASON"@ != "QUALITY"@,
        "REASON"@ != "FOCUS"@,
        "QUALITY"@ != "FOCUS"@,
{
    reveal_strlit("STOP");
    reveal_strlit("REASON");
    reveal_strlit("QUALITY");
    reveal_strlit("FOCUS");
    assert("STOP"@.len() == 4);
    assert("REASON"@.len() == 6);
    assert("QUALITY"@.len() == 7);
    assert("FOCUS"@.len() == 5);
}

/// An evaluation without a reason or a focus says what the score allows: that the task is
/// complete where it stops the work, and that more is to be done where it does not.
pub proof fn law_missing_words_are_filled_in(v: VerdictView)
    requires
        v.quality is Some,
    ensures
        concluded(v) matches Some(p) && {
            &&& p.should_stop <==> v.stop == Some(true) && v.quality->0 >= 90
            &&& v.reason.len() > 0 ==> p.stop_reason == v.reason
            &&& v.focus.len() > 0 ==> p.next_round_focus == v.focus
            &&& v.reason.len() == 0 && p.should_stop ==> p.stop_reason == "Task complete"@
            &&& v.reason.len() == 0 && !p.should_stop ==> p.stop_reason == "Further work needed"@
            &&& v.focus.len() == 0 && p.should_stop ==> p.next_round_focus == "None"@
            &&& v.focus.len() == 0 && !p.should_stop ==> p.next_round_focus
                == "Continue implementation"@
        },
{
}

} // verus!
