//! Reviewing the work so far.
//!
//! The reviewing model reads the requirements and the rounds so far and writes
//! what the next round should fix.

use crate::magi::scheduler;
use crate::magi::scheduler::{MagiRound, RoundView};
use crate::providers::trait_def;
use crate::providers::trait_def::{Message, Role};
use crate::text;
use crate::text::decimal;
use vstd::prelude::*;
use vstd::string::*;

verus! {

/// What the reviewing model is told.
pub const CASPER_SYSTEM_PROMPT: &'static str = r#"You are Casper, the scrutiny brain of the MAGI system.
Your job is to review the PRD (Product Requirements Document) and previous execution rounds,
then identify:

1. What requirements have been met so far.
2. What requirements are still missing or incomplete.
3. Any regressions or bugs introduced.
4. Edge cases that have not been addressed.
5. Specific, actionable focus areas for the next execution round.

Be thorough and critical. Point out every gap and potential issue.
Your output will guide the execution brain (Balthasar) to fix remaining problems.

Respond with a detailed scrutiny report. Do NOT execute any code — just review and critique."#;

/// What the reviewing model is told of one round.
pub open spec fn round_text(r: RoundView) -> Seq<char> {
    "### Round "@ + text::dec(r.round_number as nat) + "\n**Scrutiny Focus:** "@ + r.scrutiny
        + "\n**Execution Result:** "@ + r.execution + "\n**Quality Score:** "@ + text::dec(
        r.promotion.quality_score as nat,
    ) + ".0/100\n**Melchior's Note:** "@ + r.promotion.stop_reason + "\n\n"@
}

/// What the reviewing model is told of the rounds so far.
pub open spec fn rounds_text(s: Seq<RoundView>) -> Seq<char>
    decreases s.len(),
{
    if s.len() == 0 {
        Seq::empty()
    } else {
        rounds_text(s.drop_last()) + round_text(s.last())
    }
}

/// What the reviewing model is asked.
pub open spec fn scrutiny_text(
    prd: Seq<char>,
    rounds: Seq<RoundView>,
    previous: Seq<char>,
) -> Seq<char> {
    let head = "## PRD (Product Requirements Document)\n\n"@ + prd + "\n\n"@;
    if rounds.len() == 0 {
        head
            + "## First Round\n\nThis is the first execution round. Please review the PRD and identify:\n- All required components\n- Potential challenges and edge cases\n- Specific focus areas for the first execution pass\n"@
    } else {
        let told = head + "## Previous Rounds Summary\n\n"@ + rounds_text(rounds);
        let recalled = if previous.len() > 0 {
            told + "## Previous Scrutiny Focus\n\n"@ + previous + "\n\n"@
        } else {
            told
        };
        recalled
            + "## Your Task\n\nReview the progress above and identify what still needs to be done. Be specific about remaining gaps, regressions, and edge cases. Provide actionable focus areas for the next execution round.\n"@
    }
}

/// Builds what the reviewing model is asked.
pub fn build_scrutiny_prompt(prd: &str, previous_rounds: &[MagiRound], previous_scrutiny: &str) -> (r:
    String)
    ensures
        r@ == scrutiny_text(
            prd@,
            scheduler::round_views(previous_rounds@),
            previous_scrutiny@,
        ),
{
    let ghost s = scheduler::round_views(previous_rounds@);
    let mut prompt = "## PRD (Product Requirements Document)\n\n".to_string();
    prompt.append(prd);
    prompt.append("\n\n");
    let n: usize = previous_rounds.len();
    if n == 0 {
        prompt.append(
            "## First Round\n\nThis is the first execution round. Please review the PRD and identify:\n- All required components\n- Potential challenges and edge cases\n- Specific focus areas for the first execution pass\n",
        );
        return prompt;
    }
    prompt.append("## Previous Rounds Summary\n\n");
    let ghost head = prompt@;
    assert(s.take(0) =~= Seq::empty());
    assert(prompt@ =~= head + rounds_text(s.take(0)));
    for i in 0..n
        invariant
            n == previous_rounds@.len(),
            s == scheduler::round_views(previous_rounds@),
            prompt@ == head + rounds_text(s.take(i as int)),
    {
        let round = &previous_rounds[i];
        let ghost before = prompt@;
        prompt.append("### Round ");
        prompt.append(decimal(round.round_number as u64).as_str());
        prompt.append("\n**Scrutiny Focus:** ");
        prompt.append(round.scrutiny.as_str());
        prompt.append("\n**Execution Result:** ");
        prompt.append(round.execution.as_str());
        prompt.append("\n**Quality Score:** ");
        prompt.append(decimal(round.promotion.quality_score as u64).as_str());
        prompt.append(".0/100\n**Melchior's Note:** ");
        prompt.append(round.promotion.stop_reason.as_str());
        prompt.append("\n\n");
        proof {
            assert(prompt@ =~= before + round_text(s[i as int]));
            assert(s.take(i + 1).drop_last() =~= s.take(i as int));
            assert(s.take(i + 1).last() == s[i as int]);
            assert(prompt@ =~= head + (rounds_text(s.take(i as int)) + round_text(s[i as int])));
        }
    }
    assert(s.take(n as int) =~= s);
    if !previous_scrutiny.is_empty() {
        prompt.append("## Previous Scrutiny Focus\n\n");
        prompt.append(previous_scrutiny);
        prompt.append("\n\n");
    }
    prompt.append(
        "## Your Task\n\nReview the progress above and identify what still needs to be done. Be specific about remaining gaps, regressions, and edge cases. Provide actionable focus areas for the next execution round.\n",
    );
    prompt
}

/// The conversation that asks for a review.
pub open spec fn scrutiny_rows(
    prd: Seq<char>,
    rounds: Seq<RoundView>,
    previous: Seq<char>,
) -> Seq<trait_def::MessageView> {
    seq![
        trait_def::text_message(Role::System, CASPER_SYSTEM_PROMPT@),
        trait_def::text_message(Role::User, scrutiny_text(prd, rounds, previous)),
    ]
}

/// Builds the conversation that asks for a review.
pub fn scrutinize(prd: &str, previous_rounds: &[MagiRound], previous_scrutiny: &str) -> (r: Vec<
    Message,
>)
    ensures
        trait_def::views(r@) == scrutiny_rows(
            prd@,
            scheduler::round_views(previous_rounds@),
            previous_scrutiny@,
        ),
{
    let mut r: Vec<Message> = Vec::new();
    r.push(Message::from_text(Role::System, CASPER_SYSTEM_PROMPT.to_string()));
    r.push(
        Message::from_text(
            Role::User,
            build_scrutiny_prompt(prd, previous_rounds, previous_scrutiny),
        ),
    );
    assert(trait_def::views(r@) =~= scrutiny_rows(
        prd@,
        scheduler::round_views(previous_rounds@),
        previous_scrutiny@,
    ));
    r
}

// ── Laws ────────────────────────────────────────────────────────────────────

/// Whether a text tells of a round: its number, and behind their labels the review,
/// what the execution gave, the score and the reason.
pub open spec fn tells_of(t: Seq<char>, r: RoundView) -> bool {
    &&& text::has_part(t, "### Round "@ + text::dec(r.round_number as nat))
    &&& text::has_part(t, "**Scrutiny Focus:** "@ + r.scrutiny)
    &&& text::has_part(t, "**Execution Result:** "@ + r.execution)
    &&& text::has_part(t, "**Quality Score:** "@ + text::dec(r.promotion.quality_score as nat))
    &&& text::has_part(t, "**Melchior's Note:** "@ + r.promotion.stop_reason)
}

#[verifier::rlimit(40)]
proof fn lemma_round_is_told(r: RoundView)
    ensures
        tells_of(round_text(r), r),
{
    let nl = "\n"@;
    let a = "### Round "@ + text::dec(r.round_number as nat);
    let b = "**Scrutiny Focus:** "@ + r.scrutiny;
    let c = "**Execution Result:** "@ + r.execution;
    let d = "**Quality Score:** "@ + text::dec(r.promotion.quality_score as nat);
    let e = "**Melchior's Note:** "@ + r.promotion.stop_reason;
    let slash = ".0/100"@;
    let z = "\n\n"@;
    assert("\n**Scrutiny Focus:** "@ =~= nl + "**Scrutiny Focus:** "@) by {
        reveal_strlit("\n");
        reveal_strlit("\n**Scrutiny Focus:** ");
        reveal_strlit("**Scrutiny Focus:** ");
    }
    assert("\n**Execution Result:** "@ =~= nl + "**Execution Result:** "@) by {
        reveal_strlit("\n");
        reveal_strlit("\n**Execution Result:** ");
        reveal_strlit("**Execution Result:** ");
    }
    assert("\n**Quality Score:** "@ =~= nl + "**Quality Score:** "@) by {
        reveal_strlit("\n");
        reveal_strlit("\n**Quality Score:** ");
        reveal_strlit("**Quality Score:** ");
    }
    assert(".0/100\n**Melchior's Note:** "@ =~= slash + nl + "**Melchior's Note:** "@) by {
        reveal_strlit("\n");
        reveal_strlit(".0/100\n**Melchior's Note:** ");
        reveal_strlit("**Melchior's Note:** ");
        reveal_strlit(".0/100");
    }
    let t = round_text(r);
    assert(t =~= a + nl + b + nl + c + nl + d + slash + nl + e + z);
    lemma_five_parts(a, nl, b, c, d, slash, e, z);
}

#[verifier::rlimit(40)]
proof fn lemma_five_parts(
    a: Seq<char>,
    nl: Seq<char>,
    b: Seq<char>,
    c: Seq<char>,
    d: Seq<char>,
    slash: Seq<char>,
    e: Seq<char>,
    z: Seq<char>,
)
    ensures
        ({
            let t = a + nl + b + nl + c + nl + d + slash + nl + e + z;
            &&& text::has_part(t, a)
            &&& text::has_part(t, b)
            &&& text::has_part(t, c)
            &&& text::has_part(t, d)
            &&& text::has_part(t, e)
        }),
{
    let none = Seq::<char>::empty();
    let abc = a + nl + b + nl + c;
    let de = nl + d + slash + nl + e + z;
    let t = a + nl + b + nl + c + nl + d + slash + nl + e + z;
    assert(text::has_part(abc, a)) by {
        text::lemma_part_at(none, a, nl + b + nl + c);
        assert(abc =~= none + a + (nl + b + nl + c));
    }
    assert(text::has_part(abc, b)) by {
        text::lemma_part_at(a + nl, b, nl + c);
        assert(abc =~= a + nl + b + (nl + c));
    }
    assert(text::has_part(abc, c)) by {
        text::lemma_part_at(a + nl + b + nl, c, none);
        assert(abc =~= a + nl + b + nl + c + none);
    }
    assert(text::has_part(de, d)) by {
        text::lemma_part_at(nl, d, slash + nl + e + z);
        assert(de =~= nl + d + (slash + nl + e + z));
    }
    assert(text::has_part(de, e)) by {
        text::lemma_part_at(nl + d + slash + nl, e, z);
    }
    assert(t =~= abc + de);
    assert(none + abc + de =~= abc + de);
    assert(abc + de + none =~= abc + de);
    text::lemma_part_of_part(none, abc, de, a);
    text::lemma_part_of_part(none, abc, de, b);
    text::lemma_part_of_part(none, abc, de, c);
    text::lemma_part_of_part(abc, de, none, d);
    text::lemma_part_of_part(abc, de, none, e);
}

proof fn lemma_tells_within(a: Seq<char>, p: Seq<char>, b: Seq<char>, r: RoundView)
    requires
        tells_of(p, r),
    ensures
        tells_of(a + p + b, r),
{
    text::lemma_part_of_part(a, p, b, "### Round "@ + text::dec(r.round_number as nat));
    text::lemma_part_of_part(a, p, b, "**Scrutiny Focus:** "@ + r.scrutiny);
    text::lemma_part_of_part(a, p, b, "**Execution Result:** "@ + r.execution);
    text::lemma_part_of_part(
        a,
        p,
        b,
        "**Quality Score:** "@ + text::dec(r.promotion.quality_score as nat),
    );
    text::lemma_part_of_part(a, p, b, "**Melchior's Note:** "@ + r.promotion.stop_reason);
}

proof fn lemma_rounds_are_told(s: Seq<RoundView>, i: int)
    requires
        0 <= i < s.len(),
    ensures
        tells_of(rounds_text(s), s[i]),
    decreases s.len(),
{
    let none = Seq::<char>::empty();
    let front = rounds_text(s.drop_last());
    let last = round_text(s.last());
    if i == s.len() - 1 {
        lemma_round_is_told(s[i]);
        lemma_tells_within(front, last, none, s[i]);
        assert(front + last + none =~= rounds_text(s));
    } else {
        assert(s.drop_last()[i] == s[i]);
        lemma_rounds_are_told(s.drop_last(), i);
        lemma_tells_within(none, front, last, s[i]);
        assert(none + front + last =~= rounds_text(s));
    }
}

/// The reviewing model is told the task first, whole and directly behind its heading,
/// and of every round so far what was reviewed, what came of it and how it was judged;
/// the last review is recalled where there is one.
#[verifier::rlimit(40)]
pub proof fn law_reviewer_sees_the_rounds(
    prd: Seq<char>,
    rounds: Seq<RoundView>,
    previous: Seq<char>,
)
    ensures
        text::starts(
            scrutiny_text(prd, rounds, previous),
            "## PRD (Product Requirements Document)\n\n"@ + prd,
        ),
        forall|i: int|
            0 <= i < rounds.len() ==> tells_of(
                scrutiny_text(prd, rounds, previous),
                #[trigger] rounds[i],
            ),
        rounds.len() > 0 && previous.len() > 0 ==> text::has_part(
            scrutiny_text(prd, rounds, previous),
            "## Previous Scrutiny Focus\n\n"@ + previous,
        ),
        rounds.len() == 0 ==> text::has_part(
            scrutiny_text(prd, rounds, previous),
            "This is the first execution round."@,
        ),
{
    let none = Seq::<char>::empty();
    let t = scrutiny_text(prd, rounds, previous);
    let a = "## PRD (Product Requirements Document)\n\n"@ + prd;
    let nl = "\n\n"@;
    if rounds.len() == 0 {
        let z = "## First Round\n\nThis is the first execution round. Please review the PRD and identify:\n- All required components\n- Potential challenges and edge cases\n- Specific focus areas for the first execution pass\n"@;
        text::lemma_part_at(none, a, nl + z);
        assert(t =~= none + a + (nl + z));
        let f = "This is the first execution round."@;
        assert(z.subrange(16, 50) =~= f && text::at(z, f, 16)) by {
            reveal_strlit("## First Round\n\nThis is the first execution round. Please review the PRD and identify:\n- All required components\n- Potential challenges and edge cases\n- Specific focus areas for the first execution pass\n");
            reveal_strlit("This is the first execution round.");
            assert(z.subrange(16, 50) =~= f);
        }
        text::lemma_part_of_part(a + nl, z, none, f);
        assert(t =~= a + nl + z + none);
    } else {
        let h = "## Previous Rounds Summary\n\n"@;
        let told = rounds_text(rounds);
        let p = "## Previous Scrutiny Focus\n\n"@ + previous;
        let z = "## Your Task\n\nReview the progress above and identify what still needs to be done. Be specific about remaining gaps, regressions, and edge cases. Provide actionable focus areas for the next execution round.\n"@;
        let m = if previous.len() > 0 {
            p + nl + z
        } else {
            z
        };
        assert(t =~= a + nl + h + told + m);
        text::lemma_part_at(none, a, nl + h + told + m);
        assert(t =~= none + a + (nl + h + told + m));
        if previous.len() > 0 {
            text::lemma_part_at(a + nl + h + told, p, nl + z);
            assert(t =~= a + nl + h + told + p + (nl + z));
        }
        assert forall|i: int| 0 <= i < rounds.len() implies tells_of(t, #[trigger] rounds[i]) by {
            lemma_rounds_are_told(rounds, i);
            lemma_tells_within(a + nl + h, told, m, rounds[i]);
        }
    }
}

} // verus!
