//! Rounds of review, execution and evaluation.
//!
//! [`Spiral`] runs them in turn until an evaluation stops it or the rounds are
//! used up. Each of its methods takes what has just happened and says which events
//! to send and what to do next; the caller asks the models and waits. The events
//! are for an interface that shows the work: where there is none, they are
//! dropped.

use crate::agent::stream;
use crate::agent::stream::{EventView, StreamEvent};
use crate::magi::promote;
use crate::magi::promote::{parse_promotion, promote};
use crate::magi::scrutinize;
use crate::magi::scrutinize::scrutinize;
use crate::providers::trait_def;
use crate::providers::trait_def::{Message, MessageView};
use crate::text;
use crate::text::{cat2, cat3, decimal, take_chars};
use vstd::prelude::*;
use vstd::string::*;

verus! {

/// How many rounds a spiral has, unless it is told otherwise.
pub const DEFAULT_MAX_ROUNDS: u32 = 3;

/// How many steps the execution of a round has, unless it is told otherwise.
pub const DEFAULT_MAX_STEPS_PER_ROUND: u32 = 12;

/// How many seconds a review or an evaluation may take.
pub const PHASE_LLM_TIMEOUT_SECS: u64 = 120;

/// How often a phase that failed is tried again.
pub const PHASE_RETRIES: u32 = 2;

/// Why a spiral failed.
#[derive(Debug)]
pub enum MagiError {
    /// The provider failed.
    Provider(String),
    /// An answer could not be read, or did not come.
    Parse(String),
    /// The rounds were used up.
    MaxRounds(u32, Vec<MagiRound>),
    /// The work was cancelled.
    Cancelled,
}

/// A failure of a spiral as a value.
#[verifier::ext_equal]
pub enum MagiErrorView {
    Provider(Seq<char>),
    Parse(Seq<char>),
    MaxRounds(u32, Seq<RoundView>),
    Cancelled,
}

impl View for MagiError {
    type V = MagiErrorView;

    open spec fn view(&self) -> MagiErrorView {
        match self {
            MagiError::Provider(s) => MagiErrorView::Provider(s@),
            MagiError::Parse(s) => MagiErrorView::Parse(s@),
            MagiError::MaxRounds(n, rounds) => MagiErrorView::MaxRounds(*n, round_views(rounds@)),
            MagiError::Cancelled => MagiErrorView::Cancelled,
        }
    }
}

/// The evaluation of a round.
#[derive(Debug)]
pub struct Promotion {
    /// Quality score from 0 to 100.
    pub quality_score: u32,
    /// Whether the task is done.
    pub should_stop: bool,
    pub stop_reason: String,
    /// What the next round should focus on.
    pub next_round_focus: String,
}

/// The evaluation of a round, as a value.
#[verifier::ext_equal]
pub struct PromotionView {
    pub quality_score: u32,
    pub should_stop: bool,
    pub stop_reason: Seq<char>,
    pub next_round_focus: Seq<char>,
}

impl View for Promotion {
    type V = PromotionView;

    open spec fn view(&self) -> PromotionView {
        PromotionView {
            quality_score: self.quality_score,
            should_stop: self.should_stop,
            stop_reason: self.stop_reason@,
            next_round_focus: self.next_round_focus@,
        }
    }
}

impl Clone for Promotion {
    fn clone(&self) -> (r: Self)
        ensures
            r == *self,
    {
        Promotion {
            quality_score: self.quality_score,
            should_stop: self.should_stop,
            stop_reason: self.stop_reason.clone(),
            next_round_focus: self.next_round_focus.clone(),
        }
    }
}

/// One round of review, execution and evaluation.
#[derive(Debug)]
pub struct MagiRound {
    /// Counted from one.
    pub round_number: u32,
    pub scrutiny: String,
    pub execution: String,
    pub promotion: Promotion,
}

/// One round, as a value.
#[verifier::ext_equal]
pub struct RoundView {
    pub round_number: u32,
    pub scrutiny: Seq<char>,
    pub execution: Seq<char>,
    pub promotion: PromotionView,
}

impl View for MagiRound {
    type V = RoundView;

    open spec fn view(&self) -> RoundView {
        RoundView {
            round_number: self.round_number,
            scrutiny: self.scrutiny@,
            execution: self.execution@,
            promotion: self.promotion@,
        }
    }
}

impl Clone for MagiRound {
    fn clone(&self) -> (r: Self)
        ensures
            r == *self,
    {
        MagiRound {
            round_number: self.round_number,
            scrutiny: self.scrutiny.clone(),
            execution: self.execution.clone(),
            promotion: self.promotion.clone(),
        }
    }
}

/// The values of some rounds.
pub open spec fn round_views(v: Seq<MagiRound>) -> Seq<RoundView> {
    v.map_values(|r: MagiRound| r@)
}

/// Adding one round adds one value.
pub broadcast proof fn lemma_round_views_push(v: Seq<MagiRound>, r: MagiRound)
    ensures
        #[trigger] round_views(v.push(r)) == round_views(v).push(r@),
{
    assert(round_views(v.push(r)) =~= round_views(v).push(r@));
}

impl MagiError {
    /// What is said about a failure.
    pub open spec fn told(e: MagiErrorView) -> Seq<char> {
        match e {
            MagiErrorView::Provider(s) => "provider error: "@ + s,
            MagiErrorView::Parse(s) => "parse error: "@ + s,
            MagiErrorView::MaxRounds(n, rounds) => "max rounds ("@ + text::dec(n as nat)
                + ") reached without completion"@,
            MagiErrorView::Cancelled => "cancelled"@,
        }
    }

    /// What is said about the failure.
    pub fn describe(&self) -> (r: String)
        ensures
            r@ == MagiError::told(self@),
    {
        match self {
            MagiError::Provider(s) => cat2("provider error: ", s.as_str()),
            MagiError::Parse(s) => cat2("parse error: ", s.as_str()),
            MagiError::MaxRounds(n, _) => cat3(
                "max rounds (",
                decimal(*n as u64).as_str(),
                ") reached without completion",
            ),
            MagiError::Cancelled => "cancelled".to_string(),
        }
    }
}

/// Copies rounds.
pub fn copy_rounds(v: &Vec<MagiRound>) -> (r: Vec<MagiRound>)
    ensures
        r@ == v@,
{
    let n: usize = v.len();
    let mut r: Vec<MagiRound> = Vec::new();
    for i in 0..n
        invariant
            n == v@.len(),
            r@ == v@.take(i as int),
    {
        r.push(v[i].clone());
        assert(v@.take(i + 1) =~= v@.take(i as int).push(v@[i as int]));
    }
    assert(v@.take(n as int) =~= v@);
    r
}

// ── Trying again ────────────────────────────────────────────────────────────

/// The seconds to wait before the try after failure `attempt`; none where no try
/// is left.
pub open spec fn delay_after(attempt: u32, max_retries: u32) -> Option<u64> {
    if attempt > max_retries {
        None
    } else {
        Some(vstd::arithmetic::power2::pow2((attempt - 1) as nat) as u64)
    }
}

/// The seconds to wait before the try after failure `attempt`, twice as long each
/// time; none where no try is left.
pub fn retry_delay(attempt: u32, max_retries: u32) -> (r: Option<u64>)
    requires
        1 <= attempt,
        max_retries <= 64,
    ensures
        r == delay_after(attempt, max_retries),
        r matches Some(secs) ==> secs == vstd::arithmetic::power2::pow2((attempt - 1) as nat),
{
    if attempt > max_retries {
        return None;
    }
    let shift: u32 = attempt - 1;
    proof {
        vstd::bits::lemma_u64_pow2_no_overflow(shift as nat);
        vstd::bits::lemma_u64_shl_is_mul(1, shift as u64);
    }
    Some(1u64 << (shift as u64))
}

// ── A spiral ────────────────────────────────────────────────────────────────

/// What a spiral is doing.
#[derive(Debug, Clone, Copy, PartialEq, Eq, Structural)]
pub enum Phase {
    /// Nothing: no round has begun, or the last one is complete.
    Idle,
    /// The work is reviewed.
    Review,
    /// The task is executed.
    Execute,
    /// The round is evaluated.
    Evaluate,
}

/// What to do next.
#[derive(Debug)]
pub enum SpiralStep {
    /// Ask the main model, then go on with `on_review` or `on_failure`.
    Review(Vec<Message>),
    /// Execute the task, then go on with `on_execution` or `on_failure`.
    Execute { scrutiny: String, max_steps: u32 },
    /// Ask the evaluating model, then go on with `on_evaluation` or `on_failure`.
    Evaluate(Vec<Message>),
    /// Wait the seconds, then do what `request` says.
    Wait(u64),
    /// Go on with `begin`.
    NextRound,
    /// The task is done.
    Done(Vec<MagiRound>),
    /// The spiral has failed.
    Failed(MagiError),
}

/// A step as a value.
#[verifier::ext_equal]
pub enum SpiralStepView {
    Review(Seq<MessageView>),
    Execute { scrutiny: Seq<char>, max_steps: u32 },
    Evaluate(Seq<MessageView>),
    Wait(u64),
    NextRound,
    Done(Seq<RoundView>),
    Failed(MagiErrorView),
}

impl View for SpiralStep {
    type V = SpiralStepView;

    open spec fn view(&self) -> SpiralStepView {
        match self {
            SpiralStep::Review(rows) => SpiralStepView::Review(trait_def::views(rows@)),
            SpiralStep::Execute { scrutiny, max_steps } => SpiralStepView::Execute {
                scrutiny: scrutiny@,
                max_steps: *max_steps,
            },
            SpiralStep::Evaluate(rows) => SpiralStepView::Evaluate(trait_def::views(rows@)),
            SpiralStep::Wait(secs) => SpiralStepView::Wait(*secs),
            SpiralStep::NextRound => SpiralStepView::NextRound,
            SpiralStep::Done(rounds) => SpiralStepView::Done(round_views(rounds@)),
            SpiralStep::Failed(e) => SpiralStepView::Failed(e@),
        }
    }
}

/// The events to send, and what to do next.
#[derive(Debug)]
pub struct SpiralReaction {
    pub events: Vec<StreamEvent>,
    pub step: SpiralStep,
}

/// A spiral on one task.
#[derive(Debug)]
pub struct Spiral {
    prd: String,
    max_rounds: u32,
    max_steps: u32,
    agent_id: String,
    round: u32,
    attempt: u32,
    phase: Phase,
    rounds: Vec<MagiRound>,
    scrutiny: String,
    execution: String,
}

/// A spiral as a value.
#[verifier::ext_equal]
pub struct SpiralView {
    /// The task.
    pub prd: Seq<char>,
    pub max_rounds: u32,
    pub max_steps: u32,
    /// The agent that the events are shown under.
    pub agent_id: Seq<char>,
    /// The present round, counted from one; none has begun where it is zero.
    pub round: u32,
    /// How often the present phase has failed.
    pub attempt: u32,
    pub phase: Phase,
    /// The rounds that are complete.
    pub rounds: Seq<RoundView>,
    /// The review of the present round.
    pub scrutiny: Seq<char>,
    /// What the execution of the present round gave.
    pub execution: Seq<char>,
}

impl SpiralView {
    /// Whether the last complete round stopped the work: the spiral is done.
    pub open spec fn stopped(self) -> bool {
        self.phase == Phase::Idle && self.rounds.len() > 0
            && self.rounds.last().promotion.should_stop
    }

    /// What holds of every spiral: its rounds are numbered from one on, there are as
    /// many as have been completed, and none but the last stopped the work.
    pub open spec fn wf(self) -> bool {
        &&& self.round <= self.max_rounds
        &&& self.attempt <= PHASE_RETRIES
        &&& self.rounds.len() == (if self.phase == Phase::Idle {
            self.round as int
        } else {
            self.round - 1
        })
        &&& forall|i: int|
            0 <= i < self.rounds.len() ==> (#[trigger] self.rounds[i]).round_number == i + 1
        &&& forall|i: int|
            0 <= i < self.rounds.len() && (i < self.rounds.len() - 1 || !self.stopped())
                ==> !(#[trigger] self.rounds[i]).promotion.should_stop
    }
}

impl View for Spiral {
    type V = SpiralView;

    closed spec fn view(&self) -> SpiralView {
        SpiralView {
            prd: self.prd@,
            max_rounds: self.max_rounds,
            max_steps: self.max_steps,
            agent_id: self.agent_id@,
            round: self.round,
            attempt: self.attempt,
            phase: self.phase,
            rounds: round_views(self.rounds@),
            scrutiny: self.scrutiny@,
            execution: self.execution@,
        }
    }
}

/// The spiral, the events and the step after something happened.
#[verifier::ext_equal]
pub struct SpiralOutcome {
    pub spiral: SpiralView,
    pub events: Seq<EventView>,
    pub step: SpiralStepView,
}

/// The events that tell of a phase.
pub open spec fn phase_events(agent_id: Seq<char>, line: Seq<char>) -> Seq<EventView> {
    seq![
        EventView::TeamAgentOutput { agent_id, content: line + "\n"@ },
        EventView::Token { content: "_"@ + line + "_\n"@ },
        EventView::Thinking { content: line + "\n"@, step: 0 },
    ]
}

/// The review of the last complete round.
pub open spec fn last_scrutiny(rounds: Seq<RoundView>) -> Seq<char> {
    if rounds.len() == 0 {
        Seq::empty()
    } else {
        rounds.last().scrutiny
    }
}

/// What the present phase asks for.
pub open spec fn requested(s: SpiralView) -> SpiralStepView {
    match s.phase {
        Phase::Idle => SpiralStepView::NextRound,
        Phase::Review => SpiralStepView::Review(
            scrutinize::scrutiny_rows(s.prd, s.rounds, last_scrutiny(s.rounds)),
        ),
        Phase::Execute => SpiralStepView::Execute { scrutiny: s.scrutiny, max_steps: s.max_steps },
        Phase::Evaluate => SpiralStepView::Evaluate(
            promote::evaluation_rows(s.prd, s.scrutiny, s.execution),
        ),
    }
}

/// Begins a round.
pub open spec fn round_begun(s: SpiralView) -> SpiralOutcome {
    if s.round >= s.max_rounds {
        SpiralOutcome {
            spiral: s,
            events: Seq::empty(),
            step: SpiralStepView::Failed(MagiErrorView::MaxRounds(s.max_rounds, s.rounds)),
        }
    } else {
        let next = SpiralView {
            round: (s.round + 1) as u32,
            attempt: 0,
            phase: Phase::Review,
            ..s
        };
        SpiralOutcome {
            spiral: next,
            events: phase_events(
                s.agent_id,
                "Auto round "@ + text::dec(next.round as nat) + "/"@ + text::dec(
                    s.max_rounds as nat,
                ) + " — reviewing…"@,
            ),
            step: requested(next),
        }
    }
}

/// Takes a review.
pub open spec fn reviewed(s: SpiralView, scrutiny: Seq<char>) -> SpiralOutcome {
    let next = SpiralView { scrutiny, attempt: 0, phase: Phase::Execute, ..s };
    SpiralOutcome {
        spiral: next,
        events: phase_events(
            s.agent_id,
            "Review done — "@ + text::first_chars(scrutiny, 280) + "…"@,
        ) + phase_events(
            s.agent_id,
            "Round "@ + text::dec(s.round as nat) + " — executing (max "@ + text::dec(
                s.max_steps as nat,
            ) + " steps)…"@,
        ),
        step: requested(next),
    }
}

/// Takes the result of an execution.
pub open spec fn executed(s: SpiralView, execution: Seq<char>) -> SpiralOutcome {
    let next = SpiralView { execution, attempt: 0, phase: Phase::Evaluate, ..s };
    SpiralOutcome {
        spiral: next,
        events: phase_events(
            s.agent_id,
            "Round "@ + text::dec(s.round as nat) + " — evaluating quality…"@,
        ),
        step: requested(next),
    }
}

/// The words for a truth value.
pub open spec fn bool_text(b: bool) -> Seq<char> {
    if b {
        "true"@
    } else {
        "false"@
    }
}

/// Completes a round.
pub open spec fn completed(s: SpiralView, p: PromotionView) -> SpiralOutcome {
    let rounds = s.rounds.push(
        RoundView {
            round_number: s.round,
            scrutiny: s.scrutiny,
            execution: s.execution,
            promotion: p,
        },
    );
    let next = SpiralView { rounds, attempt: 0, phase: Phase::Idle, ..s };
    SpiralOutcome {
        spiral: next,
        events: phase_events(
            s.agent_id,
            "Round "@ + text::dec(s.round as nat) + " complete — quality "@ + text::dec(
                p.quality_score as nat,
            ) + "/100, stop="@ + bool_text(p.should_stop) + " ("@ + p.stop_reason + ")"@,
        ),
        step: if p.should_stop {
            SpiralStepView::Done(rounds)
        } else {
            SpiralStepView::NextRound
        },
    }
}

/// The evaluation that stands for one that stayed unreadable: no quality was
/// shown, so the work goes on.
pub open spec fn no_verdict() -> PromotionView {
    PromotionView {
        quality_score: 0,
        should_stop: false,
        stop_reason: "Further work needed"@,
        next_round_focus: "Continue implementation"@,
    }
}

/// The phase failed once more and is tried again.
pub open spec fn delayed(s: SpiralView) -> SpiralOutcome {
    let attempt = (s.attempt + 1) as u32;
    SpiralOutcome {
        spiral: SpiralView { attempt, ..s },
        events: Seq::empty(),
        step: SpiralStepView::Wait(delay_after(attempt, PHASE_RETRIES).unwrap()),
    }
}

/// Takes an evaluation, or that it was unreadable. One that is unreadable is asked
/// for again; where it stays so, the round counts without a score.
pub open spec fn evaluated(s: SpiralView, p: Option<PromotionView>) -> SpiralOutcome {
    match p {
        Some(v) => completed(s, v),
        None => if s.attempt >= PHASE_RETRIES {
            completed(s, no_verdict())
        } else {
            delayed(s)
        },
    }
}

/// The present phase failed.
pub open spec fn phase_failed(s: SpiralView, e: MagiErrorView) -> SpiralOutcome {
    if s.attempt >= PHASE_RETRIES {
        SpiralOutcome { spiral: s, events: Seq::empty(), step: SpiralStepView::Failed(e) }
    } else {
        delayed(s)
    }
}

/// What is said where a phase was not done in time.
pub open spec fn late_text(phase: Phase, round: u32) -> Seq<char> {
    (if phase == Phase::Evaluate {
        "Melchior timed out after 120s (round "@
    } else {
        "Casper timed out after 120s (round "@
    }) + text::dec(round as nat) + ")"@
}

/// The events that tell of a phase.
pub fn emit_phase(agent_id: &str, line: &str) -> (r: Vec<StreamEvent>)
    ensures
        stream::event_views(r@) == phase_events(agent_id@, line@),
{
    let mut r: Vec<StreamEvent> = Vec::new();
    r.push(
        StreamEvent::TeamAgentOutput { agent_id: agent_id.to_string(), content: cat2(line, "\n") },
    );
    r.push(StreamEvent::Token { content: cat3("_", line, "_\n") });
    r.push(StreamEvent::Thinking { content: cat2(line, "\n"), step: 0 });
    assert(stream::event_views(r@) =~= phase_events(agent_id@, line@));
    r
}

impl Spiral {
    /// What the present phase asks for.
    pub fn request(&self) -> (r: SpiralStep)
        ensures
            r@ == requested(self@),
    {
        match self.phase {
            Phase::Idle => SpiralStep::NextRound,
            Phase::Review => {
                let n: usize = self.rounds.len();
                let last: &str = if n == 0 {
                    ""
                } else {
                    self.rounds[n - 1].scrutiny.as_str()
                };
                proof {
                    reveal_strlit("");
                    assert(last@ =~= last_scrutiny(self@.rounds));
                }
                SpiralStep::Review(scrutinize(self.prd.as_str(), self.rounds.as_slice(), last))
            },
            Phase::Execute => SpiralStep::Execute {
                scrutiny: self.scrutiny.clone(),
                max_steps: self.max_steps,
            },
            Phase::Evaluate => SpiralStep::Evaluate(
                promote(
                    self.prd.as_str(),
                    self.scrutiny.as_str(),
                    self.execution.as_str(),
                ),
            ),
        }
    }

    /// Begins a round of a spiral that is not done.
    pub fn begin(&mut self) -> (r: SpiralReaction)
        requires
            old(self)@.wf(),
            old(self)@.phase == Phase::Idle,
            !old(self)@.stopped(),
        ensures
            (SpiralOutcome {
                spiral: final(self)@,
                events: stream::event_views(r.events@),
                step: r.step@,
            }) == round_begun(old(self)@),
            final(self)@.wf(),
    {
        if self.round >= self.max_rounds {
            let events: Vec<StreamEvent> = Vec::new();
            assert(stream::event_views(events@) =~= Seq::empty());
            return SpiralReaction {
                events,
                step: SpiralStep::Failed(
                    MagiError::MaxRounds(self.max_rounds, copy_rounds(&self.rounds)),
                ),
            };
        }
        self.round = self.round + 1;
        self.attempt = 0;
        self.phase = Phase::Review;
        let line = cat3("Auto round ", decimal(self.round as u64).as_str(), "/").concat(
            decimal(self.max_rounds as u64).as_str(),
        ).concat(" — reviewing…");
        SpiralReaction {
            events: emit_phase(self.agent_id.as_str(), line.as_str()),
            step: self.request(),
        }
    }

    /// Takes a review.
    pub fn on_review(&mut self, scrutiny: String) -> (r: SpiralReaction)
        requires
            old(self)@.wf(),
            old(self)@.phase == Phase::Review,
        ensures
            (SpiralOutcome {
                spiral: final(self)@,
                events: stream::event_views(r.events@),
                step: r.step@,
            }) == reviewed(old(self)@, scrutiny@),
            final(self)@.wf(),
    {
        let done = cat3("Review done — ", take_chars(scrutiny.as_str(), 280).as_str(), "…");
        let next = cat3("Round ", decimal(self.round as u64).as_str(), " — executing (max ").concat(
            decimal(self.max_steps as u64).as_str(),
        ).concat(" steps)…");
        let mut events = emit_phase(self.agent_id.as_str(), done.as_str());
        let mut more = emit_phase(self.agent_id.as_str(), next.as_str());
        let ghost a = events@;
        let ghost b = more@;
        events.append(&mut more);
        assert(stream::event_views(events@) =~= stream::event_views(a) + stream::event_views(b));
        self.scrutiny = scrutiny;
        self.attempt = 0;
        self.phase = Phase::Execute;
        SpiralReaction { events, step: self.request() }
    }

    /// Takes the result of an execution.
    pub fn on_execution(&mut self, execution: String) -> (r: SpiralReaction)
        requires
            old(self)@.wf(),
            old(self)@.phase == Phase::Execute,
        ensures
            (SpiralOutcome {
                spiral: final(self)@,
                events: stream::event_views(r.events@),
                step: r.step@,
            }) == executed(old(self)@, execution@),
            final(self)@.wf(),
    {
        let line = cat3("Round ", decimal(self.round as u64).as_str(), " — evaluating quality…");
        self.execution = execution;
        self.attempt = 0;
        self.phase = Phase::Evaluate;
        SpiralReaction {
            events: emit_phase(self.agent_id.as_str(), line.as_str()),
            step: self.request(),
        }
    }

    fn complete(&mut self, promotion: Promotion) -> (r: SpiralReaction)
        requires
            old(self)@.wf(),
            old(self)@.phase == Phase::Evaluate,
        ensures
            (SpiralOutcome {
                spiral: final(self)@,
                events: stream::event_views(r.events@),
                step: r.step@,
            }) == completed(old(self)@, promotion@),
            final(self)@.wf(),
            r.step is NextRound ==> !final(self)@.stopped(),
    {
        let ghost before = self@;
        let should_stop = promotion.should_stop;
        let stop: &str = if should_stop {
            "true"
        } else {
            "false"
        };
        let line = cat3("Round ", decimal(self.round as u64).as_str(), " complete — quality ").concat(
            decimal(promotion.quality_score as u64).as_str(),
        ).concat("/100, stop=").concat(stop).concat(" (").concat(
            promotion.stop_reason.as_str(),
        ).concat(")");
        let round = MagiRound {
            round_number: self.round,
            scrutiny: self.scrutiny.clone(),
            execution: self.execution.clone(),
            promotion,
        };
        proof {
            lemma_round_views_push(self.rounds@, round);
        }
        self.rounds.push(round);
        self.attempt = 0;
        self.phase = Phase::Idle;
        assert(self@.rounds == completed(before, promotion@).spiral.rounds);
        assert(self@.wf()) by {
            assert forall|i: int|
                0 <= i < self@.rounds.len() && (i < self@.rounds.len() - 1 || !self@.stopped())
                implies !(#[trigger] self@.rounds[i]).promotion.should_stop by {
                if i < before.rounds.len() {
                    assert(self@.rounds[i] == before.rounds[i]);
                }
            }
        }
        let events = emit_phase(self.agent_id.as_str(), line.as_str());
        let step = if should_stop {
            SpiralStep::Done(copy_rounds(&self.rounds))
        } else {
            SpiralStep::NextRound
        };
        SpiralReaction { events, step }
    }

    fn delay(&mut self) -> (r: SpiralReaction)
        requires
            old(self)@.wf(),
            old(self)@.attempt < PHASE_RETRIES,
        ensures
            (SpiralOutcome {
                spiral: final(self)@,
                events: stream::event_views(r.events@),
                step: r.step@,
            }) == delayed(old(self)@),
            final(self)@.wf(),
    {
        self.attempt = self.attempt + 1;
        let secs: u64 = match retry_delay(self.attempt, PHASE_RETRIES) {
            Some(s) => s,
            None => 0,
        };
        let events: Vec<StreamEvent> = Vec::new();
        assert(stream::event_views(events@) =~= Seq::empty());
        SpiralReaction { events, step: SpiralStep::Wait(secs) }
    }

    /// Takes an evaluation, or that it was unreadable.
    pub fn on_verdict(&mut self, verdict: Option<Promotion>) -> (r: SpiralReaction)
        requires
            old(self)@.wf(),
            old(self)@.phase == Phase::Evaluate,
        ensures
            (SpiralOutcome {
                spiral: final(self)@,
                events: stream::event_views(r.events@),
                step: r.step@,
            }) == evaluated(
                old(self)@,
                match verdict {
                    Some(p) => Some(p@),
                    None => None,
                },
            ),
            final(self)@.wf(),
            r.step is NextRound ==> !final(self)@.stopped(),
    {
        match verdict {
            Some(p) => self.complete(p),
            None => if self.attempt >= PHASE_RETRIES {
                self.complete(
                    Promotion {
                        quality_score: 0,
                        should_stop: false,
                        stop_reason: "Further work needed".to_string(),
                        next_round_focus: "Continue implementation".to_string(),
                    },
                )
            } else {
                self.delay()
            },
        }
    }

    /// Takes the answer of the evaluating model.
    pub fn on_evaluation(&mut self, raw: &str) -> (r: SpiralReaction)
        requires
            old(self)@.wf(),
            old(self)@.phase == Phase::Evaluate,
        ensures
            (SpiralOutcome {
                spiral: final(self)@,
                events: stream::event_views(r.events@),
                step: r.step@,
            }) == evaluated(old(self)@, promote::promotion_of(raw@)),
            final(self)@.wf(),
            r.step is NextRound ==> !final(self)@.stopped(),
    {
        match parse_promotion(raw) {
            Ok(p) => self.on_verdict(Some(p)),
            Err(_) => self.on_verdict(None),
        }
    }

    /// The present phase failed.
    pub fn on_failure(&mut self, e: MagiError) -> (r: SpiralReaction)
        requires
            old(self)@.wf(),
        ensures
            (SpiralOutcome {
                spiral: final(self)@,
                events: stream::event_views(r.events@),
                step: r.step@,
            }) == phase_failed(old(self)@, e@),
            final(self)@.wf(),
    {
        if self.attempt >= PHASE_RETRIES {
            let events: Vec<StreamEvent> = Vec::new();
            assert(stream::event_views(events@) =~= Seq::empty());
            SpiralReaction { events, step: SpiralStep::Failed(e) }
        } else {
            self.delay()
        }
    }

    /// The failure of a phase that was not done in time.
    pub fn timed_out(&self) -> (r: MagiError)
        ensures
            r@ == MagiErrorView::Parse(late_text(self@.phase, self@.round)),
    {
        let round = decimal(self.round as u64);
        match self.phase {
            Phase::Evaluate => MagiError::Parse(
                cat3("Melchior timed out after 120s (round ", round.as_str(), ")"),
            ),
            _ => MagiError::Parse(
                cat3("Casper timed out after 120s (round ", round.as_str(), ")"),
            ),
        }
    }
}

// ── Settings ────────────────────────────────────────────────────────────────

/// The settings of spirals.
#[derive(Debug)]
pub struct MagiScheduler {
    pub working_dir: String,
    pub max_rounds: u32,
    pub max_steps_per_round: u32,
    pub permission_timeout_secs: u64,
    /// The agent that the events are shown under.
    pub agent_id: String,
}

impl MagiScheduler {
    /// The settings of a spiral that nobody changed.
    pub fn new(working_dir: &str) -> (r: Self)
        ensures
            r.working_dir@ == working_dir@,
            r.max_rounds == DEFAULT_MAX_ROUNDS,
            r.max_steps_per_round == DEFAULT_MAX_STEPS_PER_ROUND,
            r.permission_timeout_secs == 120,
            r.agent_id@ == ""@,
    {
        MagiScheduler {
            working_dir: working_dir.to_string(),
            max_rounds: DEFAULT_MAX_ROUNDS,
            max_steps_per_round: DEFAULT_MAX_STEPS_PER_ROUND,
            permission_timeout_secs: 120,
            agent_id: "".to_string(),
        }
    }

    /// Sets how many seconds a question for permission stands, at least ten.
    pub fn with_permission_timeout(self, secs: u64) -> (r: Self)
        ensures
            r == (MagiScheduler {
                permission_timeout_secs: if secs < 10 {
                    10
                } else {
                    secs
                },
                ..self
            }),
    {
        MagiScheduler {
            permission_timeout_secs: if secs < 10 {
                10
            } else {
                secs
            },
            ..self
        }
    }

    /// Sets the number of rounds.
    pub fn with_max_rounds(self, n: u32) -> (r: Self)
        ensures
            r == (MagiScheduler { max_rounds: n, ..self }),
    {
        MagiScheduler { max_rounds: n, ..self }
    }

    /// Sets the number of steps of an execution.
    pub fn with_max_steps_per_round(self, n: u32) -> (r: Self)
        ensures
            r == (MagiScheduler { max_steps_per_round: n, ..self }),
    {
        MagiScheduler { max_steps_per_round: n, ..self }
    }

    /// Sets the agent that the events are shown under.
    pub fn with_progress(self, agent_id: String) -> (r: Self)
        ensures
            r == (MagiScheduler { agent_id, ..self }),
    {
        MagiScheduler { agent_id, ..self }
    }

    /// A spiral on a task.
    pub fn run_spiral(&self, prd: &str) -> (r: Spiral)
        ensures
            r@ == (SpiralView {
                prd: prd@,
                max_rounds: self.max_rounds,
                max_steps: self.max_steps_per_round,
                agent_id: self.agent_id@,
                round: 0,
                attempt: 0,
                phase: Phase::Idle,
                rounds: Seq::empty(),
                scrutiny: Seq::empty(),
                execution: Seq::empty(),
            }),
            r@.wf(),
            !r@.stopped(),
    {
        let r = Spiral {
            prd: prd.to_string(),
            max_rounds: self.max_rounds,
            max_steps: self.max_steps_per_round,
            agent_id: self.agent_id.clone(),
            round: 0,
            attempt: 0,
            phase: Phase::Idle,
            rounds: Vec::new(),
            scrutiny: String::new(),
            execution: String::new(),
        };
        assert(r@.rounds =~= Seq::empty());
        r
    }
}

// ── Laws ────────────────────────────────────────────────────────────────────

/// A spiral is done only where its last round was evaluated with a stop, and then
/// its score is at least 90, whatever the evaluating model answered.
pub proof fn law_done_is_good(s: SpiralView, raw: Seq<char>)
    ensures
        evaluated(s, promote::promotion_of(raw)).step matches SpiralStepView::Done(rounds)
            ==> rounds.len() > 0 && rounds.last().promotion.should_stop
            && rounds.last().promotion.quality_score >= 90,
{
    promote::law_stop_needs_quality(raw);
}

/// A spiral never has more rounds than it may, and one that used them up without
/// a stop hands all of them back with its failure.
pub proof fn law_rounds_are_bounded(s: SpiralView)
    requires
        s.wf(),
    ensures
        s.rounds.len() <= s.max_rounds,
        s.phase == Phase::Idle && s.round == s.max_rounds ==> round_begun(s).step
            == SpiralStepView::Failed(MagiErrorView::MaxRounds(s.max_rounds, s.rounds))
            && s.rounds.len() == s.max_rounds,
{
}

/// The first round that stops the work is the last one: no round of a spiral that is
/// done stopped it before, and none did where the rounds were used up.
pub proof fn law_first_stop_is_the_last_round(s: SpiralView, p: Option<PromotionView>, i: int)
    requires
        s.wf(),
    ensures
        s.phase == Phase::Evaluate ==> (evaluated(s, p).step matches SpiralStepView::Done(rounds)
            ==> (0 <= i < rounds.len() ==> rounds[i].promotion.should_stop == (i == rounds.len()
            - 1))),
        s.phase == Phase::Idle && !s.stopped() ==> (round_begun(
            s,
        ).step matches SpiralStepView::Failed(MagiErrorView::MaxRounds(_, rounds)) ==> (0 <= i
            < rounds.len() ==> !rounds[i].promotion.should_stop)),
{
    if s.phase == Phase::Evaluate && 0 <= i < s.rounds.len() {
        assert(!s.rounds[i].promotion.should_stop);
    }
}

/// A phase is tried three times at most: two failures are waited out, for one and
/// two seconds, and the third ends it.
pub proof fn law_phase_is_tried_three_times(s: SpiralView, e: MagiErrorView)
    requires
        s.attempt == 0,
    ensures
        phase_failed(s, e).step == SpiralStepView::Wait(1),
        phase_failed(phase_failed(s, e).spiral, e).step == SpiralStepView::Wait(2),
        phase_failed(phase_failed(phase_failed(s, e).spiral, e).spiral, e).step
            == SpiralStepView::Failed(e),
{
    vstd::arithmetic::power2::lemma2_to64();
}

/// What is executed is what was just reviewed, and what is evaluated is what was just
/// executed: the row sent for evaluation holds the task, this round's review and this
/// round's output, each directly behind its heading.
pub proof fn law_round_is_evaluated_as_it_went(
    s: SpiralView,
    scrutiny: Seq<char>,
    execution: Seq<char>,
)
    ensures
        reviewed(s, scrutiny).step == (SpiralStepView::Execute { scrutiny, max_steps: s.max_steps }),
        executed(
            reviewed(s, scrutiny).spiral,
            execution,
        ).step matches SpiralStepView::Evaluate(rows) && promote::tells_the_round(
            rows,
            s.prd,
            scrutiny,
            execution,
        ),
{
    promote::law_evaluator_sees_the_round(s.prd, scrutiny, execution);
}

/// A round that is begun asks for a review of the task and of every round so far.
pub proof fn law_round_begins_with_a_review(s: SpiralView, i: int)
    requires
        s.round < s.max_rounds,
    ensures
        round_begun(s).spiral.round == s.round + 1,
        round_begun(s).spiral.rounds == s.rounds,
        round_begun(s).step matches SpiralStepView::Review(rows) && {
            &&& rows.len() == 2
            &&& rows[1].role == crate::providers::trait_def::Role::User
            &&& text::starts(
                rows[1].content.text(),
                "## PRD (Product Requirements Document)\n\n"@ + s.prd,
            )
            &&& 0 <= i < s.rounds.len() ==> scrutinize::tells_of(
                rows[1].content.text(),
                s.rounds[i],
            )
            &&& s.rounds.len() > 0 && s.rounds.last().scrutiny.len() > 0 ==> text::has_part(
                rows[1].content.text(),
                "## Previous Scrutiny Focus\n\n"@ + s.rounds.last().scrutiny,
            )
        },
{
    scrutinize::law_reviewer_sees_the_rounds(s.prd, s.rounds, last_scrutiny(s.rounds));
}

/// A round is recorded as it went: behind the rounds before it, with its number, its
/// review, its output and its evaluation. It ends the spiral exactly where the
/// evaluation says so, and then all rounds are handed back.
pub proof fn law_round_is_recorded_as_it_went(
    s: SpiralView,
    scrutiny: Seq<char>,
    execution: Seq<char>,
    p: PromotionView,
)
    ensures
        ({
            let o = evaluated(
                executed(reviewed(s, scrutiny).spiral, execution).spiral,
                Some(p),
            );
            let last = o.spiral.rounds.last();
            &&& o.spiral.rounds.drop_last() == s.rounds
            &&& o.spiral.rounds.len() == s.rounds.len() + 1
            &&& last.round_number == s.round
            &&& last.scrutiny == scrutiny
            &&& last.execution == execution
            &&& last.promotion == p
            &&& o.spiral.prd == s.prd
            &&& o.step == (if p.should_stop {
                SpiralStepView::Done(o.spiral.rounds)
            } else {
                SpiralStepView::NextRound
            })
        }),
{
    let o = evaluated(executed(reviewed(s, scrutiny).spiral, execution).spiral, Some(p));
    assert(o.spiral.rounds.drop_last() =~= s.rounds);
}

/// An evaluation that stays unreadable never ends the spiral: it is asked for twice
/// more, and then the round counts with a score of zero.
pub proof fn law_no_verdict_is_no_stop(s: SpiralView)
    requires
        s.wf(),
    ensures
        s.attempt < 2 ==> evaluated(s, None).step is Wait && evaluated(s, None).spiral == (
        SpiralView { attempt: (s.attempt + 1) as u32, ..s }),
        s.attempt == 2 ==> {
            &&& evaluated(s, None).step == SpiralStepView::NextRound
            &&& evaluated(s, None).spiral.rounds.len() == s.rounds.len() + 1
            &&& evaluated(s, None).spiral.rounds.last().promotion.quality_score == 0
            &&& !evaluated(s, None).spiral.rounds.last().promotion.should_stop
        },
{
}

} // verus!
