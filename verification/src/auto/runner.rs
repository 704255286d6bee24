//! Working through a task without being asked.
//!
//! [`AutoRun`] holds the plan. It says which subtasks to work on next, takes what
//! came of them, notices that no progress is made and asks for a new plan. The
//! caller runs the spirals and asks the model for plans; it may run the subtasks
//! of a wave side by side. The events are for an interface that shows the work:
//! where there is none, they are dropped.

use crate::agent::stream;
use crate::agent::stream::{EventView, StreamEvent};
use crate::auto::stall;
use crate::auto::stall::StallDetector;
use crate::auto::subtask;
use crate::auto::subtask::find_all_ready;
use crate::magi::scheduler;
use crate::magi::scheduler::{MagiError, MagiErrorView, MagiRound, MagiScheduler, RoundView};
use crate::text;
use crate::text::{cat2, cat3, decimal, join, take_chars};
use vstd::prelude::*;
use vstd::string::*;

pub use crate::auto::decomposer::AutoError;
pub use crate::auto::subtask::{StatusView, Subtask, SubtaskStatus, SubtaskView};

verus! {

/// How often a task is broken down anew, unless told otherwise.
pub const DEFAULT_MAX_REDECOMPOSE_CYCLES: u32 = 3;

/// How many completions without progress make a stall, unless told otherwise.
pub const DEFAULT_STALL_ROUNDS: usize = 3;

/// How many rounds a subtask has, unless told otherwise.
pub const DEFAULT_MAGI_MAX_ROUNDS: u32 = 3;

/// How many steps an execution has, unless told otherwise.
pub const DEFAULT_MAGI_MAX_STEPS: u32 = 12;

/// How many subtasks are worked on side by side, unless told otherwise.
pub const DEFAULT_MAX_PARALLEL: usize = 4;

// ── Settings ────────────────────────────────────────────────────────────────

/// The settings of a run.
#[derive(Debug)]
pub struct AutoRunner {
    pub working_dir: String,
    pub magi_max_rounds: u32,
    pub magi_max_steps: u32,
    pub max_recompose_cycles: u32,
    pub stall_rounds: usize,
    /// Whether ready subtasks are worked on side by side.
    pub teams_parallel: bool,
    pub max_parallel: usize,
    pub permission_timeout_secs: u64,
}

/// The agent that a subtask is shown under.
pub open spec fn agent_of(teams: bool, id: usize) -> Seq<char> {
    (if teams {
        "at-"@
    } else {
        "subtask-"@
    }) + text::dec(id as nat)
}

/// What is said before the task is broken down.
pub open spec fn opening_text(teams: bool, max_parallel: usize) -> Seq<char> {
    if teams {
        "## /auto + Teams — parallel auto spirals\n\nTeams is ON: ready subtasks run concurrently (max "@
            + text::dec(max_parallel as nat)
            + " at a time).\n\nDecomposing task into subtasks…\n\n"@
    } else {
        "## /auto — auto spiral\n\nDecomposing task into subtasks…\n\n_Tip: turn on **TEAM** to run independent subtasks in parallel._\n\n"@
    }
}

/// The agent that a subtask is shown under.
pub fn agent_id_for(teams_parallel: bool, task_id: usize) -> (r: String)
    ensures
        r@ == agent_of(teams_parallel, task_id),
{
    let id = decimal(task_id as u64);
    if teams_parallel {
        cat2("at-", id.as_str())
    } else {
        cat2("subtask-", id.as_str())
    }
}

impl AutoRunner {
    /// The settings of a run that nobody changed.
    pub fn new(working_dir: &str) -> (r: Self)
        ensures
            r.working_dir@ == working_dir@,
            r.magi_max_rounds == DEFAULT_MAGI_MAX_ROUNDS,
            r.magi_max_steps == DEFAULT_MAGI_MAX_STEPS,
            r.max_recompose_cycles == DEFAULT_MAX_REDECOMPOSE_CYCLES,
            r.stall_rounds == DEFAULT_STALL_ROUNDS,
            !r.teams_parallel,
            r.max_parallel == DEFAULT_MAX_PARALLEL,
            r.permission_timeout_secs == 120,
    {
        AutoRunner {
            working_dir: working_dir.to_string(),
            magi_max_rounds: DEFAULT_MAGI_MAX_ROUNDS,
            magi_max_steps: DEFAULT_MAGI_MAX_STEPS,
            max_recompose_cycles: DEFAULT_MAX_REDECOMPOSE_CYCLES,
            stall_rounds: DEFAULT_STALL_ROUNDS,
            teams_parallel: false,
            max_parallel: DEFAULT_MAX_PARALLEL,
            permission_timeout_secs: 120,
        }
    }

    /// Sets how many seconds a question for permission stands, at least ten.
    pub fn with_permission_timeout(self, secs: u64) -> (r: Self)
        ensures
            r == (AutoRunner {
                permission_timeout_secs: if secs < 10 {
                    10
                } else {
                    secs
                },
                ..self
            }),
    {
        AutoRunner {
            permission_timeout_secs: if secs < 10 {
                10
            } else {
                secs
            },
            ..self
        }
    }

    /// Sets whether ready subtasks are worked on side by side.
    pub fn with_teams_parallel(self, on: bool) -> (r: Self)
        ensures
            r == (AutoRunner { teams_parallel: on, ..self }),
    {
        AutoRunner { teams_parallel: on, ..self }
    }

    /// Sets how many subtasks are worked on side by side, at least one.
    pub fn with_max_parallel(self, n: usize) -> (r: Self)
        ensures
            r == (AutoRunner {
                max_parallel: if n == 0 {
                    1
                } else {
                    n
                },
                ..self
            }),
    {
        AutoRunner {
            max_parallel: if n == 0 {
                1
            } else {
                n
            },
            ..self
        }
    }

    /// Sets the number of rounds of a subtask.
    pub fn with_magi_max_rounds(self, n: u32) -> (r: Self)
        ensures
            r == (AutoRunner { magi_max_rounds: n, ..self }),
    {
        AutoRunner { magi_max_rounds: n, ..self }
    }

    /// Sets the number of steps of an execution.
    pub fn with_magi_max_steps(self, n: u32) -> (r: Self)
        ensures
            r == (AutoRunner { magi_max_steps: n, ..self }),
    {
        AutoRunner { magi_max_steps: n, ..self }
    }

    /// Sets how often a task is broken down anew.
    pub fn with_max_recompose_cycles(self, n: u32) -> (r: Self)
        ensures
            r == (AutoRunner { max_recompose_cycles: n, ..self }),
    {
        AutoRunner { max_recompose_cycles: n, ..self }
    }

    /// Sets how many completions without progress make a stall.
    pub fn with_stall_rounds(self, n: usize) -> (r: Self)
        ensures
            r == (AutoRunner { stall_rounds: n, ..self }),
    {
        AutoRunner { stall_rounds: n, ..self }
    }

    /// What is said before the task is broken down.
    pub fn opening(&self) -> (r: StreamEvent)
        ensures
            r@ == (EventView::Token {
                content: opening_text(self.teams_parallel, self.max_parallel),
            }),
    {
        if self.teams_parallel {
            StreamEvent::Token {
                content: cat3(
                    "## /auto + Teams — parallel auto spirals\n\nTeams is ON: ready subtasks run concurrently (max ",
                    decimal(self.max_parallel as u64).as_str(),
                    " at a time).\n\nDecomposing task into subtasks…\n\n",
                ),
            }
        } else {
            StreamEvent::Token {
                content: "## /auto — auto spiral\n\nDecomposing task into subtasks…\n\n_Tip: turn on **TEAM** to run independent subtasks in parallel._\n\n".to_string(),
            }
        }
    }

    /// The settings of the spiral of a subtask.
    pub fn scheduler_for(&self, agent_id: String) -> (r: MagiScheduler)
        ensures
            r.working_dir@ == self.working_dir@,
            r.max_rounds == self.magi_max_rounds,
            r.max_steps_per_round == self.magi_max_steps,
            r.permission_timeout_secs == (if self.permission_timeout_secs < 10 {
                10
            } else {
                self.permission_timeout_secs
            }),
            r.agent_id@ == agent_id@,
    {
        MagiScheduler::new(self.working_dir.as_str()).with_max_rounds(
            self.magi_max_rounds,
        ).with_max_steps_per_round(self.magi_max_steps).with_permission_timeout(
            self.permission_timeout_secs,
        ).with_progress(agent_id)
    }
}

/// The task that the spiral of a subtask is given.
pub open spec fn subtask_prd_text(prd: Seq<char>, description: Seq<char>) -> Seq<char> {
    "Original PRD:\n"@ + prd + "\n\nSubtask:\n"@ + description
}

/// The session of a subtask.
pub fn subtask_session(session_id: &str, task_id: usize) -> (r: String)
    ensures
        r@ == session_id@ + "-s"@ + text::dec(task_id as nat),
{
    cat3(session_id, "-s", decimal(task_id as u64).as_str())
}

// ── Quality ─────────────────────────────────────────────────────────────────

/// The values of the rounds of all subtasks.
pub open spec fn run_views(v: Seq<Vec<MagiRound>>) -> Seq<Seq<RoundView>> {
    v.map_values(|r: Vec<MagiRound>| scheduler::round_views(r@))
}

/// The score of the last round; 0 where there is none.
pub open spec fn last_quality(rounds: Seq<RoundView>) -> u32 {
    if rounds.len() == 0 {
        0
    } else {
        rounds.last().promotion.quality_score
    }
}

/// The sum of the last scores of the first `n` spirals.
pub open spec fn quality_sum(s: Seq<Seq<RoundView>>, n: int) -> nat
    decreases n,
{
    if n <= 0 {
        0
    } else {
        quality_sum(s, n - 1) + last_quality(s[n - 1]) as nat
    }
}

/// How many of the first `n` spirals have a last round.
pub open spec fn quality_count(s: Seq<Seq<RoundView>>, n: int) -> nat
    decreases n,
{
    if n <= 0 {
        0
    } else {
        quality_count(s, n - 1) + (if s[n - 1].len() > 0 {
            1nat
        } else {
            0
        })
    }
}

/// The sum of the last scores of the spirals, and how many there are: their
/// quotient is the average quality, which is 0 where there are none.
pub fn compute_average_quality(all_rounds: &Vec<Vec<MagiRound>>) -> (r: (u128, usize))
    ensures
        r.0 == quality_sum(run_views(all_rounds@), all_rounds@.len() as int),
        r.1 == quality_count(run_views(all_rounds@), all_rounds@.len() as int),
        r.1 == 0 ==> r.0 == 0,
{
    let ghost s = run_views(all_rounds@);
    let n: usize = all_rounds.len();
    let mut sum: u128 = 0;
    let mut count: usize = 0;
    for i in 0..n
        invariant
            n == all_rounds@.len(),
            s == run_views(all_rounds@),
            sum == quality_sum(s, i as int),
            count == quality_count(s, i as int),
            count <= i,
            sum <= u32::MAX * i,
            count == 0 ==> sum == 0,
    {
        let m: usize = all_rounds[i].len();
        assert(s[i as int] == scheduler::round_views(all_rounds@[i as int]@));
        if m > 0 {
            let q: u32 = all_rounds[i][m - 1].promotion.quality_score;
            assert(q == last_quality(s[i as int]));
            assert(sum + q <= u32::MAX * (i + 1)) by (nonlinear_arith)
                requires
                    sum <= u32::MAX * i,
            ;
            assert(u32::MAX * (i + 1) <= u128::MAX) by (nonlinear_arith)
                requires
                    i < usize::MAX,
            ;
            sum = sum + q as u128;
            count = count + 1;
        } else {
            assert(sum <= u32::MAX * (i + 1)) by (nonlinear_arith)
                requires
                    sum <= u32::MAX * i,
            ;
        }
    }
    (sum, count)
}

// ── A run ───────────────────────────────────────────────────────────────────

/// A subtask to work on.
#[derive(Debug)]
pub struct Job {
    /// Its place in the plan.
    pub index: usize,
    pub task_id: usize,
    pub description: String,
    pub agent_id: String,
    /// The task that its spiral is given.
    pub prd: String,
}

/// A subtask to work on, as a value.
#[verifier::ext_equal]
pub struct JobView {
    pub index: usize,
    pub task_id: usize,
    pub description: Seq<char>,
    pub agent_id: Seq<char>,
    pub prd: Seq<char>,
}

impl View for Job {
    type V = JobView;

    open spec fn view(&self) -> JobView {
        JobView {
            index: self.index,
            task_id: self.task_id,
            description: self.description@,
            agent_id: self.agent_id@,
            prd: self.prd@,
        }
    }
}

/// The values of the subtasks to work on.
pub open spec fn job_views(v: Seq<Job>) -> Seq<JobView> {
    v.map_values(|j: Job| j@)
}

/// Subtasks to work on next; none where the run is over.
#[derive(Debug)]
pub struct Wave {
    pub events: Vec<StreamEvent>,
    pub jobs: Vec<Job>,
}

/// What to do after a wave.
#[derive(Debug)]
pub enum AutoStep {
    /// Go on with `next_wave`.
    Continue,
    /// Ask for a plan for this, then go on with `on_recomposed`.
    Recompose(String),
    /// The run is over: go on with `finish`.
    Finish,
}

/// What to do after a wave, as a value.
#[verifier::ext_equal]
pub enum AutoStepView {
    Continue,
    Recompose(Seq<char>),
    Finish,
}

impl View for AutoStep {
    type V = AutoStepView;

    open spec fn view(&self) -> AutoStepView {
        match self {
            AutoStep::Continue => AutoStepView::Continue,
            AutoStep::Recompose(s) => AutoStepView::Recompose(s@),
            AutoStep::Finish => AutoStepView::Finish,
        }
    }
}

/// What a run came to.
#[derive(Debug)]
pub struct AutoRunResult {
    pub subtasks: Vec<Subtask>,
    /// The rounds of each subtask, in the order in which they ended.
    pub rounds_per_subtask: Vec<Vec<MagiRound>>,
    /// The sum of the last scores.
    pub quality_sum: u128,
    /// How many scores that sum is of.
    pub quality_count: usize,
    /// Whether no progress was made any more.
    pub stalled: bool,
}

/// A run through a task.
#[derive(Debug)]
pub struct AutoRun {
    prd: String,
    teams_parallel: bool,
    max_parallel: usize,
    max_recompose_cycles: u32,
    subtasks: Vec<Subtask>,
    all_rounds: Vec<Vec<MagiRound>>,
    stall_detector: StallDetector,
    recompose_count: u32,
    recompose_failures: u32,
    stalled: bool,
}

/// A run through a task, as a value.
#[verifier::ext_equal]
pub struct AutoView {
    pub prd: Seq<char>,
    pub teams_parallel: bool,
    pub max_parallel: usize,
    pub max_recompose_cycles: u32,
    pub tasks: Seq<SubtaskView>,
    pub rounds: Seq<Seq<RoundView>>,
    /// How many completions without progress make a stall.
    pub window: nat,
    /// The scores of the last completions.
    pub scores: Seq<u32>,
    /// How often a new plan was asked for.
    pub recompose_count: u32,
    /// How often in a row that failed.
    pub recompose_failures: u32,
    pub stalled: bool,
}

impl AutoView {
    /// What holds of every run.
    pub open spec fn wf(self) -> bool {
        &&& self.max_parallel >= 1
        &&& 1 <= self.window
        &&& self.scores.len() <= self.window
        &&& self.recompose_count <= self.max_recompose_cycles
        &&& self.recompose_failures <= 2
    }
}

impl View for AutoRun {
    type V = AutoView;

    closed spec fn view(&self) -> AutoView {
        AutoView {
            prd: self.prd@,
            teams_parallel: self.teams_parallel,
            max_parallel: self.max_parallel,
            max_recompose_cycles: self.max_recompose_cycles,
            tasks: subtask::task_views(self.subtasks@),
            rounds: run_views(self.all_rounds@),
            window: self.stall_detector.window(),
            scores: self.stall_detector.scores(),
            recompose_count: self.recompose_count,
            recompose_failures: self.recompose_failures,
            stalled: self.stalled,
        }
    }
}

/// One line of a plan for each subtask.
pub open spec fn plan_lines(s: Seq<SubtaskView>) -> Seq<Seq<char>> {
    s.map_values(
        |t: SubtaskView| "- [ ] **#"@ + text::dec(t.id as nat) + "** "@ + t.description,
    )
}

/// What is said of a plan.
pub open spec fn plan_text(s: Seq<SubtaskView>, teams: bool) -> Seq<char> {
    "### Plan ("@ + text::dec(s.len()) + " subtasks)"@ + (if teams {
        " · **parallel auto**"@
    } else {
        " · sequential auto"@
    }) + "\n\n"@ + text::joined(plan_lines(s), "\n"@) + "\n\n"@
}

// ── Waves ───────────────────────────────────────────────────────────────────

/// The places of the subtasks of the next wave.
pub open spec fn batch_of(v: AutoView) -> Seq<usize> {
    let ready = subtask::ready_among(v.tasks, v.tasks.len() as int);
    let most = if v.teams_parallel {
        v.max_parallel as int
    } else {
        1
    };
    if ready.len() <= most {
        ready
    } else {
        ready.take(most)
    }
}

/// The plan with the subtask at one place in another state.
pub open spec fn with_status(s: Seq<SubtaskView>, i: int, status: StatusView) -> Seq<SubtaskView> {
    s.update(i, SubtaskView { status, ..s[i] })
}

/// The plan with the subtasks at the first `n` of these places in progress.
pub open spec fn marked(s: Seq<SubtaskView>, batch: Seq<usize>, n: int) -> Seq<SubtaskView>
    decreases n,
{
    if n <= 0 {
        s
    } else {
        with_status(marked(s, batch, n - 1), batch[n - 1] as int, StatusView::InProgress)
    }
}

/// The subtask at one place, as work.
pub open spec fn job_of(v: AutoView, i: int) -> JobView {
    JobView {
        index: i as usize,
        task_id: v.tasks[i].id,
        description: v.tasks[i].description,
        agent_id: agent_of(v.teams_parallel, v.tasks[i].id),
        prd: subtask_prd_text(v.prd, v.tasks[i].description),
    }
}

/// The events of a subtask that is started.
pub open spec fn start_events(j: JobView) -> Seq<EventView> {
    seq![
        EventView::TeamAgentStart { agent_id: j.agent_id, task: j.description },
        EventView::Token {
            content: "\n### Subtask #"@ + text::dec(j.task_id as nat) + ": "@ + j.description
                + "\n\nRunning auto spiral (review → execute → evaluate)…\n\n"@,
        },
    ]
}

/// The events of the first `n` subtasks that are started.
pub open spec fn wave_events_of(v: AutoView, batch: Seq<usize>, n: int) -> Seq<EventView>
    decreases n,
{
    if n <= 0 {
        if v.teams_parallel && batch.len() > 1 {
            seq![
                EventView::Token {
                    content: "\n---\n### Parallel wave — "@ + text::dec(batch.len())
                        + " auto spirals\n\n"@,
                },
            ]
        } else {
            Seq::empty()
        }
    } else {
        wave_events_of(v, batch, n - 1) + start_events(job_of(v, batch[n - 1] as int))
    }
}

// ── What came of a subtask ──────────────────────────────────────────────────

/// The events of one round of a subtask.
pub open spec fn round_events(id: usize, r: RoundView) -> Seq<EventView> {
    let thought = EventView::Thinking {
        content: "Subtask #"@ + text::dec(id as nat) + " round "@ + text::dec(
            r.round_number as nat,
        ) + ": quality="@ + text::dec(r.promotion.quality_score as nat) + "/100 stop="@
            + scheduler::bool_text(r.promotion.should_stop) + " — "@ + r.promotion.stop_reason
            + "\n"@,
        step: r.round_number,
    };
    if r.execution.len() == 0 {
        seq![thought]
    } else {
        seq![
            thought,
            EventView::Token {
                content: "**#"@ + text::dec(id as nat) + " Round "@ + text::dec(
                    r.round_number as nat,
                ) + "**\n\n"@ + text::first_chars(r.execution, 400) + "\n\n"@,
            },
        ]
    }
}

/// The events of the first `n` rounds of a subtask.
pub open spec fn rounds_events(id: usize, s: Seq<RoundView>, n: int) -> Seq<EventView>
    decreases n,
{
    if n <= 0 {
        Seq::empty()
    } else {
        rounds_events(id, s, n - 1) + round_events(id, s[n - 1])
    }
}

/// What a spiral came to.
pub enum SpiralEnd {
    Done(Seq<RoundView>),
    Failed(MagiErrorView),
}

/// A result of a spiral as a value.
pub open spec fn spiral_end(r: Result<Vec<MagiRound>, MagiError>) -> SpiralEnd {
    match r {
        Ok(v) => SpiralEnd::Done(scheduler::round_views(v@)),
        Err(e) => SpiralEnd::Failed(e@),
    }
}

/// Whether the last round stopped the work.
pub open spec fn last_stops(rounds: Seq<RoundView>) -> bool {
    rounds.len() > 0 && rounds.last().promotion.should_stop
}

/// Whether a subtask is done: its spiral stopped the work or reached a score of
/// 70; a spiral that used up its rounds is accepted from 60 on.
pub open spec fn accepted(end: SpiralEnd) -> bool {
    match end {
        SpiralEnd::Done(rounds) => last_stops(rounds) || last_quality(rounds) >= 70,
        SpiralEnd::Failed(MagiErrorView::MaxRounds(max, rounds)) => last_quality(rounds) >= 60,
        SpiralEnd::Failed(_) => false,
    }
}

/// The rounds that a spiral hands back.
pub open spec fn rounds_of(end: SpiralEnd) -> Seq<RoundView> {
    match end {
        SpiralEnd::Done(rounds) => rounds,
        SpiralEnd::Failed(MagiErrorView::MaxRounds(max, rounds)) => rounds,
        SpiralEnd::Failed(_) => Seq::empty(),
    }
}

/// Why a subtask failed.
pub open spec fn failure_text(end: SpiralEnd) -> Seq<char> {
    match end {
        SpiralEnd::Done(rounds) => "Low quality score "@ + text::dec(last_quality(rounds) as nat)
            + ".0/100 after "@ + text::dec(rounds.len()) + " rounds"@,
        SpiralEnd::Failed(MagiErrorView::MaxRounds(max, rounds)) => "Max auto rounds ("@
            + text::dec(max as nat) + ") with quality "@ + text::dec(last_quality(rounds) as nat)
            + "/100"@,
        SpiralEnd::Failed(e) => "auto error: "@ + MagiError::told(e),
    }
}

/// How a subtask stands after its spiral.
pub open spec fn status_after(end: SpiralEnd) -> StatusView {
    if accepted(end) {
        StatusView::Done
    } else {
        StatusView::Failed(failure_text(end))
    }
}

/// The short account of a subtask that has ended.
pub open spec fn summary_of(end: SpiralEnd) -> Seq<char> {
    match end {
        SpiralEnd::Done(rounds) => if accepted(end) {
            "quality="@ + text::dec(last_quality(rounds) as nat) + "/100, rounds="@ + text::dec(
                rounds.len(),
            )
        } else {
            "low quality "@ + text::dec(last_quality(rounds) as nat) + "/100"@
        },
        SpiralEnd::Failed(MagiErrorView::MaxRounds(max, rounds)) => if accepted(end) {
            "max rounds "@ + text::dec(max as nat) + ", quality="@ + text::dec(
                last_quality(rounds) as nat,
            )
        } else {
            "max rounds, quality="@ + text::dec(last_quality(rounds) as nat)
        },
        SpiralEnd::Failed(e) => MagiError::told(e),
    }
}

/// What is shown of a subtask that is done.
pub open spec fn done_text(id: usize, end: SpiralEnd) -> Seq<char> {
    match end {
        SpiralEnd::Failed(MagiErrorView::MaxRounds(max, rounds)) => "⚠️ Subtask #"@ + text::dec(
            id as nat,
        ) + " reached max auto rounds ("@ + text::dec(max as nat) + ") with quality "@ + text::dec(
            last_quality(rounds) as nat,
        ) + "/100 — accepting partial result.\n\n"@,
        _ => "✅ Subtask #"@ + text::dec(id as nat) + " done (quality "@ + text::dec(
            last_quality(rounds_of(end)) as nat,
        ) + "/100, "@ + text::dec(rounds_of(end).len()) + " rounds)\n\n"@,
    }
}

/// The events of a subtask that has ended.
pub open spec fn end_events(teams: bool, id: usize, end: SpiralEnd) -> Seq<EventView> {
    let told = match end {
        SpiralEnd::Done(rounds) => rounds_events(id, rounds, rounds.len() as int),
        SpiralEnd::Failed(_) => Seq::empty(),
    };
    let ended = told.push(
        EventView::TeamAgentEnd {
            agent_id: agent_of(teams, id),
            success: accepted(end),
            summary: summary_of(end),
        },
    );
    if accepted(end) {
        ended.push(EventView::Token { content: done_text(id, end) })
    } else {
        ended
    }
}

/// The run after the spiral of the subtask at place `i` ended.
pub open spec fn ended(v: AutoView, i: int, end: SpiralEnd) -> AutoView {
    AutoView {
        tasks: with_status(v.tasks, i, status_after(end)),
        rounds: v.rounds.push(rounds_of(end)),
        scores: stall::last_scores(v.scores.push(last_quality(rounds_of(end))), v.window),
        ..v
    }
}

// ── Plans anew ──────────────────────────────────────────────────────────────

/// Whether no progress is made.
pub open spec fn is_stalled(v: AutoView) -> bool {
    v.scores.len() >= v.window && stall::all_low(v.scores) && !stall::improving(v.scores)
}

/// Whether a subtask is still to be done.
pub open spec fn is_unfinished(t: SubtaskView) -> bool {
    t.status is Pending || t.status is Failed
}

/// The descriptions of what is still to be done among the first `n` subtasks.
pub open spec fn unfinished(s: Seq<SubtaskView>, n: int) -> Seq<Seq<char>>
    decreases n,
{
    if n <= 0 {
        Seq::empty()
    } else if is_unfinished(s[n - 1]) {
        unfinished(s, n - 1).push(s[n - 1].description)
    } else {
        unfinished(s, n - 1)
    }
}

/// A numbered list.
pub open spec fn numbered_list(s: Seq<Seq<char>>) -> Seq<Seq<char>> {
    Seq::new(s.len(), |i: int| text::dec((i + 1) as nat) + ". "@ + s[i])
}

/// What a new plan is asked for.
pub open spec fn remaining_prd(v: AutoView) -> Seq<char> {
    "Original PRD:\n"@ + v.prd + "\n\nRemaining unfinished work:\n"@ + text::joined(
        numbered_list(unfinished(v.tasks, v.tasks.len() as int)),
        "\n"@,
    )
}

/// The run and what to do after a wave.
pub open spec fn waved(v: AutoView) -> (AutoView, AutoStepView) {
    if !is_stalled(v) {
        (v, AutoStepView::Continue)
    } else if v.recompose_count >= v.max_recompose_cycles {
        (AutoView { stalled: true, ..v }, AutoStepView::Finish)
    } else {
        let next = AutoView { recompose_count: (v.recompose_count + 1) as u32, ..v };
        if unfinished(v.tasks, v.tasks.len() as int).len() == 0 {
            (next, AutoStepView::Finish)
        } else {
            (next, AutoStepView::Recompose(remaining_prd(v)))
        }
    }
}

/// The subtasks that are done.
pub open spec fn done_tasks(s: Seq<SubtaskView>) -> Seq<SubtaskView> {
    s.filter(|t: SubtaskView| t.status is Done)
}

/// The greatest id; 0 where there is none.
pub open spec fn greatest_id(s: Seq<SubtaskView>) -> usize
    decreases s.len(),
{
    if s.len() == 0 {
        0
    } else if s.last().id > greatest_id(s.drop_last()) {
        s.last().id
    } else {
        greatest_id(s.drop_last())
    }
}

/// A new plan, whose subtasks are numbered from one, with ids from `next` on, all of
/// it pending. What a subtask depends on is numbered anew with it.
pub open spec fn renumbered(s: Seq<SubtaskView>, next: int) -> Seq<SubtaskView> {
    Seq::new(
        s.len(),
        |i: int|
            SubtaskView {
                id: (next + i) as usize,
                dependencies: s[i].dependencies.map_values(|d: usize| (d + next - 1) as usize),
                status: StatusView::Pending,
                ..s[i]
            },
    )
}

/// Whether every dependency of a plan that is numbered behind `top` has a number.
pub open spec fn dependencies_fit(s: Seq<SubtaskView>, top: int) -> bool {
    forall|i: int, k: int|
        0 <= i < s.len() && 0 <= k < s[i].dependencies.len() ==> top
            + #[trigger] s[i].dependencies[k] <= usize::MAX
}

/// The run with a new plan for what is not done.
pub open spec fn replanned(v: AutoView, plan: Seq<SubtaskView>) -> AutoView {
    let done = done_tasks(v.tasks);
    AutoView {
        tasks: done + renumbered(plan, greatest_id(done) + 1),
        scores: Seq::empty(),
        recompose_failures: 0,
        ..v
    }
}

/// How many of the first `n` subtasks are done.
pub open spec fn count_done(s: Seq<SubtaskView>, n: int) -> nat
    decreases n,
{
    if n <= 0 {
        0
    } else {
        count_done(s, n - 1) + (if s[n - 1].status is Done {
            1nat
        } else {
            0
        })
    }
}

/// How many of the first `n` subtasks have failed.
pub open spec fn count_failed(s: Seq<SubtaskView>, n: int) -> nat
    decreases n,
{
    if n <= 0 {
        0
    } else {
        count_failed(s, n - 1) + (if s[n - 1].status is Failed {
            1nat
        } else {
            0
        })
    }
}

/// The events at the end of a run, given the average quality as text.
pub open spec fn finish_events(v: AutoView, average: Seq<char>) -> Seq<EventView> {
    let n = v.tasks.len() as int;
    seq![
        EventView::TeamComplete {
            completed: count_done(v.tasks, n) as usize,
            failed: count_failed(v.tasks, n) as usize,
        },
        EventView::Token {
            content: "\n---\n### /auto complete\n\n- Done: "@ + text::dec(count_done(v.tasks, n))
                + "\n- Failed: "@ + text::dec(count_failed(v.tasks, n)) + "\n- Avg quality: "@
                + average + "/100\n- Stalled: "@ + scheduler::bool_text(v.stalled) + "\n\n"@,
        },
    ]
}

// ── The code ────────────────────────────────────────────────────────────────

fn bool_word(b: bool) -> (r: &'static str)
    ensures
        r@ == scheduler::bool_text(b),
{
    if b {
        "true"
    } else {
        "false"
    }
}

fn shift_ids(ids: &Vec<usize>, by: usize) -> (r: Vec<usize>)
    requires
        forall|k: int| 0 <= k < ids@.len() ==> by + #[trigger] ids@[k] <= usize::MAX,
    ensures
        r@ == ids@.map_values(|d: usize| (d + by) as usize),
{
    let mut r: Vec<usize> = Vec::new();
    let n: usize = ids.len();
    for i in 0..n
        invariant
            n == ids@.len(),
            forall|k: int| 0 <= k < ids@.len() ==> by + #[trigger] ids@[k] <= usize::MAX,
            r@ == ids@.take(i as int).map_values(|d: usize| (d + by) as usize),
    {
        assert(by + ids@[i as int] <= usize::MAX);
        r.push(by + ids[i]);
        assert(r@ =~= ids@.take(i + 1).map_values(|d: usize| (d + by) as usize));
    }
    assert(ids@.take(n as int) =~= ids@);
    r
}

fn quality_of(rounds: &Vec<MagiRound>) -> (r: u32)
    ensures
        r == last_quality(scheduler::round_views(rounds@)),
{
    let n: usize = rounds.len();
    if n == 0 {
        0
    } else {
        rounds[n - 1].promotion.quality_score
    }
}

fn stops(rounds: &Vec<MagiRound>) -> (r: bool)
    ensures
        r == last_stops(scheduler::round_views(rounds@)),
{
    let n: usize = rounds.len();
    n > 0 && rounds[n - 1].promotion.should_stop
}

fn tell_rounds(id: usize, rounds: &Vec<MagiRound>) -> (r: Vec<StreamEvent>)
    ensures
        stream::event_views(r@) == rounds_events(
            id,
            scheduler::round_views(rounds@),
            rounds@.len() as int,
        ),
{
    let ghost s = scheduler::round_views(rounds@);
    let n: usize = rounds.len();
    let mut r: Vec<StreamEvent> = Vec::new();
    assert(stream::event_views(r@) =~= rounds_events(id, s, 0));
    for i in 0..n
        invariant
            n == rounds@.len(),
            s == scheduler::round_views(rounds@),
            stream::event_views(r@) == rounds_events(id, s, i as int),
    {
        let round = &rounds[i];
        let ghost before = r@;
        let number = decimal(round.round_number as u64);
        let task = decimal(id as u64);
        let thought = cat3("Subtask #", task.as_str(), " round ").concat(number.as_str()).concat(
            ": quality=",
        ).concat(decimal(round.promotion.quality_score as u64).as_str()).concat(
            "/100 stop=",
        ).concat(bool_word(round.promotion.should_stop)).concat(" — ").concat(
            round.promotion.stop_reason.as_str(),
        ).concat("\n");
        r.push(StreamEvent::Thinking { content: thought, step: round.round_number });
        if !round.execution.as_str().is_empty() {
            let shown = cat3("**#", task.as_str(), " Round ").concat(number.as_str()).concat(
                "**\n\n",
            ).concat(take_chars(round.execution.as_str(), 400).as_str()).concat("\n\n");
            r.push(StreamEvent::Token { content: shown });
        }
        assert(stream::event_views(r@) =~= stream::event_views(before) + round_events(
            id,
            s[i as int],
        ));
    }
    r
}

/// The statement of a subtask that has ended: how it stands, the short account,
/// and what is shown where it is done.
struct Verdict {
    status: SubtaskStatus,
    summary: String,
    shown: String,
}

fn judge(id: usize, spiral: &Result<Vec<MagiRound>, MagiError>) -> (r: Verdict)
    ensures
        r.status@ == status_after(spiral_end(*spiral)),
        r.summary@ == summary_of(spiral_end(*spiral)),
        accepted(spiral_end(*spiral)) ==> r.shown@ == done_text(id, spiral_end(*spiral)),
{
    let task = decimal(id as u64);
    match spiral {
        Ok(rounds) => {
            let q: u32 = quality_of(rounds);
            let quality = decimal(q as u64);
            let count = decimal(rounds.len() as u64);
            if stops(rounds) || q >= 70 {
                Verdict {
                    status: SubtaskStatus::Done,
                    summary: cat3("quality=", quality.as_str(), "/100, rounds=").concat(
                        count.as_str(),
                    ),
                    shown: cat3("✅ Subtask #", task.as_str(), " done (quality ").concat(
                        quality.as_str(),
                    ).concat("/100, ").concat(count.as_str()).concat(" rounds)\n\n"),
                }
            } else {
                Verdict {
                    status: SubtaskStatus::Failed(
                        cat3("Low quality score ", quality.as_str(), ".0/100 after ").concat(
                            count.as_str(),
                        ).concat(" rounds"),
                    ),
                    summary: cat3("low quality ", quality.as_str(), "/100"),
                    shown: String::new(),
                }
            }
        },
        Err(MagiError::MaxRounds(max, rounds)) => {
            let q: u32 = quality_of(rounds);
            let quality = decimal(q as u64);
            let most = decimal(*max as u64);
            if q >= 60 {
                Verdict {
                    status: SubtaskStatus::Done,
                    summary: cat3("max rounds ", most.as_str(), ", quality=").concat(
                        quality.as_str(),
                    ),
                    shown: cat3("⚠️ Subtask #", task.as_str(), " reached max auto rounds (").concat(
                        most.as_str(),
                    ).concat(") with quality ").concat(quality.as_str()).concat(
                        "/100 — accepting partial result.\n\n",
                    ),
                }
            } else {
                Verdict {
                    status: SubtaskStatus::Failed(
                        cat3("Max auto rounds (", most.as_str(), ") with quality ").concat(
                            quality.as_str(),
                        ).concat("/100"),
                    ),
                    summary: cat2("max rounds, quality=", quality.as_str()),
                    shown: String::new(),
                }
            }
        },
        Err(e) => {
            let told = e.describe();
            Verdict {
                status: SubtaskStatus::Failed(cat2("auto error: ", told.as_str())),
                summary: told,
                shown: String::new(),
            }
        },
    }
}

proof fn lemma_marked_len(s: Seq<SubtaskView>, batch: Seq<usize>, n: int)
    requires
        0 <= n <= batch.len(),
        forall|q: int| 0 <= q < batch.len() ==> #[trigger] batch[q] < s.len(),
    ensures
        marked(s, batch, n).len() == s.len(),
    decreases n,
{
    if n > 0 {
        lemma_marked_len(s, batch, n - 1);
    }
}

/// Being in progress changes nothing else about a subtask.
proof fn lemma_marked_same(s: Seq<SubtaskView>, batch: Seq<usize>, n: int, i: int)
    requires
        0 <= n <= batch.len(),
        forall|q: int| 0 <= q < batch.len() ==> #[trigger] batch[q] < s.len(),
        0 <= i < s.len(),
    ensures
        marked(s, batch, n)[i].id == s[i].id,
        marked(s, batch, n)[i].description == s[i].description,
        marked(s, batch, n)[i].dependencies == s[i].dependencies,
    decreases n,
{
    if n > 0 {
        lemma_marked_len(s, batch, n - 1);
        lemma_marked_same(s, batch, n - 1, i);
    }
}

fn set_status(tasks: &mut Vec<Subtask>, i: usize, status: SubtaskStatus)
    requires
        i < old(tasks)@.len(),
    ensures
        subtask::task_views(final(tasks)@) == with_status(
            subtask::task_views(old(tasks)@),
            i as int,
            status@,
        ),
{
    let ghost before = subtask::task_views(tasks@);
    let t = Subtask {
        id: tasks[i].id,
        description: tasks[i].description.clone(),
        dependencies: subtask::copy_ids(&tasks[i].dependencies),
        status,
    };
    tasks.set(i, t);
    assert(subtask::task_views(tasks@) =~= with_status(before, i as int, status@));
}

impl AutoRunner {
    /// Begins a run through a task with a plan for it, and what is said of the plan. A
    /// plan without subtasks is an error.
    pub fn run(&self, prd: &str, plan: Vec<Subtask>) -> (r: Result<
        (AutoRun, StreamEvent),
        AutoError,
    >)
        ensures
            match r {
                Ok(p) => plan@.len() > 0 && p.0@ == (AutoView {
                    prd: prd@,
                    teams_parallel: self.teams_parallel,
                    max_parallel: self.max_parallel,
                    max_recompose_cycles: self.max_recompose_cycles,
                    tasks: subtask::task_views(plan@),
                    rounds: Seq::empty(),
                    window: if self.stall_rounds == 0 {
                        1
                    } else {
                        self.stall_rounds as nat
                    },
                    scores: Seq::empty(),
                    recompose_count: 0,
                    recompose_failures: 0,
                    stalled: false,
                }) && p.1@ == (EventView::Token {
                    content: plan_text(subtask::task_views(plan@), self.teams_parallel),
                }) && (self.max_parallel >= 1 ==> p.0@.wf()),
                Err(e) => plan@.len() == 0 && e is NoSubtasks,
            },
    {
        let n: usize = plan.len();
        if n == 0 {
            return Err(AutoError::NoSubtasks);
        }
        let ghost s = subtask::task_views(plan@);
        let mut lines: Vec<String> = Vec::new();
        assert(text::texts(lines@) =~= plan_lines(s).take(0));
        for i in 0..n
            invariant
                n == plan@.len(),
                s == subtask::task_views(plan@),
                text::texts(lines@) == plan_lines(s).take(i as int),
        {
            let line = cat3("- [ ] **#", decimal(plan[i].id as u64).as_str(), "** ").concat(
                plan[i].description.as_str(),
            );
            proof {
                text::lemma_texts_push(lines@, line);
                assert(line@ =~= plan_lines(s)[i as int]);
                assert(plan_lines(s).take(i + 1) =~= plan_lines(s).take(i as int).push(
                    plan_lines(s)[i as int],
                ));
            }
            lines.push(line);
        }
        assert(plan_lines(s).take(n as int) =~= plan_lines(s));
        let how: &str = if self.teams_parallel {
            " · **parallel auto**"
        } else {
            " · sequential auto"
        };
        let told = cat3("### Plan (", decimal(n as u64).as_str(), " subtasks)").concat(how).concat(
            "\n\n",
        ).concat(join(&lines, "\n").as_str()).concat("\n\n");
        let run = AutoRun {
            prd: prd.to_string(),
            teams_parallel: self.teams_parallel,
            max_parallel: self.max_parallel,
            max_recompose_cycles: self.max_recompose_cycles,
            subtasks: plan,
            all_rounds: Vec::new(),
            stall_detector: StallDetector::new(self.stall_rounds),
            recompose_count: 0,
            recompose_failures: 0,
            stalled: false,
        };
        assert(run@.rounds =~= Seq::empty());
        Ok((run, StreamEvent::Token { content: told }))
    }
}

impl AutoRun {
    /// The plan.
    pub fn subtasks(&self) -> (r: &Vec<Subtask>)
        ensures
            subtask::task_views(r@) == self@.tasks,
    {
        &self.subtasks
    }

    /// Starts the subtasks of the next wave. There are none where nothing is ready:
    /// then the run is over.
    pub fn next_wave(&mut self) -> (r: Wave)
        requires
            old(self)@.wf(),
        ensures
            final(self)@ == (AutoView {
                tasks: marked(old(self)@.tasks, batch_of(old(self)@), batch_of(old(self)@).len() as int),
                ..old(self)@
            }),
            job_views(r.jobs@) == batch_of(old(self)@).map_values(
                |i: usize| job_of(old(self)@, i as int),
            ),
            stream::event_views(r.events@) == wave_events_of(
                old(self)@,
                batch_of(old(self)@),
                batch_of(old(self)@).len() as int,
            ),
            final(self)@.wf(),
    {
        let ghost v = self@;
        let ghost s = v.tasks;
        let total: usize = self.subtasks.len();
        let ready = find_all_ready(&self.subtasks);
        let most: usize = if self.teams_parallel {
            self.max_parallel
        } else {
            1
        };
        let n: usize = if ready.len() <= most {
            ready.len()
        } else {
            most
        };
        let ghost batch = batch_of(v);
        proof {
            assert(ready@ == subtask::ready_among(s, s.len() as int));
            subtask::law_ready_list(s, total as int);
            assert(ready@.take(n as int) =~= batch);
            assert forall|q: int| 0 <= q < batch.len() implies #[trigger] batch[q] < s.len() by {
                assert(batch[q] == ready@[q]);
            }
        }
        let mut events: Vec<StreamEvent> = Vec::new();
        if self.teams_parallel && n > 1 {
            events.push(
                StreamEvent::Token {
                    content: cat3(
                        "\n---\n### Parallel wave — ",
                        decimal(n as u64).as_str(),
                        " auto spirals\n\n",
                    ),
                },
            );
        }
        assert(stream::event_views(events@) =~= wave_events_of(v, batch, 0));
        let mut jobs: Vec<Job> = Vec::new();
        let ghost all = batch.map_values(|i: usize| job_of(v, i as int));
        assert(job_views(jobs@) =~= all.take(0));
        for k in 0..n
            invariant
                n == batch.len() <= ready@.len(),
                batch == batch_of(v),
                s == v.tasks,
                all == batch.map_values(|i: usize| job_of(v, i as int)),
                forall|q: int| 0 <= q < n ==> #[trigger] ready@[q] == batch[q],
                forall|q: int| 0 <= q < batch.len() ==> #[trigger] batch[q] < s.len(),
                self@ == (AutoView { tasks: marked(s, batch, k as int), ..v }),
                stream::event_views(events@) == wave_events_of(v, batch, k as int),
                job_views(jobs@) == all.take(k as int),
        {
            let i: usize = ready[k];
            proof {
                assert(i == batch[k as int]);
                lemma_marked_len(s, batch, k as int);
                lemma_marked_same(s, batch, k as int, i as int);
                assert(self@.tasks[i as int] == self.subtasks@[i as int]@);
            }
            let id: usize = self.subtasks[i].id;
            let description = self.subtasks[i].description.clone();
            let agent_id = agent_id_for(self.teams_parallel, id);
            set_status(&mut self.subtasks, i, SubtaskStatus::InProgress);
            let job = Job {
                index: i,
                task_id: id,
                prd: cat3("Original PRD:\n", self.prd.as_str(), "\n\nSubtask:\n").concat(
                    description.as_str(),
                ),
                description,
                agent_id,
            };
            let ghost before = events@;
            events.push(
                StreamEvent::TeamAgentStart {
                    agent_id: job.agent_id.clone(),
                    task: job.description.clone(),
                },
            );
            let told = cat3("\n### Subtask #", decimal(id as u64).as_str(), ": ").concat(
                job.description.as_str(),
            ).concat("\n\nRunning auto spiral (review → execute → evaluate)…\n\n");
            events.push(StreamEvent::Token { content: told });
            proof {
                assert(job@ =~= all[k as int]);
                assert(stream::event_views(events@) =~= stream::event_views(before) + start_events(
                    job@,
                ));
                assert(job_views(jobs@.push(job)) =~= job_views(jobs@).push(job@));
                assert(all.take(k + 1) =~= all.take(k as int).push(all[k as int]));
            }
            jobs.push(job);
        }
        assert(all.take(n as int) =~= all);
        Wave { events, jobs }
    }

    /// Takes what came of the subtask at a place of the plan.
    pub fn apply_spiral_result(
        &mut self,
        index: usize,
        spiral: Result<Vec<MagiRound>, MagiError>,
    ) -> (r: Vec<StreamEvent>)
        requires
            old(self)@.wf(),
            index < old(self)@.tasks.len(),
        ensures
            final(self)@ == ended(old(self)@, index as int, spiral_end(spiral)),
            stream::event_views(r@) == end_events(
                old(self)@.teams_parallel,
                old(self)@.tasks[index as int].id,
                spiral_end(spiral),
            ),
            final(self)@.wf(),
    {
        let ghost v = self@;
        let ghost end = spiral_end(spiral);
        assert(self@.tasks[index as int] == self.subtasks@[index as int]@);
        let id: usize = self.subtasks[index].id;
        let verdict = judge(id, &spiral);
        let mut events: Vec<StreamEvent> = match &spiral {
            Ok(rounds) => tell_rounds(id, rounds),
            Err(_) => Vec::new(),
        };
        proof {
            if spiral is Err {
                assert(stream::event_views(events@) =~= Seq::empty());
            }
        }
        let success = verdict.status.is_done();
        let e = StreamEvent::TeamAgentEnd {
            agent_id: agent_id_for(self.teams_parallel, id),
            success,
            summary: verdict.summary,
        };
        proof {
            stream::lemma_event_views_push(events@, e);
        }
        events.push(e);
        if success {
            let shown = StreamEvent::Token { content: verdict.shown };
            proof {
                stream::lemma_event_views_push(events@, shown);
            }
            events.push(shown);
        }
        set_status(&mut self.subtasks, index, verdict.status);
        let rounds: Vec<MagiRound> = match spiral {
            Ok(rounds) => rounds,
            Err(MagiError::MaxRounds(_, rounds)) => rounds,
            Err(_) => Vec::new(),
        };
        assert(scheduler::round_views(rounds@) =~= rounds_of(end));
        let quality: u32 = quality_of(&rounds);
        assert(run_views(self.all_rounds@.push(rounds)) =~= run_views(self.all_rounds@).push(
            scheduler::round_views(rounds@),
        ));
        self.all_rounds.push(rounds);
        self.stall_detector.record(quality);
        assert(self@ =~= ended(v, index as int, end));
        events
    }

    /// Says what to do after a wave.
    pub fn after_wave(&mut self) -> (r: AutoStep)
        requires
            old(self)@.wf(),
        ensures
            (final(self)@, r@) == waved(old(self)@),
            final(self)@.wf(),
    {
        let ghost v = self@;
        if !self.stall_detector.is_stalled() {
            return AutoStep::Continue;
        }
        if self.recompose_count >= self.max_recompose_cycles {
            self.stalled = true;
            assert(self@ =~= waved(v).0);
            return AutoStep::Finish;
        }
        self.recompose_count = self.recompose_count + 1;
        let ghost s = v.tasks;
        let ghost left = unfinished(s, s.len() as int);
        let n: usize = self.subtasks.len();
        let mut found: Vec<String> = Vec::new();
        let mut lines: Vec<String> = Vec::new();
        assert(text::texts(found@) =~= unfinished(s, 0));
        assert(text::texts(lines@) =~= numbered_list(unfinished(s, 0)));
        for i in 0..n
            invariant
                n == self.subtasks@.len() == s.len(),
                s == subtask::task_views(self.subtasks@),
                text::texts(found@) == unfinished(s, i as int),
                text::texts(lines@) == numbered_list(unfinished(s, i as int)),
                found@.len() <= i,
        {
            let t = &self.subtasks[i];
            assert(t@ == s[i as int]);
            if t.status.is_pending() || t.status.is_failed() {
                let d = t.description.clone();
                let line = cat3(
                    decimal(found.len() as u64 + 1).as_str(),
                    ". ",
                    d.as_str(),
                );
                proof {
                    assert(found@.len() == unfinished(s, i as int).len());
                    text::lemma_texts_push(found@, d);
                    text::lemma_texts_push(lines@, line);
                    assert(numbered_list(unfinished(s, i + 1)) =~= numbered_list(
                        unfinished(s, i as int),
                    ).push(line@));
                }
                found.push(d);
                lines.push(line);
            }
        }
        assert(found@.len() == left.len());
        assert(self@ =~= waved(v).0);
        if found.len() == 0 {
            return AutoStep::Finish;
        }
        AutoStep::Recompose(
            cat3("Original PRD:\n", self.prd.as_str(), "\n\nRemaining unfinished work:\n").concat(
                join(&lines, "\n").as_str(),
            ),
        )
    }

    /// Takes a new plan for what is not done, with fresh ids.
    pub fn on_recomposed(&mut self, plan: Vec<Subtask>)
        requires
            old(self)@.wf(),
            greatest_id(done_tasks(old(self)@.tasks)) + plan@.len() <= usize::MAX,
            dependencies_fit(
                subtask::task_views(plan@),
                greatest_id(done_tasks(old(self)@.tasks)) as int,
            ),
        ensures
            final(self)@ == replanned(old(self)@, subtask::task_views(plan@)),
            final(self)@.wf(),
    {
        let ghost v = self@;
        let ghost s = v.tasks;
        let ghost p = |t: SubtaskView| t.status is Done;
        let n: usize = self.subtasks.len();
        let mut kept: Vec<Subtask> = Vec::new();
        let mut top: usize = 0;
        proof {
            reveal(Seq::filter);
            assert(subtask::task_views(kept@) =~= done_tasks(s.take(0)));
        }
        for i in 0..n
            invariant
                n == self.subtasks@.len() == s.len(),
                s == subtask::task_views(self.subtasks@),
                p == |t: SubtaskView| t.status is Done,
                subtask::task_views(kept@) == s.take(i as int).filter(p),
                top == greatest_id(s.take(i as int).filter(p)),
        {
            proof {
                text::lemma_filter_take(s, i as int, p);
                assert(self.subtasks@[i as int]@ == s[i as int]);
            }
            if self.subtasks[i].status.is_done() {
                let t = self.subtasks[i].clone();
                proof {
                    subtask::lemma_task_views_push(kept@, t);
                    let front = s.take(i as int).filter(p);
                    assert(front.push(s[i as int]).drop_last() =~= front);
                }
                if t.id > top {
                    top = t.id;
                }
                kept.push(t);
            }
        }
        assert(s.take(n as int) =~= s);
        let ghost fresh = subtask::task_views(plan@);
        let ghost done = done_tasks(s);
        let m: usize = plan.len();
        let mut k: usize = 0;
        assert(done + renumbered(fresh, top + 1).take(0) =~= done);
        for t in it: plan
            invariant
                it.seq() == plan@,
                m == plan@.len(),
                k == it.index(),
                fresh == subtask::task_views(plan@),
                top + m <= usize::MAX,
                dependencies_fit(fresh, top as int),
                subtask::task_views(kept@) == done + renumbered(fresh, top + 1).take(k as int),
        {
            let ghost all = renumbered(fresh, top + 1);
            let ghost before = kept@;
            proof {
                assert(t == plan@[k as int]);
                assert(fresh[k as int] == t@);
                assert forall|q: int| 0 <= q < t.dependencies@.len() implies top
                    + #[trigger] t.dependencies@[q] <= usize::MAX by {
                    assert(fresh[k as int].dependencies[q] == t.dependencies@[q]);
                }
            }
            let fresh_task = Subtask {
                id: top + 1 + k,
                description: t.description,
                dependencies: shift_ids(&t.dependencies, top),
                status: SubtaskStatus::Pending,
            };
            proof {
                subtask::lemma_task_views_push(kept@, fresh_task);
                assert(fresh_task.dependencies@ =~= fresh[k as int].dependencies.map_values(
                    |d: usize| (d + (top + 1) - 1) as usize,
                ));
                assert(fresh_task@ =~= all[k as int]);
                assert(all.take(k + 1) =~= all.take(k as int).push(all[k as int]));
            }
            kept.push(fresh_task);
            assert(subtask::task_views(kept@) =~= done + all.take(k + 1));
            k = k + 1;
        }
        assert(renumbered(fresh, top + 1).take(m as int) =~= renumbered(fresh, top + 1));
        self.subtasks = kept;
        self.stall_detector.reset();
        self.recompose_failures = 0;
        assert(self@ =~= replanned(v, fresh));
    }

    /// A new plan could not be had. The third time in a row ends the run.
    pub fn on_recompose_failed(&mut self, error: &str) -> (r: Result<(), AutoError>)
        requires
            old(self)@.wf(),
        ensures
            match r {
                Ok(_) => old(self)@.recompose_failures < 2 && final(self)@ == (AutoView {
                    recompose_failures: (old(self)@.recompose_failures + 1) as u32,
                    scores: Seq::empty(),
                    ..old(self)@
                }),
                Err(e) => old(self)@.recompose_failures == 2 && final(self)@ == old(self)@
                    && (e matches AutoError::Parse(msg) && msg@
                    == "Re-decomposition failed 3 times consecutively: "@ + error@),
            },
            final(self)@.wf(),
    {
        let ghost v = self@;
        if self.recompose_failures >= 2 {
            return Err(
                AutoError::Parse(cat2("Re-decomposition failed 3 times consecutively: ", error)),
            );
        }
        self.recompose_failures = self.recompose_failures + 1;
        self.stall_detector.reset();
        assert(self@.scores =~= Seq::empty());
        Ok(())
    }

    /// The sum of the last scores, and how many there are.
    pub fn average_quality(&self) -> (r: (u128, usize))
        ensures
            r.0 == quality_sum(self@.rounds, self@.rounds.len() as int),
            r.1 == quality_count(self@.rounds, self@.rounds.len() as int),
    {
        compute_average_quality(&self.all_rounds)
    }

    /// Ends the run, given its average quality as text.
    pub fn finish(self, average: &str) -> (r: (Vec<StreamEvent>, AutoRunResult))
        ensures
            stream::event_views(r.0@) == finish_events(self@, average@),
            subtask::task_views(r.1.subtasks@) == self@.tasks,
            run_views(r.1.rounds_per_subtask@) == self@.rounds,
            r.1.quality_sum == quality_sum(self@.rounds, self@.rounds.len() as int),
            r.1.quality_count == quality_count(self@.rounds, self@.rounds.len() as int),
            r.1.stalled == self@.stalled,
    {
        let ghost v = self@;
        let ghost s = v.tasks;
        let n: usize = self.subtasks.len();
        let mut done: usize = 0;
        let mut failed: usize = 0;
        for i in 0..n
            invariant
                n == self.subtasks@.len() == s.len(),
                s == subtask::task_views(self.subtasks@),
                done == count_done(s, i as int),
                failed == count_failed(s, i as int),
                done <= i,
                failed <= i,
        {
            assert(self.subtasks@[i as int]@ == s[i as int]);
            if self.subtasks[i].status.is_done() {
                done = done + 1;
            }
            if self.subtasks[i].status.is_failed() {
                failed = failed + 1;
            }
        }
        let (quality_sum, quality_count) = compute_average_quality(&self.all_rounds);
        let mut events: Vec<StreamEvent> = Vec::new();
        events.push(StreamEvent::TeamComplete { completed: done, failed });
        let told = cat3(
            "\n---\n### /auto complete\n\n- Done: ",
            decimal(done as u64).as_str(),
            "\n- Failed: ",
        ).concat(decimal(failed as u64).as_str()).concat("\n- Avg quality: ").concat(
            average,
        ).concat("/100\n- Stalled: ").concat(bool_word(self.stalled)).concat("\n\n");
        events.push(StreamEvent::Token { content: told });
        assert(stream::event_views(events@) =~= finish_events(v, average@));
        (
            events,
            AutoRunResult {
                subtasks: self.subtasks,
                rounds_per_subtask: self.all_rounds,
                quality_sum,
                quality_count,
                stalled: self.stalled,
            },
        )
    }
}

// ── Laws ────────────────────────────────────────────────────────────────────

/// A wave holds only subtasks that are pending and whose dependencies are done,
/// each once, and no more than may run side by side; it is empty only where
/// nothing is ready.
pub proof fn law_wave_is_ready(v: AutoView)
    requires
        v.wf(),
        v.tasks.len() <= usize::MAX,
    ensures
        forall|k: int|
            0 <= k < batch_of(v).len() ==> 0 <= #[trigger] batch_of(v)[k] < v.tasks.len()
                && subtask::is_ready(v.tasks, batch_of(v)[k] as int),
        forall|a: int, b: int|
            0 <= a < b < batch_of(v).len() ==> #[trigger] batch_of(v)[a] < #[trigger] batch_of(v)[b],
        batch_of(v).len() <= (if v.teams_parallel {
            v.max_parallel as int
        } else {
            1
        }),
        batch_of(v).len() == 0 ==> forall|i: int|
            0 <= i < v.tasks.len() ==> !#[trigger] subtask::is_ready(v.tasks, i),
{
    let ready = subtask::ready_among(v.tasks, v.tasks.len() as int);
    subtask::law_ready_list(v.tasks, v.tasks.len() as int);
    assert forall|k: int| 0 <= k < batch_of(v).len() implies 0 <= #[trigger] batch_of(v)[k]
        < v.tasks.len() && subtask::is_ready(v.tasks, batch_of(v)[k] as int) by {
        assert(batch_of(v)[k] == ready[k]);
    }
    assert forall|a: int, b: int| 0 <= a < b < batch_of(v).len() implies #[trigger] batch_of(v)[a]
        < #[trigger] batch_of(v)[b] by {
        assert(batch_of(v)[a] == ready[a] && batch_of(v)[b] == ready[b]);
    }
    if batch_of(v).len() == 0 {
        assert(ready.len() == 0);
        assert forall|i: int| 0 <= i < v.tasks.len() implies !#[trigger] subtask::is_ready(
            v.tasks,
            i,
        ) by {
            if subtask::is_ready(v.tasks, i) {
                assert(ready.contains(i as usize));
            }
        }
    }
}

/// A subtask is done only with evidence: its last round stopped the work or has a
/// score of at least 70, or its rounds were used up with at least 60. A spiral that
/// broke never makes it done.
pub proof fn law_done_needs_evidence(v: AutoView, i: int, end: SpiralEnd)
    requires
        0 <= i < v.tasks.len(),
        ended(v, i, end).tasks[i].status is Done,
    ensures
        end is Done ==> last_stops(rounds_of(end)) || last_quality(rounds_of(end)) >= 70,
        end matches SpiralEnd::Failed(e) ==> e is MaxRounds && last_quality(rounds_of(end)) >= 60,
{
}

/// The spiral of one subtask changes no other subtask.
pub proof fn law_one_subtask_at_a_time(v: AutoView, i: int, end: SpiralEnd, j: int)
    requires
        0 <= i < v.tasks.len(),
        0 <= j < v.tasks.len(),
        i != j,
    ensures
        ended(v, i, end).tasks[j] == v.tasks[j],
        ended(v, i, end).tasks.len() == v.tasks.len(),
{
}

proof fn lemma_greatest(s: Seq<SubtaskView>)
    ensures
        forall|i: int| 0 <= i < s.len() ==> (#[trigger] s[i]).id <= greatest_id(s),
    decreases s.len(),
{
    if s.len() > 0 {
        lemma_greatest(s.drop_last());
        assert forall|i: int| 0 <= i < s.len() implies (#[trigger] s[i]).id <= greatest_id(s) by {
            if i < s.len() - 1 {
                assert(s.drop_last()[i] == s[i]);
            }
        }
    }
}

proof fn lemma_filter_unique(s: Seq<SubtaskView>, p: spec_fn(SubtaskView) -> bool)
    requires
        subtask::ids_are_unique(s),
    ensures
        subtask::ids_are_unique(s.filter(p)),
        forall|i: int|
            #![trigger s.filter(p)[i]]
            0 <= i < s.filter(p).len() ==> s.contains(s.filter(p)[i]) && p(s.filter(p)[i]),
    decreases s.len(),
{
    reveal(Seq::filter);
    if s.len() > 0 {
        let front = s.drop_last();
        assert(subtask::ids_are_unique(front)) by {
            assert forall|i: int, j: int| 0 <= i < j < front.len() implies (#[trigger] front[i]).id
                != (#[trigger] front[j]).id by {
                assert(front[i] == s[i] && front[j] == s[j]);
            }
        }
        lemma_filter_unique(front, p);
        let kept = front.filter(p);
        let all = s.filter(p);
        assert forall|i: int| #![trigger all[i]] 0 <= i < all.len() implies s.contains(all[i]) && p(
            all[i],
        ) by {
            if i < kept.len() {
                assert(all[i] == kept[i]);
                let k = choose|k: int| 0 <= k < front.len() && front[k] == kept[i];
                assert(s[k] == all[i]);
            } else {
                assert(all[i] == s.last());
                assert(s[s.len() - 1] == all[i]);
            }
        }
        assert forall|i: int, j: int| 0 <= i < j < all.len() implies (#[trigger] all[i]).id != (
        #[trigger] all[j]).id by {
            assert(all[i] == kept[i]);
            if j < kept.len() {
                assert(all[j] == kept[j]);
            } else {
                let k = choose|k: int| 0 <= k < front.len() && front[k] == kept[i];
                assert(s[k].id != s[s.len() - 1].id);
            }
        }
    }
}

/// A new plan keeps what is done and nothing else of the old one, and gives the
/// new subtasks ids that no subtask has: ids that were unique stay unique.
pub proof fn law_replanned_ids_are_unique(v: AutoView, plan: Seq<SubtaskView>)
    requires
        subtask::ids_are_unique(v.tasks),
        greatest_id(done_tasks(v.tasks)) + plan.len() <= usize::MAX,
    ensures
        subtask::ids_are_unique(replanned(v, plan).tasks),
        forall|i: int|
            0 <= i < replanned(v, plan).tasks.len() ==> (#[trigger] replanned(
                v,
                plan,
            ).tasks[i]).status is Done || replanned(v, plan).tasks[i].status is Pending,
        replanned(v, plan).tasks.take(done_tasks(v.tasks).len() as int) == done_tasks(v.tasks),
{
    let p = |t: SubtaskView| t.status is Done;
    let done = done_tasks(v.tasks);
    let tasks = replanned(v, plan).tasks;
    let top = greatest_id(done);
    lemma_filter_unique(v.tasks, p);
    lemma_greatest(done);
    assert(tasks.take(done.len() as int) =~= done);
    assert forall|i: int| 0 <= i < tasks.len() implies (#[trigger] tasks[i]).status is Done
        || tasks[i].status is Pending by {
        if i < done.len() {
            assert(tasks[i] == done[i]);
        }
    }
    assert forall|i: int, j: int| 0 <= i < j < tasks.len() implies (#[trigger] tasks[i]).id != (
    #[trigger] tasks[j]).id by {
        if j < done.len() {
            assert(tasks[i] == done[i] && tasks[j] == done[j]);
        } else if i < done.len() {
            assert(tasks[i] == done[i]);
            assert(tasks[j].id == top + 1 + (j - done.len()));
        } else {
            assert(tasks[i].id == top + 1 + (i - done.len()));
            assert(tasks[j].id == top + 1 + (j - done.len()));
        }
    }
}

/// After a new plan each new subtask waits on new subtasks only: on those that the
/// plan names, and never on one that was kept.
pub proof fn law_new_subtasks_wait_on_new_subtasks(
    v: AutoView,
    plan: Seq<SubtaskView>,
    i: int,
    k: int,
)
    requires
        greatest_id(done_tasks(v.tasks)) + plan.len() <= usize::MAX,
        0 <= i < plan.len(),
        0 <= k < plan[i].dependencies.len(),
        1 <= plan[i].dependencies[k] <= plan.len(),
    ensures
        ({
            let tasks = replanned(v, plan).tasks;
            let kept = done_tasks(v.tasks).len() as int;
            let new = tasks[kept + i];
            &&& tasks.len() == kept + plan.len()
            &&& new.id == greatest_id(done_tasks(v.tasks)) + 1 + i
            &&& new.description == plan[i].description
            &&& new.dependencies.len() == plan[i].dependencies.len()
            &&& new.dependencies[k] == tasks[kept + plan[i].dependencies[k] - 1].id
            &&& forall|j: int| 0 <= j < kept ==> (#[trigger] tasks[j]).id != new.dependencies[k]
        }),
{
    let done = done_tasks(v.tasks);
    let tasks = replanned(v, plan).tasks;
    lemma_greatest(done);
    assert forall|j: int| 0 <= j < done.len() implies (#[trigger] tasks[j]).id != tasks[done.len()
        + i].dependencies[k] by {
        assert(tasks[j] == done[j]);
    }
}

/// A new plan is asked for no more often than allowed: each time is counted, and
/// where the count is used up a stall ends the run and is reported.
pub proof fn law_replanning_is_bounded(v: AutoView)
    requires
        v.wf(),
    ensures
        waved(v).1 is Recompose ==> waved(v).0.recompose_count == v.recompose_count + 1
            <= v.max_recompose_cycles,
        is_stalled(v) && v.recompose_count == v.max_recompose_cycles ==> waved(v).1 is Finish
            && waved(v).0.stalled,
{
}

/// A subtask is done exactly where its spiral ended with a stop or a score of at least
/// 70, or used up its rounds with a score of at least 60, by the last round; otherwise it
/// failed. What the spiral gave is recorded, and its score counts as the newest.
pub proof fn law_spiral_decides_the_subtask(v: AutoView, i: int, end: SpiralEnd)
    requires
        v.wf(),
        0 <= i < v.tasks.len(),
    ensures
        ({
            let now = ended(v, i, end);
            let rounds = rounds_of(end);
            let quality = if rounds.len() > 0 {
                rounds.last().promotion.quality_score as int
            } else {
                0
            };
            let good = match end {
                SpiralEnd::Done(r) => r.len() > 0 && (r.last().promotion.should_stop
                    || r.last().promotion.quality_score >= 70),
                SpiralEnd::Failed(MagiErrorView::MaxRounds(_, r)) => r.len() > 0
                    && r.last().promotion.quality_score >= 60,
                SpiralEnd::Failed(_) => false,
            };
            &&& good ==> now.tasks[i].status is Done
            &&& !good ==> now.tasks[i].status is Failed
            &&& now.tasks[i].id == v.tasks[i].id
            &&& now.tasks[i].description == v.tasks[i].description
            &&& now.tasks[i].dependencies == v.tasks[i].dependencies
            &&& now.rounds.drop_last() == v.rounds
            &&& now.rounds.last() == rounds
            &&& end matches SpiralEnd::Done(r) ==> rounds == r
            &&& now.scores.last() == quality
            &&& now.prd == v.prd
        }),
{
    let now = ended(v, i, end);
    assert(now.rounds.drop_last() =~= v.rounds);
    stall::law_newest_scores_count(v.scores, last_quality(rounds_of(end)), v.window as nat);
}

/// A job carries the whole task and its own part of it: the task behind the first
/// heading, the description of its subtask behind the second, at the end.
#[verifier::rlimit(40)]
pub proof fn law_job_carries_the_task(v: AutoView, i: int)
    requires
        0 <= i < v.tasks.len(),
        v.tasks.len() <= usize::MAX,
    ensures
        ({
            let j = job_of(v, i);
            &&& j.index == i
            &&& j.task_id == v.tasks[i].id
            &&& j.description == v.tasks[i].description
            &&& text::starts(j.prd, "Original PRD:\n"@ + v.prd)
            &&& text::ends(j.prd, "Subtask:\n"@ + v.tasks[i].description)
            &&& text::ends(j.agent_id, text::dec(v.tasks[i].id as nat))
        }),
{
    let j = job_of(v, i);
    let none = Seq::<char>::empty();
    let a = "Original PRD:\n"@ + v.prd;
    let b = "Subtask:\n"@ + v.tasks[i].description;
    let nl = "\n\n"@;
    assert("\n\nSubtask:\n"@ =~= nl + "Subtask:\n"@) by {
        reveal_strlit("\n\n");
        reveal_strlit("\n\nSubtask:\n");
        reveal_strlit("Subtask:\n");
    }
    assert(j.prd =~= a + nl + b);
    text::lemma_part_at(none, a, nl + b);
    assert(none + a + (nl + b) =~= j.prd);
    text::lemma_part_at(a + nl, b, none);
    assert(a + nl + b + none =~= j.prd);
    let head = if v.teams_parallel {
        "at-"@
    } else {
        "subtask-"@
    };
    text::lemma_part_at(head, text::dec(v.tasks[i].id as nat), none);
    assert(head + text::dec(v.tasks[i].id as nat) + none =~= j.agent_id);
}

proof fn lemma_unfinished_has(s: Seq<SubtaskView>, n: int, i: int)
    requires
        0 <= i < n <= s.len(),
        is_unfinished(s[i]),
    ensures
        unfinished(s, n).contains(s[i].description),
    decreases n,
{
    let all = unfinished(s, n);
    if i == n - 1 {
        assert(all[all.len() - 1] == s[i].description);
    } else {
        lemma_unfinished_has(s, n - 1, i);
        let front = unfinished(s, n - 1);
        let k = choose|k: int| 0 <= k < front.len() && front[k] == s[i].description;
        assert(all[k] == s[i].description);
    }
}

#[verifier::rlimit(40)]
proof fn lemma_unfinished_is_listed(s: Seq<SubtaskView>, i: int)
    requires
        0 <= i < s.len(),
        is_unfinished(s[i]),
    ensures
        text::has_part(
            text::joined(numbered_list(unfinished(s, s.len() as int)), "\n"@),
            ". "@ + s[i].description,
        ),
{
    let left = unfinished(s, s.len() as int);
    let list = numbered_list(left);
    lemma_unfinished_has(s, s.len() as int, i);
    let k = choose|k: int| 0 <= k < left.len() && left[k] == s[i].description;
    lemma_item_holds(text::dec((k + 1) as nat), left[k]);
    assert(list[k] == text::dec((k + 1) as nat) + ". "@ + left[k]);
    text::lemma_joined_has(list, "\n"@, k);
    text::lemma_part_chain(text::joined(list, "\n"@), list[k], ". "@ + s[i].description);
}

proof fn lemma_item_holds(n: Seq<char>, d: Seq<char>)
    ensures
        text::has_part(n + ". "@ + d, ". "@ + d),
{
    text::lemma_three_parts(n, ". "@, d);
}

/// What is planned anew is the task with everything that is left of it: the whole task
/// at the start, and the description of every subtask that has not begun or has failed.
#[verifier::rlimit(40)]
pub proof fn law_remaining_work_is_whole(v: AutoView, i: int)
    requires
        0 <= i < v.tasks.len(),
    ensures
        text::starts(remaining_prd(v), "Original PRD:\n"@ + v.prd),
        v.tasks[i].status is Pending || v.tasks[i].status is Failed ==> text::has_part(
            remaining_prd(v),
            ". "@ + v.tasks[i].description,
        ),
{
    let none = Seq::<char>::empty();
    let a = "Original PRD:\n"@ + v.prd;
    let h = "\n\nRemaining unfinished work:\n"@;
    let z = text::joined(
        numbered_list(unfinished(v.tasks, v.tasks.len() as int)),
        "\n"@,
    );
    assert(text::starts(remaining_prd(v), a)) by {
        text::lemma_part_at(none, a, h + z);
        assert(none + a + (h + z) =~= remaining_prd(v));
    }
    if is_unfinished(v.tasks[i]) {
        lemma_unfinished_is_listed(v.tasks, i);
        text::lemma_part_of_part(a + h, z, none, ". "@ + v.tasks[i].description);
        assert(a + h + z + none =~= remaining_prd(v));
    }
}

proof fn lemma_marked(s: Seq<SubtaskView>, batch: Seq<usize>, n: int)
    requires
        0 <= n <= batch.len(),
        forall|k: int| 0 <= k < batch.len() ==> 0 <= #[trigger] batch[k] < s.len(),
    ensures
        marked(s, batch, n).len() == s.len(),
        forall|i: int|
            0 <= i < s.len() && batch.take(n).contains(i as usize) && i <= usize::MAX
                ==> #[trigger] marked(s, batch, n)[i] == (SubtaskView {
                status: StatusView::InProgress,
                ..s[i]
            }),
        forall|i: int|
            0 <= i < s.len() && !batch.take(n).contains(i as usize) && i <= usize::MAX
                ==> #[trigger] marked(s, batch, n)[i] == s[i],
    decreases n,
{
    if n > 0 {
        lemma_marked(s, batch, n - 1);
        let b = batch[n - 1];
        assert(0 <= b < s.len());
        let front = batch.take(n - 1);
        let all = batch.take(n);
        assert(all =~= front.push(b));
        assert(all[n - 1] == b);
        assert forall|i: int| 0 <= i <= usize::MAX && i != b implies (#[trigger] front.contains(
            i as usize,
        ) <==> all.contains(i as usize)) by {
            if front.contains(i as usize) {
                let k = choose|k: int| 0 <= k < front.len() && front[k] == i as usize;
                assert(all[k] == i as usize);
            }
            if all.contains(i as usize) {
                let k = choose|k: int| 0 <= k < all.len() && all[k] == i as usize;
                assert(front[k] == i as usize);
            }
        }
    }
}

/// A wave starts the subtasks of its batch and touches no other; and it leaves none out
/// that is ready, unless as many are started as may run at once.
pub proof fn law_wave_starts_its_batch(v: AutoView, i: int)
    requires
        v.wf(),
        v.tasks.len() <= usize::MAX,
        0 <= i < v.tasks.len(),
    ensures
        ({
            let batch = batch_of(v);
            let now = marked(v.tasks, batch, batch.len() as int);
            let most = if v.teams_parallel {
                v.max_parallel as int
            } else {
                1
            };
            &&& now.len() == v.tasks.len()
            &&& batch.contains(i as usize) ==> now[i] == (SubtaskView {
                status: StatusView::InProgress,
                ..v.tasks[i]
            })
            &&& !batch.contains(i as usize) ==> now[i] == v.tasks[i]
            &&& subtask::is_ready(v.tasks, i) && batch.len() < most ==> batch.contains(i as usize)
        }),
{
    let batch = batch_of(v);
    law_wave_is_ready(v);
    subtask::law_ready_list(v.tasks, v.tasks.len() as int);
    lemma_marked(v.tasks, batch, batch.len() as int);
    assert(batch.take(batch.len() as int) =~= batch);
}

/// A run goes on as long as it does not stall; where it does, what is left is planned
/// anew, and where nothing is left it ends.
pub proof fn law_stall_is_answered(v: AutoView)
    requires
        v.wf(),
    ensures
        !is_stalled(v) ==> waved(v) == (v, AutoStepView::Continue),
        is_stalled(v) ==> waved(v).0.tasks == v.tasks && !(waved(v).1 is Continue),
        waved(v).1 matches AutoStepView::Recompose(prd) ==> prd == remaining_prd(v) && exists|i: int|
            0 <= i < v.tasks.len() && is_unfinished(#[trigger] v.tasks[i]),
        v.scores.len() < v.window ==> !is_stalled(v),
        forall|i: int|
            0 <= i < v.scores.len() && #[trigger] v.scores[i] >= stall::MIN_QUALITY ==> !is_stalled(v),
{
    lemma_unfinished_is_some(v.tasks, v.tasks.len() as int);
}

proof fn lemma_unfinished_is_some(s: Seq<SubtaskView>, n: int)
    requires
        0 <= n <= s.len(),
    ensures
        unfinished(s, n).len() > 0 ==> exists|i: int| 0 <= i < n && is_unfinished(#[trigger] s[i]),
    decreases n,
{
    if n > 0 {
        lemma_unfinished_is_some(s, n - 1);
        if is_unfinished(s[n - 1]) {
        } else if unfinished(s, n - 1).len() > 0 {
            let i = choose|i: int| 0 <= i < n - 1 && is_unfinished(#[trigger] s[i]);
            assert(is_unfinished(s[i]));
        }
    }
}

proof fn lemma_counts(s: Seq<SubtaskView>, n: int)
    requires
        0 <= n <= s.len(),
    ensures
        count_done(s, n) == s.take(n).filter(|t: SubtaskView| t.status is Done).len(),
        count_failed(s, n) == s.take(n).filter(|t: SubtaskView| t.status is Failed).len(),
    decreases n,
{
    reveal(Seq::filter);
    if n > 0 {
        lemma_counts(s, n - 1);
        assert(s.take(n).drop_last() =~= s.take(n - 1));
        assert(s.take(n).last() == s[n - 1]);
    } else {
        assert(s.take(0) =~= Seq::<SubtaskView>::empty());
    }
}

/// What is said at the end counts the subtasks that are done and those that failed.
pub proof fn law_end_counts_the_subtasks(v: AutoView, average: Seq<char>)
    requires
        v.tasks.len() <= usize::MAX,
    ensures
        finish_events(v, average)[0] == (EventView::TeamComplete {
            completed: v.tasks.filter(|t: SubtaskView| t.status is Done).len() as usize,
            failed: v.tasks.filter(|t: SubtaskView| t.status is Failed).len() as usize,
        }),
{
    lemma_counts(v.tasks, v.tasks.len() as int);
    assert(v.tasks.take(v.tasks.len() as int) =~= v.tasks);
}

/// The average is over the runs that have rounds, by their last scores: a run without
/// rounds makes no difference, and one with rounds adds its last score once.
pub proof fn law_average_is_over_runs_with_rounds(s: Seq<Seq<RoundView>>, run: Seq<RoundView>)
    ensures
        ({
            let more = s.push(run);
            let n = s.len() as int;
            &&& run.len() == 0 ==> quality_sum(more, n + 1) == quality_sum(s, n) && quality_count(
                more,
                n + 1,
            ) == quality_count(s, n)
            &&& run.len() > 0 ==> quality_sum(more, n + 1) == quality_sum(s, n)
                + run.last().promotion.quality_score && quality_count(more, n + 1) == quality_count(
                s,
                n,
            ) + 1
            &&& quality_sum(Seq::<Seq<RoundView>>::empty(), 0) == 0
        }),
{
    lemma_quality_front(s, s.push(run), s.len() as int);
}

proof fn lemma_quality_front(s: Seq<Seq<RoundView>>, t: Seq<Seq<RoundView>>, n: int)
    requires
        0 <= n <= s.len() <= t.len(),
        forall|i: int| 0 <= i < s.len() ==> #[trigger] t[i] == s[i],
    ensures
        quality_sum(t, n) == quality_sum(s, n),
        quality_count(t, n) == quality_count(s, n),
    decreases n,
{
    if n > 0 {
        lemma_quality_front(s, t, n - 1);
        assert(t[n - 1] == s[n - 1]);
    }
}

} // verus!
