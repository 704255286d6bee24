//! Subtasks and what may be worked on next.

use vstd::prelude::*;

verus! {

/// How a subtask stands.
#[derive(Debug, PartialEq, Eq)]
pub enum SubtaskStatus {
    /// Not yet started.
    Pending,
    /// Being worked on.
    InProgress,
    /// Completed.
    Done,
    /// Failed, with the reason.
    Failed(String),
}

/// How a subtask stands, as a value.
pub enum StatusView {
    Pending,
    InProgress,
    Done,
    Failed(Seq<char>),
}

impl View for SubtaskStatus {
    type V = StatusView;

    open spec fn view(&self) -> StatusView {
        match self {
            SubtaskStatus::Pending => StatusView::Pending,
            SubtaskStatus::InProgress => StatusView::InProgress,
            SubtaskStatus::Done => StatusView::Done,
            SubtaskStatus::Failed(s) => StatusView::Failed(s@),
        }
    }
}

impl Clone for SubtaskStatus {
    fn clone(&self) -> (r: Self)
        ensures
            r@ == self@,
    {
        match self {
            SubtaskStatus::Pending => SubtaskStatus::Pending,
            SubtaskStatus::InProgress => SubtaskStatus::InProgress,
            SubtaskStatus::Done => SubtaskStatus::Done,
            SubtaskStatus::Failed(s) => SubtaskStatus::Failed(s.clone()),
        }
    }
}

impl SubtaskStatus {
    /// Whether the subtask has not been started.
    pub fn is_pending(&self) -> (b: bool)
        ensures
            b == (self@ is Pending),
    {
        match self {
            SubtaskStatus::Pending => true,
            _ => false,
        }
    }

    /// Whether the subtask is completed.
    pub fn is_done(&self) -> (b: bool)
        ensures
            b == (self@ is Done),
    {
        match self {
            SubtaskStatus::Done => true,
            _ => false,
        }
    }

    /// Whether the subtask has failed.
    pub fn is_failed(&self) -> (b: bool)
        ensures
            b == (self@ is Failed),
    {
        match self {
            SubtaskStatus::Failed(_) => true,
            _ => false,
        }
    }
}

/// One subtask of a plan.
#[derive(Debug, PartialEq, Eq)]
pub struct Subtask {
    /// Unique within the plan.
    pub id: usize,
    pub description: String,
    /// The ids of the subtasks that must be done first.
    pub dependencies: Vec<usize>,
    pub status: SubtaskStatus,
}

/// A subtask as a value.
#[verifier::ext_equal]
pub struct SubtaskView {
    pub id: usize,
    pub description: Seq<char>,
    pub dependencies: Seq<usize>,
    pub status: StatusView,
}

impl View for Subtask {
    type V = SubtaskView;

    open spec fn view(&self) -> SubtaskView {
        SubtaskView {
            id: self.id,
            description: self.description@,
            dependencies: self.dependencies@,
            status: self.status@,
        }
    }
}

/// A copy of a list of ids.
pub fn copy_ids(v: &Vec<usize>) -> (r: Vec<usize>)
    ensures
        r@ == v@,
{
    let mut r: Vec<usize> = Vec::new();
    let n: usize = v.len();
    for i in 0..n
        invariant
            n == v@.len(),
            r@ == v@.take(i as int),
    {
        r.push(v[i]);
        assert(v@.take(i + 1) =~= v@.take(i as int).push(v@[i as int]));
    }
    assert(v@.take(n as int) =~= v@);
    r
}

impl Clone for Subtask {
    fn clone(&self) -> (r: Self)
        ensures
            r@ == self@,
    {
        Subtask {
            id: self.id,
            description: self.description.clone(),
            dependencies: copy_ids(&self.dependencies),
            status: self.status.clone(),
        }
    }
}

/// The values of a plan.
pub open spec fn task_views(v: Seq<Subtask>) -> Seq<SubtaskView> {
    v.map_values(|t: Subtask| t@)
}

/// Adding one subtask adds one value.
pub broadcast proof fn lemma_task_views_push(v: Seq<Subtask>, t: Subtask)
    ensures
        #[trigger] task_views(v.push(t)) == task_views(v).push(t@),
{
    assert(task_views(v.push(t)) =~= task_views(v).push(t@));
}

// ── What is ready ───────────────────────────────────────────────────────────

/// The first subtask with the id, or -1.
pub open spec fn position_of(s: Seq<SubtaskView>, id: usize, k: int) -> int
    decreases s.len() - k,
{
    if k < 0 || k >= s.len() {
        -1
    } else if s[k].id == id {
        k
    } else {
        position_of(s, id, k + 1)
    }
}

/// Whether the subtask with the id is done.
pub open spec fn is_done_id(s: Seq<SubtaskView>, id: usize) -> bool {
    let p = position_of(s, id, 0);
    0 <= p < s.len() && s[p].status is Done
}

/// Whether subtask `i` may be started: it is pending, and all that it depends
/// on is done.
pub open spec fn is_ready(s: Seq<SubtaskView>, i: int) -> bool {
    &&& s[i].status is Pending
    &&& forall|k: int|
        0 <= k < s[i].dependencies.len() ==> is_done_id(s, #[trigger] s[i].dependencies[k])
}

/// The subtasks among the first `n` that may be started.
pub open spec fn ready_among(s: Seq<SubtaskView>, n: int) -> Seq<usize>
    decreases n,
{
    if n <= 0 {
        Seq::empty()
    } else if is_ready(s, n - 1) {
        ready_among(s, n - 1).push((n - 1) as usize)
    } else {
        ready_among(s, n - 1)
    }
}

fn id_is_done(subtasks: &Vec<Subtask>, id: usize) -> (b: bool)
    ensures
        b == is_done_id(task_views(subtasks@), id),
{
    let ghost s = task_views(subtasks@);
    let n: usize = subtasks.len();
    let mut i: usize = 0;
    while i < n
        invariant
            i <= n == subtasks@.len(),
            s == task_views(subtasks@),
            position_of(s, id, 0) == position_of(s, id, i as int),
        decreases n - i,
    {
        if subtasks[i].id == id {
            return subtasks[i].status.is_done();
        }
        i = i + 1;
    }
    false
}

fn subtask_is_ready(subtasks: &Vec<Subtask>, i: usize) -> (b: bool)
    requires
        i < subtasks@.len(),
    ensures
        b == is_ready(task_views(subtasks@), i as int),
{
    let ghost s = task_views(subtasks@);
    if !subtasks[i].status.is_pending() {
        return false;
    }
    let n: usize = subtasks[i].dependencies.len();
    for k in 0..n
        invariant
            i < subtasks@.len(),
            s == task_views(subtasks@),
            n == s[i as int].dependencies.len(),
            forall|q: int| 0 <= q < k ==> is_done_id(s, #[trigger] s[i as int].dependencies[q]),
    {
        if !id_is_done(subtasks, subtasks[i].dependencies[k]) {
            assert(!is_done_id(s, s[i as int].dependencies[k as int]));
            return false;
        }
    }
    true
}

/// All subtasks that may be started, in order.
pub fn find_all_ready(subtasks: &Vec<Subtask>) -> (r: Vec<usize>)
    ensures
        r@ == ready_among(task_views(subtasks@), subtasks@.len() as int),
{
    let ghost s = task_views(subtasks@);
    let n: usize = subtasks.len();
    let mut r: Vec<usize> = Vec::new();
    assert(r@ =~= ready_among(s, 0));
    for i in 0..n
        invariant
            n == subtasks@.len(),
            s == task_views(subtasks@),
            r@ == ready_among(s, i as int),
    {
        if subtask_is_ready(subtasks, i) {
            r.push(i);
        }
    }
    r
}

/// The first subtask that may be started.
pub fn find_next_ready(subtasks: &Vec<Subtask>) -> (r: Option<usize>)
    ensures
        match r {
            Some(i) => i < subtasks@.len() && is_ready(task_views(subtasks@), i as int) && forall|
                k: int,
            |
                0 <= k < i ==> !is_ready(task_views(subtasks@), k),
            None => forall|k: int|
                0 <= k < subtasks@.len() ==> !is_ready(task_views(subtasks@), k),
        },
{
    let n: usize = subtasks.len();
    for i in 0..n
        invariant
            n == subtasks@.len(),
            forall|k: int| 0 <= k < i ==> !is_ready(task_views(subtasks@), k),
    {
        if subtask_is_ready(subtasks, i) {
            return Some(i);
        }
    }
    None
}

/// What is listed as ready is exactly what may be started, in order and each
/// once.
pub proof fn law_ready_list(s: Seq<SubtaskView>, n: int)
    requires
        0 <= n <= s.len(),
        n <= usize::MAX,
    ensures
        forall|k: int|
            0 <= k < ready_among(s, n).len() ==> 0 <= #[trigger] ready_among(s, n)[k] < n && is_ready(
                s,
                ready_among(s, n)[k] as int,
            ),
        forall|i: int|
            #![trigger is_ready(s, i)]
            0 <= i < n && is_ready(s, i) ==> ready_among(s, n).contains(i as usize),
        forall|a: int, b: int|
            0 <= a < b < ready_among(s, n).len() ==> #[trigger] ready_among(s, n)[a]
                < #[trigger] ready_among(s, n)[b],
    decreases n,
{
    if n > 0 {
        law_ready_list(s, n - 1);
        let front = ready_among(s, n - 1);
        let all = ready_among(s, n);
        assert forall|i: int|
            #![trigger is_ready(s, i)]
            0 <= i < n && is_ready(s, i) implies all.contains(i as usize) by {
            if i < n - 1 {
                let k = choose|k: int| 0 <= k < front.len() && front[k] == i as usize;
                assert(all[k] == i as usize);
            } else {
                assert(all[all.len() - 1] == i as usize);
            }
        }
    }
}

// ── Plans that can be worked off ────────────────────────────────────────────

/// Whether every id occurs once.
pub open spec fn ids_are_unique(s: Seq<SubtaskView>) -> bool {
    forall|i: int, j: int| 0 <= i < j < s.len() ==> (#[trigger] s[i]).id != (#[trigger] s[j]).id
}

/// Whether the ranks put subtask `i` behind all that it depends on.
pub open spec fn ranked(s: Seq<SubtaskView>, rank: Seq<nat>, i: int) -> bool {
    forall|k: int|
        0 <= k < s[i].dependencies.len() ==> ranked_behind(
            s,
            rank,
            i,
            #[trigger] s[i].dependencies[k],
        )
}

/// Whether some subtask with the id has a lower rank than subtask `i`.
pub open spec fn ranked_behind(s: Seq<SubtaskView>, rank: Seq<nat>, i: int, id: usize) -> bool {
    exists|j: int| 0 <= j < s.len() && (#[trigger] s[j]).id == id && rank[j] < rank[i]
}

/// Whether the ranks put every subtask behind all that it depends on.
pub open spec fn is_order(s: Seq<SubtaskView>, rank: Seq<nat>) -> bool {
    rank.len() == s.len() && forall|i: int| 0 <= i < s.len() ==> #[trigger] ranked(s, rank, i)
}

/// Whether the plan can be worked off: the subtasks can be put in an order in
/// which each comes behind all that it depends on.
pub open spec fn can_be_worked_off(s: Seq<SubtaskView>) -> bool {
    exists|rank: Seq<nat>| #[trigger] is_order(s, rank)
}

/// Whether a placed subtask has the id.
spec fn placed_id(s: Seq<SubtaskView>, placed: Seq<bool>, id: usize) -> bool {
    exists|j: int| 0 <= j < s.len() && (#[trigger] s[j]).id == id && placed[j]
}

fn id_is_placed(subtasks: &Vec<Subtask>, placed: &Vec<bool>, id: usize) -> (b: bool)
    requires
        placed@.len() == subtasks@.len(),
    ensures
        b == placed_id(task_views(subtasks@), placed@, id),
{
    let ghost s = task_views(subtasks@);
    let n: usize = subtasks.len();
    for i in 0..n
        invariant
            n == subtasks@.len() == placed@.len(),
            s == task_views(subtasks@),
            forall|j: int| 0 <= j < i ==> !((#[trigger] s[j]).id == id && placed@[j]),
    {
        if subtasks[i].id == id && placed[i] {
            assert(s[i as int].id == id);
            return true;
        }
    }
    false
}

/// Whether all that subtask `i` depends on is placed.
spec fn can_place(s: Seq<SubtaskView>, placed: Seq<bool>, i: int) -> bool {
    forall|k: int|
        0 <= k < s[i].dependencies.len() ==> placed_id(s, placed, #[trigger] s[i].dependencies[k])
}

fn is_placeable(subtasks: &Vec<Subtask>, placed: &Vec<bool>, i: usize) -> (b: bool)
    requires
        placed@.len() == subtasks@.len(),
        i < subtasks@.len(),
    ensures
        b == can_place(task_views(subtasks@), placed@, i as int),
{
    let ghost s = task_views(subtasks@);
    let n: usize = subtasks[i].dependencies.len();
    for k in 0..n
        invariant
            placed@.len() == subtasks@.len(),
            i < subtasks@.len(),
            s == task_views(subtasks@),
            n == s[i as int].dependencies.len(),
            forall|q: int|
                0 <= q < k ==> placed_id(s, placed@, #[trigger] s[i as int].dependencies[q]),
    {
        if !id_is_placed(subtasks, placed, subtasks[i].dependencies[k]) {
            assert(!placed_id(s, placed@, s[i as int].dependencies[k as int]));
            return false;
        }
    }
    true
}

/// How many are placed.
spec fn count_placed(placed: Seq<bool>) -> nat
    decreases placed.len(),
{
    if placed.len() == 0 {
        0
    } else {
        count_placed(placed.drop_last()) + (if placed.last() {
            1nat
        } else {
            0
        })
    }
}

proof fn lemma_count_placed(placed: Seq<bool>)
    ensures
        count_placed(placed) <= placed.len(),
        count_placed(placed) == placed.len() ==> forall|i: int|
            0 <= i < placed.len() ==> #[trigger] placed[i],
    decreases placed.len(),
{
    if placed.len() > 0 {
        lemma_count_placed(placed.drop_last());
        if count_placed(placed) == placed.len() {
            assert forall|i: int| 0 <= i < placed.len() implies #[trigger] placed[i] by {
                if i < placed.len() - 1 {
                    assert(placed.drop_last()[i]);
                }
            }
        }
    }
}

proof fn lemma_count_update(placed: Seq<bool>, i: int)
    requires
        0 <= i < placed.len(),
        !placed[i],
    ensures
        count_placed(placed.update(i, true)) == count_placed(placed) + 1,
    decreases placed.len(),
{
    let next = placed.update(i, true);
    if i == placed.len() - 1 {
        assert(next.drop_last() =~= placed.drop_last());
    } else {
        assert(next.drop_last() =~= placed.drop_last().update(i, true));
        lemma_count_update(placed.drop_last(), i);
    }
}

/// Where no further subtask can be placed and an order exists, all are placed.
proof fn lemma_stuck(s: Seq<SubtaskView>, placed: Seq<bool>, rank: Seq<nat>, i: int)
    requires
        placed.len() == s.len() == rank.len(),
        forall|k: int| 0 <= k < s.len() && !placed[k] ==> !#[trigger] can_place(s, placed, k),
        forall|k: int| 0 <= k < s.len() ==> #[trigger] ranked(s, rank, k),
        0 <= i < s.len(),
    ensures
        placed[i],
    decreases rank[i],
{
    if !placed[i] {
        assert(!can_place(s, placed, i));
        let k = choose|k: int|
            0 <= k < s[i].dependencies.len() && !placed_id(
                s,
                placed,
                #[trigger] s[i].dependencies[k],
            );
        let d = s[i].dependencies[k];
        assert(ranked(s, rank, i));
        assert(ranked_behind(s, rank, i, d));
        let j = choose|j: int| 0 <= j < s.len() && (#[trigger] s[j]).id == d && rank[j] < rank[i];
        lemma_stuck(s, placed, rank, j);
        assert(placed_id(s, placed, d));
    }
}

fn ids_unique(subtasks: &Vec<Subtask>) -> (b: bool)
    ensures
        b == ids_are_unique(task_views(subtasks@)),
{
    let ghost s = task_views(subtasks@);
    let n: usize = subtasks.len();
    for i in 0..n
        invariant
            n == subtasks@.len(),
            s == task_views(subtasks@),
            forall|a: int, b: int|
                0 <= a < b < s.len() && a < i ==> (#[trigger] s[a]).id != (#[trigger] s[b]).id,
    {
        for j in (i + 1)..n
            invariant
                i < n == subtasks@.len(),
                s == task_views(subtasks@),
                forall|b: int| i < b < j ==> s[i as int].id != (#[trigger] s[b]).id,
        {
            if subtasks[i].id == subtasks[j].id {
                assert(s[i as int].id == s[j as int].id);
                return false;
            }
        }
    }
    true
}

/// Whether the plan cannot be worked off: some subtasks depend on each other in
/// a circle, or on an id that no subtask has, or an id occurs twice.
pub fn has_cycle(subtasks: &Vec<Subtask>) -> (b: bool)
    ensures
        b == !(ids_are_unique(task_views(subtasks@)) && can_be_worked_off(task_views(subtasks@))),
{
    let ghost s = task_views(subtasks@);
    if !ids_unique(subtasks) {
        return true;
    }
    let n: usize = subtasks.len();
    let mut placed: Vec<bool> = Vec::new();
    let ghost mut rank: Seq<nat> = Seq::empty();
    for i in 0..n
        invariant
            placed@.len() == i,
            rank.len() == i,
            forall|k: int| 0 <= k < i ==> !#[trigger] placed@[k],
    {
        placed.push(false);
        proof {
            rank = rank.push(0);
        }
    }
    let mut left: usize = n;
    let ghost mut time: nat = 1;
    proof {
        lemma_none_placed(placed@);
    }
    // Each round places what can be placed; it ends when nothing is left or
    // nothing can be placed.
    while left > 0
        invariant
            n == subtasks@.len() == placed@.len() == rank.len() == s.len(),
            s == task_views(subtasks@),
            left + count_placed(placed@) == n,
            ids_are_unique(s),
            forall|k: int| 0 <= k < n && #[trigger] placed@[k] ==> rank[k] < time && ranked_placed(
                s,
                placed@,
                rank,
                k,
            ),
        decreases left,
    {
        let mut found: Option<usize> = None;
        for i in 0..n
            invariant
                n == subtasks@.len() == placed@.len(),
                s == task_views(subtasks@),
                match found {
                    Some(k) => k < n && !placed@[k as int] && can_place(s, placed@, k as int),
                    None => forall|k: int|
                        0 <= k < i && !placed@[k] ==> !#[trigger] can_place(s, placed@, k),
                },
        {
            if found.is_none() && !placed[i] && is_placeable(subtasks, &placed, i) {
                found = Some(i);
            }
        }
        match found {
            Some(i) => {
                let ghost before = placed@;
                proof {
                    lemma_count_update(placed@, i as int);
                }
                placed.set(i, true);
                proof {
                    let old_rank = rank;
                    rank = rank.update(i as int, time);
                    lemma_place(s, before, old_rank, i as int, time);
                    time = time + 1;
                }
                left = left - 1;
            },
            None => {
                proof {
                    lemma_count_placed(placed@);
                    if can_be_worked_off(s) {
                        let r = choose|r: Seq<nat>| #[trigger] is_order(s, r);
                        let i = lemma_some_unplaced(placed@);
                        lemma_stuck(s, placed@, r, i);
                    }
                }
                return true;
            },
        }
    }
    proof {
        lemma_count_placed(placed@);
        assert forall|i: int| 0 <= i < s.len() implies #[trigger] ranked(s, rank, i) by {
            assert(placed@[i]);
            assert forall|k: int| 0 <= k < s[i].dependencies.len() implies ranked_behind(
                s,
                rank,
                i,
                #[trigger] s[i].dependencies[k],
            ) by {
                assert(ranked_placed(s, placed@, rank, i));
                assert(placed_behind(s, placed@, rank, i, s[i].dependencies[k]));
            }
        }
        assert(is_order(s, rank));
    }
    false
}

/// Whether some placed subtask with the id has a lower rank than subtask `i`.
spec fn placed_behind(
    s: Seq<SubtaskView>,
    placed: Seq<bool>,
    rank: Seq<nat>,
    i: int,
    id: usize,
) -> bool {
    exists|j: int|
        0 <= j < s.len() && (#[trigger] s[j]).id == id && placed[j] && rank[j] < rank[i]
}

/// Whether the ranks put the placed subtask `i` behind what it depends on, all
/// of it placed.
spec fn ranked_placed(s: Seq<SubtaskView>, placed: Seq<bool>, rank: Seq<nat>, i: int) -> bool {
    forall|k: int|
        0 <= k < s[i].dependencies.len() ==> placed_behind(
            s,
            placed,
            rank,
            i,
            #[trigger] s[i].dependencies[k],
        )
}

proof fn lemma_place(s: Seq<SubtaskView>, placed: Seq<bool>, rank: Seq<nat>, i: int, time: nat)
    requires
        placed.len() == s.len() == rank.len(),
        0 <= i < s.len(),
        !placed[i],
        can_place(s, placed, i),
        forall|k: int| 0 <= k < s.len() && #[trigger] placed[k] ==> rank[k] < time && ranked_placed(
            s,
            placed,
            rank,
            k,
        ),
    ensures
        forall|k: int|
            0 <= k < s.len() && #[trigger] placed.update(i, true)[k] ==> rank.update(i, time)[k]
                < time + 1 && ranked_placed(s, placed.update(i, true), rank.update(i, time), k),
{
    let p2 = placed.update(i, true);
    let r2 = rank.update(i, time);
    assert forall|k: int| 0 <= k < s.len() && #[trigger] p2[k] implies r2[k] < time + 1
        && ranked_placed(s, p2, r2, k) by {
        if k != i {
            assert(placed[k]);
        }
        assert forall|q: int| 0 <= q < s[k].dependencies.len() implies placed_behind(
            s,
            p2,
            r2,
            k,
            #[trigger] s[k].dependencies[q],
        ) by {
            let d = s[k].dependencies[q];
            if k == i {
                assert(placed_id(s, placed, d));
                let j = choose|j: int| 0 <= j < s.len() && (#[trigger] s[j]).id == d && placed[j];
                assert(placed[j]);
                assert(s[j].id == d && p2[j] && r2[j] < r2[k]);
            } else {
                assert(ranked_placed(s, placed, rank, k));
                assert(placed_behind(s, placed, rank, k, d));
                let j = choose|j: int|
                    0 <= j < s.len() && (#[trigger] s[j]).id == d && placed[j] && rank[j] < rank[k];
                assert(s[j].id == d && p2[j] && r2[j] < r2[k]);
            }
        }
    }
}

proof fn lemma_none_placed(placed: Seq<bool>)
    requires
        forall|k: int| 0 <= k < placed.len() ==> !#[trigger] placed[k],
    ensures
        count_placed(placed) == 0,
    decreases placed.len(),
{
    if placed.len() > 0 {
        assert forall|k: int| 0 <= k < placed.drop_last().len() implies !#[trigger] placed.drop_last()[k] by {
            assert(!placed[k]);
        }
        lemma_none_placed(placed.drop_last());
        assert(!placed[placed.len() - 1]);
    }
}

proof fn lemma_some_unplaced(placed: Seq<bool>) -> (i: int)
    requires
        count_placed(placed) < placed.len(),
    ensures
        0 <= i < placed.len(),
        !placed[i],
    decreases placed.len(),
{
    if !placed.last() {
        placed.len() - 1
    } else {
        let i = lemma_some_unplaced(placed.drop_last());
        i
    }
}

/// A plan without dependencies can be worked off.
pub proof fn law_independent_tasks_can_be_worked_off(s: Seq<SubtaskView>)
    requires
        forall|i: int| 0 <= i < s.len() ==> (#[trigger] s[i]).dependencies.len() == 0,
    ensures
        can_be_worked_off(s),
{
    let rank = Seq::new(s.len(), |i: int| 0nat);
    assert forall|i: int| 0 <= i < s.len() implies #[trigger] ranked(s, rank, i) by {
        assert(s[i].dependencies.len() == 0);
    }
    assert(is_order(s, rank));
}

proof fn lemma_position_of(s: Seq<SubtaskView>, id: usize, k: int)
    requires
        0 <= k <= s.len(),
    ensures
        position_of(s, id, k) < s.len(),
        position_of(s, id, k) >= 0 ==> position_of(s, id, k) >= k && s[position_of(s, id, k)].id == id,
        position_of(s, id, k) < 0 ==> forall|j: int| k <= j < s.len() ==> (#[trigger] s[j]).id != id,
    decreases s.len() - k,
{
    if k < s.len() && s[k].id != id {
        lemma_position_of(s, id, k + 1);
    }
}

/// A subtask is ready exactly where it has not begun and everything that it depends on
/// is done.
pub proof fn law_ready_waits_for_all(s: Seq<SubtaskView>, i: int)
    requires
        0 <= i < s.len(),
        ids_are_unique(s),
    ensures
        is_ready(s, i) <==> s[i].status is Pending && forall|k: int|
            0 <= k < s[i].dependencies.len() ==> exists|j: int|
                0 <= j < s.len() && (#[trigger] s[j]).id == #[trigger] s[i].dependencies[k]
                    && s[j].status is Done,
{
    assert forall|id: usize| #[trigger] is_done_id(s, id) <==> exists|j: int|
        0 <= j < s.len() && (#[trigger] s[j]).id == id && s[j].status is Done by {
        lemma_position_of(s, id, 0);
        let p = position_of(s, id, 0);
        if exists|j: int| 0 <= j < s.len() && (#[trigger] s[j]).id == id && s[j].status is Done {
            let j = choose|j: int|
                0 <= j < s.len() && (#[trigger] s[j]).id == id && s[j].status is Done;
            if p < j {
                assert(s[p].id != s[j].id);
            } else if j < p {
                assert(s[j].id != s[p].id);
            }
        }
    }
}

} // verus!
