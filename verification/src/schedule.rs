//! Deciding which step runs when.

use vstd::prelude::*;
use crate::graph;
use crate::graph::Graph;
use crate::protocol::DEFAULT_CONCURRENCY;
use crate::protocol::MAX_COMMANDS;

verus! {

// ---------- the model ----------

/// Where a step stands.
#[derive(Debug, Clone, Copy, PartialEq, Eq, Structural)]
pub enum Phase {
    /// Not started yet.
    Waiting,
    /// Started, not finished.
    Running,
    /// Finished, with whatever exit code.
    Finished,
    /// Never to be started.
    Skipped,
}

/// What to do next.
#[derive(Debug, Clone, Copy, PartialEq, Eq, Structural)]
pub enum Action {
    /// Start the step of this number.
    Start(usize),
    /// Wait until a running step finishes.
    Wait,
    /// Nothing is left to run.
    Done,
}

/// A batch under way.
pub struct ScheduleModel {
    /// Where each step stands.
    pub phases: Seq<Phase>,
    /// Which step waits for which.
    pub links: Set<(int, int)>,
    /// A step has failed.
    pub failed: bool,
    /// Go on after a failure.
    pub keep_going: bool,
    /// How many steps may run at a time.
    pub limit: int,
    /// The steps that are ready, in the order in which they became so; of
    /// steps that became ready together, the one of the lower number is first.
    pub queue: Seq<int>,
}

/// How many of the first `k` steps are running.
pub open spec fn running_among(phases: Seq<Phase>, k: int) -> int
    decreases k,
{
    if k <= 0 {
        0
    } else {
        running_among(phases, k - 1) + if phases[k - 1] == Phase::Running {
            1int
        } else {
            0int
        }
    }
}

/// How much is left to happen to the first `k` steps: a waiting step has to
/// start and to finish, a running one to finish.
pub open spec fn left_among(phases: Seq<Phase>, k: int) -> int
    decreases k,
{
    if k <= 0 {
        0
    } else {
        left_among(phases, k - 1) + match phases[k - 1] {
            Phase::Waiting => 2int,
            Phase::Running => 1int,
            _ => 0int,
        }
    }
}

/// Where the steps stand after those that wait are given up.
pub open spec fn given_up(phases: Seq<Phase>) -> Seq<Phase> {
    phases.map_values(
        |p: Phase|
            if p == Phase::Waiting {
                Phase::Skipped
            } else {
                p
            },
    )
}

impl ScheduleModel {
    /// How many steps there are.
    pub open spec fn size(self) -> int {
        self.phases.len() as int
    }

    /// How many steps are running.
    pub open spec fn running(self) -> int {
        running_among(self.phases, self.size())
    }

    /// Nothing more is started because a step has failed.
    pub open spec fn stopping(self) -> bool {
        self.failed && !self.keep_going
    }

    /// All steps that step `i` waits for are finished.
    pub open spec fn parents_finished(self, i: int) -> bool {
        forall|f: int|
            0 <= f < self.size() && #[trigger] self.links.contains((f, i)) ==> self.phases[f]
                == Phase::Finished
    }

    /// Step `i` waits, and for nothing more.
    pub open spec fn is_ready(self, i: int) -> bool {
        0 <= i < self.size() && self.phases[i] == Phase::Waiting && self.parents_finished(i)
    }

    /// Those of the first `k` steps that are ready and not in the queue yet.
    pub open spec fn fresh_among(self, k: int) -> Seq<int>
        decreases k,
    {
        if k <= 0 {
            Seq::empty()
        } else if self.is_ready(k - 1) && !self.queue.contains(k - 1) {
            self.fresh_among(k - 1).push(k - 1)
        } else {
            self.fresh_among(k - 1)
        }
    }

    /// The batch after the steps that have become ready have joined the end of
    /// the queue.
    pub open spec fn requeued(self) -> ScheduleModel {
        ScheduleModel { queue: self.queue + self.fresh_among(self.size()), ..self }
    }

    /// The queue holds each ready step once, and nothing else.
    pub open spec fn queue_is_ready(self) -> bool {
        &&& self.queue.no_duplicates()
        &&& forall|i: int| #[trigger] self.queue.contains(i) <==> self.is_ready(i)
    }

    /// The batch after the first step of the queue has started.
    pub open spec fn started(self) -> ScheduleModel {
        ScheduleModel {
            phases: self.phases.update(self.queue[0], Phase::Running),
            queue: self.queue.drop_first(),
            ..self
        }
    }

    /// The batch after all waiting steps are given up.
    pub open spec fn abandoned(self) -> ScheduleModel {
        ScheduleModel { phases: given_up(self.phases), queue: Seq::empty(), ..self }
    }

    /// The batch after step `i` has finished with an exit code, in front of
    /// any change of the queue.
    pub open spec fn ended(self, i: int, exit: i64) -> ScheduleModel {
        ScheduleModel {
            phases: self.phases.update(i, Phase::Finished),
            failed: self.failed || exit != 0,
            ..self
        }
    }

    /// The batch after step `i` has finished with an exit code.
    pub open spec fn finished(self, i: int, exit: i64) -> ScheduleModel {
        self.ended(i, exit).requeued()
    }

    /// What to do next, and the batch then. After a failure, unless the batch
    /// goes on, the waiting steps are given up. Otherwise the first step of the
    /// queue starts, if there is one and room for it; and where nothing runs
    /// and nothing is ready, what waits is given up.
    pub open spec fn decides(self, action: Action, next: ScheduleModel) -> bool {
        if self.stopping() {
            &&& next == self.abandoned()
            &&& action == if self.running() > 0 {
                Action::Wait
            } else {
                Action::Done
            }
        } else if self.running() < self.limit && self.queue.len() > 0 {
            &&& action is Start
            &&& action->0 == self.queue[0]
            &&& next == self.started()
        } else if self.running() > 0 {
            &&& action == Action::Wait
            &&& next == self
        } else {
            &&& action == Action::Done
            &&& next == self.abandoned()
        }
    }

    /// Steps run only behind the steps that they wait for, no more of them at
    /// a time than allowed; the ready ones are in the queue; and none is
    /// skipped but after a failure that stops the batch or where steps wait
    /// for each other.
    pub open spec fn is_sound(self) -> bool {
        &&& 1 <= self.limit
        &&& self.running() <= self.limit
        &&& self.queue_is_ready()
        &&& forall|i: int|
            0 <= i < self.size() && (#[trigger] self.phases[i] == Phase::Running || self.phases[i]
                == Phase::Finished) ==> self.parents_finished(i)
        &&& forall|i: int|
            0 <= i < self.size() && #[trigger] self.phases[i] == Phase::Skipped ==> self.stopping()
                || graph::has_stuck(self.size(), self.links)
    }

    /// Every step has finished or was skipped.
    pub open spec fn is_settled(self) -> bool {
        forall|i: int|
            0 <= i < self.size() ==> #[trigger] self.phases[i] == Phase::Finished || self.phases[i]
                == Phase::Skipped
    }
}

/// A batch of `n` steps of which none has started.
pub open spec fn unstarted(
    n: nat,
    links: Set<(int, int)>,
    keep_going: bool,
    limit: int,
) -> ScheduleModel {
    ScheduleModel {
        phases: Seq::new(n, |i: int| Phase::Waiting),
        links,
        failed: false,
        keep_going,
        limit,
        queue: Seq::empty(),
    }.requeued()
}

// ---------- the queue ----------

/// The steps that join the queue are those that are ready and not in it.
proof fn lemma_fresh(m: ScheduleModel, k: int)
    requires
        0 <= k <= m.size(),
    ensures
        m.fresh_among(k).no_duplicates(),
        forall|i: int| #[trigger]
            m.fresh_among(k).contains(i) <==> 0 <= i < k && m.is_ready(i) && !m.queue.contains(i),
    decreases k,
{
    if k > 0 {
        lemma_fresh(m, k - 1);
        let front = m.fresh_among(k - 1);
        if m.is_ready(k - 1) && !m.queue.contains(k - 1) {
            let all = front.push(k - 1);
            assert(!front.contains(k - 1));
            assert forall|i: int| #[trigger] all.contains(i) <==> 0 <= i < k && m.is_ready(i)
                && !m.queue.contains(i) by {
                if all.contains(i) {
                    let j = choose|j: int| 0 <= j < all.len() && all[j] == i;
                    if j < front.len() {
                        assert(front[j] == i);
                        assert(front.contains(i));
                    }
                }
                if front.contains(i) {
                    let j = choose|j: int| 0 <= j < front.len() && front[j] == i;
                    assert(all[j] == i);
                }
                if i == k - 1 {
                    assert(all[front.len() as int] == i);
                }
            }
            assert forall|a: int, b: int|
                0 <= a < all.len() && 0 <= b < all.len() && a != b implies all[a] != all[b] by {
                if a < front.len() {
                    assert(front.contains(front[a]));
                }
                if b < front.len() {
                    assert(front.contains(front[b]));
                }
            }
        }
    }
}

/// What a step waits for is finished or not, however else two batches differ.
proof fn lemma_same_parents(a: ScheduleModel, b: ScheduleModel, i: int)
    requires
        a.size() == b.size(),
        a.links == b.links,
        forall|f: int|
            0 <= f < a.size() ==> ((#[trigger] a.phases[f]) == Phase::Finished <==> b.phases[f]
                == Phase::Finished),
    ensures
        a.parents_finished(i) == b.parents_finished(i),
{
    if a.parents_finished(i) {
        assert forall|f: int|
            0 <= f < b.size() && #[trigger] b.links.contains((f, i)) implies b.phases[f]
            == Phase::Finished by {
            assert(a.links.contains((f, i)));
            assert(a.phases[f] == Phase::Finished);
        }
    }
    if b.parents_finished(i) {
        assert forall|f: int|
            0 <= f < a.size() && #[trigger] a.links.contains((f, i)) implies a.phases[f]
            == Phase::Finished by {
            assert(b.links.contains((f, i)));
            assert(b.phases[f] == Phase::Finished);
        }
    }
}

/// Where the queue holds only ready steps, it holds all of them once those
/// that have become ready have joined it.
proof fn lemma_requeued(m: ScheduleModel)
    requires
        m.queue.no_duplicates(),
        forall|i: int| #[trigger] m.queue.contains(i) ==> m.is_ready(i),
    ensures
        m.requeued().queue_is_ready(),
{
    let next = m.requeued();
    let fresh = m.fresh_among(m.size());
    lemma_fresh(m, m.size());
    assert forall|i: int| #[trigger] next.queue.contains(i) <==> next.is_ready(i) by {
        lemma_same_parents(m, next, i);
        if next.queue.contains(i) {
            let j = choose|j: int| 0 <= j < next.queue.len() && next.queue[j] == i;
            if j < m.queue.len() {
                assert(m.queue[j] == i);
                assert(m.queue.contains(i));
            } else {
                assert(fresh[j - m.queue.len()] == i);
                assert(fresh.contains(i));
            }
        }
        if m.queue.contains(i) {
            let j = choose|j: int| 0 <= j < m.queue.len() && m.queue[j] == i;
            assert(next.queue[j] == i);
        } else if fresh.contains(i) {
            let j = choose|j: int| 0 <= j < fresh.len() && fresh[j] == i;
            assert(next.queue[j + m.queue.len()] == i);
        }
    }
    assert forall|a: int, b: int|
        0 <= a < next.queue.len() && 0 <= b < next.queue.len() && a != b implies next.queue[a]
        != next.queue[b] by {
        let n = m.queue.len();
        if a < n {
            assert(m.queue.contains(m.queue[a]));
        } else {
            assert(fresh.contains(fresh[a - n]));
        }
        if b < n {
            assert(m.queue.contains(m.queue[b]));
        } else {
            assert(fresh.contains(fresh[b - n]));
        }
    }
}

/// The first step of the queue leaves it when it starts.
proof fn lemma_started_queue(m: ScheduleModel)
    requires
        m.queue_is_ready(),
        m.queue.len() > 0,
    ensures
        m.is_ready(m.queue[0]),
        m.started().queue_is_ready(),
{
    let s = m.queue[0];
    let next = m.started();
    assert(m.queue.contains(s));
    assert forall|i: int| #[trigger] next.queue.contains(i) <==> next.is_ready(i) by {
        lemma_same_parents(m, next, i);
        if next.queue.contains(i) {
            let j = choose|j: int| 0 <= j < next.queue.len() && next.queue[j] == i;
            assert(m.queue[j + 1] == i);
            assert(m.queue.contains(i));
        }
        if next.is_ready(i) {
            assert(m.is_ready(i));
            assert(m.queue.contains(i));
            let j = choose|j: int| 0 <= j < m.queue.len() && m.queue[j] == i;
            assert(next.queue[j - 1] == i);
        }
    }
}

// ---------- counting ----------

/// A step that changes its phase changes the counts by what it counts.
proof fn lemma_counts_update(phases: Seq<Phase>, i: int, p: Phase, k: int)
    requires
        0 <= i < phases.len(),
        0 <= k <= phases.len(),
    ensures
        running_among(phases.update(i, p), k) == running_among(phases, k) + if i < k {
            (if p == Phase::Running {
                1int
            } else {
                0int
            }) - (if phases[i] == Phase::Running {
                1int
            } else {
                0int
            })
        } else {
            0int
        },
        left_among(phases.update(i, p), k) == left_among(phases, k) + if i < k {
            (match p {
                Phase::Waiting => 2int,
                Phase::Running => 1int,
                _ => 0int,
            }) - (match phases[i] {
                Phase::Waiting => 2int,
                Phase::Running => 1int,
                _ => 0int,
            })
        } else {
            0int
        },
    decreases k,
{
    if k > 0 {
        lemma_counts_update(phases, i, p, k - 1);
    }
}

/// Counts are not negative; the count of running steps is zero where none
/// runs, and only there.
proof fn lemma_counts(phases: Seq<Phase>, k: int)
    requires
        0 <= k <= phases.len(),
    ensures
        0 <= running_among(phases, k) <= k,
        0 <= left_among(phases, k) <= 2 * k,
        running_among(phases, k) == 0 <==> (forall|i: int|
            0 <= i < k ==> #[trigger] phases[i] != Phase::Running),
    decreases k,
{
    if k > 0 {
        lemma_counts(phases, k - 1);
        if running_among(phases, k) == 0 {
            assert(forall|i: int| 0 <= i < k - 1 ==> #[trigger] phases[i] != Phase::Running);
        }
        if forall|i: int| 0 <= i < k ==> #[trigger] phases[i] != Phase::Running {
            assert(phases[k - 1] != Phase::Running);
        }
    }
}

/// Giving up waiting steps keeps the running ones.
proof fn lemma_counts_given_up(phases: Seq<Phase>, k: int)
    requires
        0 <= k <= phases.len(),
    ensures
        running_among(given_up(phases), k) == running_among(phases, k),
        left_among(given_up(phases), k) == running_among(phases, k),
    decreases k,
{
    if k > 0 {
        lemma_counts_given_up(phases, k - 1);
    }
}

// ---------- laws ----------

/// A batch of which no step has started is sound.
pub proof fn law_initial_is_sound(n: nat, links: Set<(int, int)>, keep_going: bool, limit: int)
    requires
        1 <= limit,
    ensures
        unstarted(n, links, keep_going, limit).is_sound(),
{
    let m = unstarted(n, links, keep_going, limit);
    lemma_counts(m.phases, m.size());
    lemma_requeued(ScheduleModel { queue: Seq::empty(), ..m });
}

/// Steps start in the order in which they became ready: the first of the queue
/// is the next to start, and steps that become ready later join its end.
pub proof fn law_ready_first_starts_first(
    m: ScheduleModel,
    action: Action,
    next: ScheduleModel,
    i: int,
    exit: i64,
)
    requires
        m.decides(action, next),
    ensures
        action is Start ==> action->0 == m.queue[0] && next.queue == m.queue.skip(1),
        action is Wait && !m.stopping() ==> next.queue == m.queue,
        m.finished(i, exit).queue.take(m.queue.len() as int) == m.queue,
{
    if action is Start {
        assert(next.queue =~= m.queue.skip(1));
    }
    assert(m.finished(i, exit).queue.take(m.queue.len() as int) =~= m.queue);
}

/// Starting, giving up and waiting keep a batch sound: no step starts before
/// all that it waits for have finished, and no more steps run than allowed.
pub proof fn law_deciding_is_sound(m: ScheduleModel, action: Action, next: ScheduleModel)
    requires
        m.is_sound(),
        m.decides(action, next),
    ensures
        next.is_sound(),
        action is Start ==> m.is_ready(action->0 as int),
{
    lemma_counts_given_up(m.phases, m.size());
    if m.stopping() || action is Done {
        assert forall|i: int| #[trigger] next.queue.contains(i) <==> next.is_ready(i) by {
            assert(0 <= i < next.size() ==> next.phases[i] != Phase::Waiting);
        }
        assert forall|i: int|
            0 <= i < next.size() && (#[trigger] next.phases[i] == Phase::Running || next.phases[i]
                == Phase::Finished) implies next.parents_finished(i) by {
            assert(m.phases[i] == next.phases[i]);
            assert(m.parents_finished(i));
            assert forall|f: int|
                0 <= f < next.size() && #[trigger] next.links.contains(
                    (f, i),
                ) implies next.phases[f] == Phase::Finished by {
                assert(m.phases[f] == Phase::Finished);
            }
        }
        assert forall|i: int|
            0 <= i < next.size() && #[trigger] next.phases[i] == Phase::Skipped implies next.stopping()
            || graph::has_stuck(next.size(), next.links) by {
            if !m.stopping() {
                if m.phases[i] == Phase::Waiting {
                    assert forall|j: int| !m.is_ready(j) by {
                        assert(!m.queue.contains(j));
                    }
                    lemma_nothing_ready(m, i);
                }
            }
        }
    } else if action is Start {
        let s = action->0 as int;
        lemma_started_queue(m);
        lemma_counts_update(m.phases, s, Phase::Running, m.size());
        assert forall|i: int|
            0 <= i < next.size() && (#[trigger] next.phases[i] == Phase::Running || next.phases[i]
                == Phase::Finished) implies next.parents_finished(i) by {
            assert(m.parents_finished(i)) by {
                if i != s {
                    assert(m.phases[i] == next.phases[i]);
                }
            }
            assert forall|f: int|
                0 <= f < next.size() && #[trigger] next.links.contains(
                    (f, i),
                ) implies next.phases[f] == Phase::Finished by {
                assert(m.phases[f] == Phase::Finished);
            }
        }
        assert forall|i: int|
            0 <= i < next.size() && #[trigger] next.phases[i] == Phase::Skipped implies next.stopping()
            || graph::has_stuck(next.size(), next.links) by {
            assert(m.phases[i] == Phase::Skipped);
        }
    }
}

/// Where a step waits but none is ready or running, and no failure stops the
/// batch, steps wait for each other.
proof fn lemma_nothing_ready(m: ScheduleModel, w: int)
    requires
        m.is_sound(),
        !m.stopping(),
        m.running() <= 0,
        forall|i: int| !m.is_ready(i),
        0 <= w < m.size(),
        m.phases[w] == Phase::Waiting,
    ensures
        graph::has_stuck(m.size(), m.links),
{
    lemma_counts(m.phases, m.size());
    if !graph::has_stuck(m.size(), m.links) {
        let s = Set::new(|t: int| 0 <= t < m.size() && m.phases[t] == Phase::Waiting);
        assert forall|t: int| #[trigger] s.contains(t) implies 0 <= t < m.size() && exists|f: int| #[trigger]
            s.contains(f) && m.links.contains((f, t)) by {
            assert(!m.is_ready(t));
            let f = choose|f: int|
                0 <= f < m.size() && #[trigger] m.links.contains((f, t)) && m.phases[f]
                    != Phase::Finished;
            assert(m.phases[f] != Phase::Running);
            assert(m.phases[f] != Phase::Skipped);
            assert(s.contains(f));
        }
        assert(graph::is_waiting_set(m.size(), m.links, s));
        assert(s.contains(w));
        assert(graph::is_stuck(m.size(), m.links, w));
    }
}

/// Finishing a running step keeps a batch sound.
pub proof fn law_finishing_is_sound(m: ScheduleModel, i: int, exit: i64)
    requires
        m.is_sound(),
        0 <= i < m.size(),
        m.phases[i] == Phase::Running,
    ensures
        m.finished(i, exit).is_sound(),
{
    let next = m.finished(i, exit);
    let ended = m.ended(i, exit);
    assert forall|j: int| #[trigger] ended.queue.contains(j) implies ended.is_ready(j) by {
        assert(m.is_ready(j));
        assert forall|f: int|
            0 <= f < ended.size() && #[trigger] ended.links.contains((f, j)) implies ended.phases[f]
            == Phase::Finished by {
            assert(m.phases[f] == Phase::Finished);
        }
    }
    lemma_requeued(ended);
    lemma_counts_update(m.phases, i, Phase::Finished, m.size());
    assert forall|j: int|
        0 <= j < next.size() && (#[trigger] next.phases[j] == Phase::Running || next.phases[j]
            == Phase::Finished) implies next.parents_finished(j) by {
        assert(m.phases[j] == Phase::Running || m.phases[j] == Phase::Finished);
        assert(m.parents_finished(j));
        assert forall|f: int|
            0 <= f < next.size() && #[trigger] next.links.contains((f, j)) implies next.phases[f]
            == Phase::Finished by {
            assert(m.phases[f] == Phase::Finished);
        }
    }
    assert forall|j: int|
        0 <= j < next.size() && #[trigger] next.phases[j] == Phase::Skipped implies next.stopping()
        || graph::has_stuck(next.size(), next.links) by {
        assert(m.phases[j] == Phase::Skipped);
    }
}

/// When the batch is done, every step has finished or was skipped.
pub proof fn law_done_is_settled(m: ScheduleModel, next: ScheduleModel)
    requires
        m.is_sound(),
        m.decides(Action::Done, next),
    ensures
        next.is_settled(),
{
    lemma_counts(m.phases, m.size());
    assert forall|i: int| 0 <= i < next.size() implies #[trigger] next.phases[i] == Phase::Finished
        || next.phases[i] == Phase::Skipped by {
        assert(m.phases[i] != Phase::Running);
    }
}

/// Where no steps wait for each other and no failure stops the batch, every
/// step has finished when the batch is done: none is skipped.
pub proof fn law_all_steps_run(m: ScheduleModel, next: ScheduleModel)
    requires
        m.is_sound(),
        m.decides(Action::Done, next),
        !graph::has_stuck(m.size(), m.links),
        !m.stopping(),
    ensures
        forall|i: int| 0 <= i < next.size() ==> #[trigger] next.phases[i] == Phase::Finished,
{
    law_done_is_settled(m, next);
    law_deciding_is_sound(m, Action::Done, next);
    assert forall|i: int| 0 <= i < next.size() implies #[trigger] next.phases[i]
        == Phase::Finished by {
        if next.phases[i] == Phase::Skipped {
            assert(next.stopping() || graph::has_stuck(next.size(), next.links));
        }
    }
}

/// After a failure nothing more starts, unless the batch goes on.
pub proof fn law_failure_stops(m: ScheduleModel, action: Action, next: ScheduleModel)
    requires
        m.stopping(),
        m.decides(action, next),
    ensures
        action !is Start,
        forall|i: int| 0 <= i < next.size() ==> #[trigger] next.phases[i] != Phase::Waiting,
{
}

/// A batch comes to its end: each start and each finish takes one off what is
/// left to happen, which is never negative; waiting is for a running step.
pub proof fn law_progress(m: ScheduleModel, action: Action, next: ScheduleModel)
    requires
        m.is_sound(),
        m.decides(action, next),
    ensures
        0 <= left_among(next.phases, next.size()) <= left_among(m.phases, m.size()),
        action is Start ==> left_among(next.phases, next.size()) == left_among(m.phases, m.size())
            - 1,
        action is Wait ==> next.running() > 0,
        action is Done ==> left_among(next.phases, next.size()) == 0,
        forall|i: int, exit: i64|
            0 <= i < m.size() && m.phases[i] == Phase::Running ==> left_among(
                (#[trigger] m.finished(i, exit)).phases,
                m.size(),
            ) == left_among(m.phases, m.size()) - 1,
{
    lemma_counts(m.phases, m.size());
    lemma_counts(next.phases, next.size());
    lemma_counts_given_up(m.phases, m.size());
    lemma_left_covers_running(m.phases, m.size());
    if action is Start {
        lemma_started_queue(m);
        lemma_counts_update(m.phases, action->0 as int, Phase::Running, m.size());
    }
    assert forall|i: int, exit: i64|
        0 <= i < m.size() && m.phases[i] == Phase::Running implies left_among(
        (#[trigger] m.finished(i, exit)).phases,
        m.size(),
    ) == left_among(m.phases, m.size()) - 1 by {
        lemma_counts_update(m.phases, i, Phase::Finished, m.size());
    }
}

/// A running step has something left to happen.
proof fn lemma_left_covers_running(phases: Seq<Phase>, k: int)
    requires
        0 <= k <= phases.len(),
    ensures
        running_among(phases, k) <= left_among(phases, k),
    decreases k,
{
    if k > 0 {
        lemma_left_covers_running(phases, k - 1);
    }
}

// ---------- the scheduler ----------

/// A batch under way. What its view leaves out follows from the rest, as
/// `wf` says.
pub struct Scheduler {
    graph: Graph,
    /// How many of the steps that each step waits for have not finished.
    counts: Vec<usize>,
    /// Whether each step has finished.
    done: Vec<bool>,
    phases: Vec<Phase>,
    /// How many steps are running.
    running: usize,
    failed: bool,
    keep_going: bool,
    limit: usize,
    /// The ready steps, in the order in which they became ready.
    queue: Vec<usize>,
}

/// The numbers that `v` holds.
pub open spec fn numbers(v: Seq<usize>) -> Seq<int> {
    v.map_values(|i: usize| i as int)
}

impl View for Scheduler {
    type V = ScheduleModel;

    closed spec fn view(&self) -> ScheduleModel {
        ScheduleModel {
            phases: self.phases@,
            links: self.graph.links(),
            failed: self.failed,
            keep_going: self.keep_going,
            limit: self.limit as int,
            queue: numbers(self.queue@),
        }
    }
}

/// How many steps may run at a time: what the request says, or the default,
/// but at least one and no more than a request may hold.
pub open spec fn limit_of(concurrency: Option<usize>) -> int {
    let asked = match concurrency {
        Some(c) => c as int,
        None => DEFAULT_CONCURRENCY as int,
    };
    if asked < 1 {
        1
    } else if asked > MAX_COMMANDS {
        MAX_COMMANDS as int
    } else {
        asked
    }
}

/// Whether the counts say that step `i` is ready.
proof fn lemma_ready(g: Graph, counts: Seq<usize>, done: Seq<bool>, m: ScheduleModel, i: int)
    requires
        g.counts_wf(counts, done),
        m.links == g.links(),
        m.size() == g.size(),
        forall|j: int|
            0 <= j < m.size() ==> (#[trigger] done[j]) == (m.phases[j] == Phase::Finished),
        0 <= i < m.size(),
    ensures
        m.is_ready(i) == (m.phases[i] == Phase::Waiting && counts[i] == 0),
{
    graph::lemma_open_parents(g.children@, done, i, g.size());
    if counts[i] == 0 {
        assert forall|f: int|
            0 <= f < m.size() && #[trigger] m.links.contains((f, i)) implies m.phases[f]
            == Phase::Finished by {
            assert(graph::is_child(g.children@, f, i));
            assert(done[f]);
        }
    }
    if m.is_ready(i) {
        assert forall|f: int|
            0 <= f < g.size() && #[trigger] graph::is_child(g.children@, f, i) implies done[f] by {
            assert(m.links.contains((f, i)));
        }
    }
}

/// Whether `i` is in the queue.
fn is_queued(queue: &Vec<usize>, i: usize) -> (r: bool)
    ensures
        r == numbers(queue@).contains(i as int),
{
    let mut k: usize = 0;
    while k < queue.len()
        invariant
            k <= queue@.len(),
            forall|j: int| 0 <= j < k ==> (#[trigger] queue@[j]) != i,
        decreases queue@.len() - k,
    {
        if queue[k] == i {
            assert(numbers(queue@)[k as int] == i);
            return true;
        }
        k += 1;
    }
    assert forall|j: int| 0 <= j < numbers(queue@).len() implies #[trigger] numbers(queue@)[j]
        != i by {
        assert(queue@[j] != i);
    }
    false
}

/// Lets the steps that have become ready join the end of the queue.
fn join_queue(
    g: &Graph,
    counts: &Vec<usize>,
    done: &Vec<bool>,
    phases: &Vec<Phase>,
    queue: &mut Vec<usize>,
    Ghost(m): Ghost<ScheduleModel>,
)
    requires
        g.counts_wf(counts@, done@),
        m.links == g.links(),
        m.phases == phases@,
        m.size() == g.size(),
        m.queue == numbers(old(queue)@),
        forall|j: int|
            0 <= j < m.size() ==> (#[trigger] done@[j]) == (m.phases[j] == Phase::Finished),
    ensures
        numbers(final(queue)@) == m.requeued().queue,
{
    let n: usize = phases.len();
    let mut fresh: Vec<usize> = Vec::new();
    let mut i: usize = 0;
    assert(numbers(fresh@) =~= m.fresh_among(0));
    while i < n
        invariant
            i <= n,
            n == m.size(),
            g.counts_wf(counts@, done@),
            m.links == g.links(),
            m.phases == phases@,
            m.size() == g.size(),
            m.queue == numbers(queue@),
            forall|j: int|
                0 <= j < m.size() ==> (#[trigger] done@[j]) == (m.phases[j] == Phase::Finished),
            numbers(fresh@) == m.fresh_among(i as int),
        decreases n - i,
    {
        let ghost before = fresh@;
        proof {
            lemma_ready(*g, counts@, done@, m, i as int);
        }
        if phases[i] == Phase::Waiting && counts[i] == 0 && !is_queued(queue, i) {
            fresh.push(i);
            assert(numbers(fresh@) =~= numbers(before).push(i as int));
        }
        i += 1;
    }
    let ghost front = queue@;
    let ghost back = fresh@;
    queue.append(&mut fresh);
    assert(numbers(queue@) =~= numbers(front) + numbers(back));
}

impl Scheduler {
    /// The parts of the scheduler agree with each other.
    pub closed spec fn wf(self) -> bool {
        &&& self.graph.wf()
        &&& self.phases@.len() == self.graph.size()
        &&& self.graph.counts_wf(self.counts@, self.done@)
        &&& forall|i: int|
            0 <= i < self.graph.size() ==> (#[trigger] self.done@[i]) == (self.phases@[i]
                == Phase::Finished)
        &&& self.running == running_among(self.phases@, self.graph.size())
        &&& self@.is_sound()
    }

    /// A batch of `n` waiting steps; the second step of each pair waits for
    /// the first.
    pub fn new(
        n: usize,
        edges: &Vec<(usize, usize)>,
        concurrency: Option<usize>,
        keep_going: bool,
    ) -> (r: Scheduler)
        requires
            forall|k: int|
                0 <= k < edges@.len() ==> (#[trigger] edges@[k]).0 < n && edges@[k].1 < n,
        ensures
            r.wf(),
            r@ == unstarted(n as nat, graph::pairs(edges@), keep_going, limit_of(concurrency)),
    {
        let g = Graph::build(n, edges);
        let mut counts: Vec<usize> = Vec::new();
        let mut done: Vec<bool> = Vec::new();
        let mut phases: Vec<Phase> = Vec::new();
        let mut i: usize = 0;
        while i < n
            invariant
                i <= n,
                n == g.size(),
                g.wf(),
                counts@ == g.indegree@.take(i as int),
                done@ == Seq::new(i as nat, |j: int| false),
                phases@ == Seq::new(i as nat, |j: int| Phase::Waiting),
            decreases n - i,
        {
            counts.push(g.indegree[i]);
            done.push(false);
            phases.push(Phase::Waiting);
            i += 1;
            proof {
                assert(counts@ =~= g.indegree@.take(i as int));
                assert(done@ =~= Seq::new(i as nat, |j: int| false));
                assert(phases@ =~= Seq::new(i as nat, |j: int| Phase::Waiting));
            }
        }
        assert(counts@ =~= g.indegree@);
        let asked: usize = match concurrency {
            Some(c) => c,
            None => DEFAULT_CONCURRENCY,
        };
        let limit: usize = if asked < 1 {
            1
        } else if asked > MAX_COMMANDS {
            MAX_COMMANDS
        } else {
            asked
        };
        let ghost m = ScheduleModel {
            phases: phases@,
            links: graph::pairs(edges@),
            failed: false,
            keep_going,
            limit: limit as int,
            queue: Seq::empty(),
        };
        let mut queue: Vec<usize> = Vec::new();
        assert(numbers(queue@) =~= Seq::<int>::empty());
        join_queue(&g, &counts, &done, &phases, &mut queue, Ghost(m));
        proof {
            lemma_counts(phases@, n as int);
            law_initial_is_sound(n as nat, m.links, keep_going, limit as int);
            assert(m.phases =~= Seq::new(n as nat, |i: int| Phase::Waiting));
        }
        Scheduler {
            graph: g,
            counts,
            done,
            phases,
            running: 0,
            failed: false,
            keep_going,
            limit,
            queue,
        }
    }

    /// How many steps there are.
    pub fn size(&self) -> (r: usize)
        requires
            self.wf(),
        ensures
            r == self@.size(),
    {
        self.phases.len()
    }

    /// Where step `i` stands.
    pub fn phase(&self, i: usize) -> (r: Phase)
        requires
            self.wf(),
            i < self@.size(),
        ensures
            r == self@.phases[i as int],
    {
        self.phases[i]
    }

    /// Gives up the waiting steps.
    fn give_up(&mut self)
        requires
            old(self).wf(),
            old(self)@.abandoned().is_sound(),
        ensures
            final(self).wf(),
            final(self)@ == old(self)@.abandoned(),
    {
        let n: usize = self.phases.len();
        let ghost was = self.phases@;
        let mut next: Vec<Phase> = Vec::new();
        let mut i: usize = 0;
        while i < n
            invariant
                i <= n,
                n == self.phases@.len(),
                next@ == given_up(self.phases@).take(i as int),
            decreases n - i,
        {
            let p = self.phases[i];
            next.push(
                if p == Phase::Waiting {
                    Phase::Skipped
                } else {
                    p
                },
            );
            i += 1;
            assert(next@ =~= given_up(self.phases@).take(i as int));
        }
        assert(next@ =~= given_up(self.phases@));
        proof {
            lemma_counts_given_up(self.phases@, n as int);
        }
        self.phases = next;
        self.queue = Vec::new();
        assert(numbers(self.queue@) =~= Seq::<int>::empty());
    }

    /// Decides what to do next.
    pub fn poll(&mut self) -> (r: Action)
        requires
            old(self).wf(),
        ensures
            final(self).wf(),
            old(self)@.decides(r, final(self)@),
    {
        let ghost m = self@;
        if self.failed && !self.keep_going {
            let r = if self.running > 0 {
                Action::Wait
            } else {
                Action::Done
            };
            proof {
                law_deciding_is_sound(m, r, m.abandoned());
            }
            self.give_up();
            return r;
        }
        if self.running < self.limit && self.queue.len() > 0 {
            let i: usize = self.queue.remove(0);
            proof {
                assert(m.queue[0] == i);
                lemma_started_queue(m);
                law_deciding_is_sound(m, Action::Start(i), m.started());
                lemma_counts_update(m.phases, i as int, Phase::Running, m.size());
                assert(numbers(self.queue@) =~= m.queue.drop_first());
            }
            self.phases.set(i, Phase::Running);
            self.running = self.running + 1;
            return Action::Start(i);
        }
        if self.running > 0 {
            return Action::Wait;
        }
        proof {
            law_deciding_is_sound(m, Action::Done, m.abandoned());
        }
        self.give_up();
        Action::Done
    }

    /// Takes note that running step `i` has finished with an exit code.
    pub fn finish(&mut self, i: usize, exit: i64)
        requires
            old(self).wf(),
            i < old(self)@.size(),
            old(self)@.phases[i as int] == Phase::Running,
        ensures
            final(self).wf(),
            final(self)@ == old(self)@.finished(i as int, exit),
    {
        let ghost m = self@;
        proof {
            law_finishing_is_sound(m, i as int, exit);
            lemma_counts_update(self.phases@, i as int, Phase::Finished, self.phases@.len() as int);
            lemma_counts(self.phases@, self.phases@.len() as int);
            lemma_counts(
                self.phases@.update(i as int, Phase::Finished),
                self.phases@.len() as int,
            );
        }
        self.graph.retire(&mut self.counts, &mut self.done, i);
        self.phases.set(i, Phase::Finished);
        self.running = self.running - 1;
        if exit != 0 {
            self.failed = true;
        }
        join_queue(
            &self.graph,
            &self.counts,
            &self.done,
            &self.phases,
            &mut self.queue,
            Ghost(m.ended(i as int, exit)),
        );
    }
}

} // verus!
