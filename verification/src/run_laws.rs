//! What holds of every run of a batch: what starts and when, what a finished
//! step changes, and what is reported in the end.

use vstd::prelude::*;
use crate::batch;
use crate::batch::BatchModel;
use crate::graph;
use crate::protocol::RequestModel;
use crate::protocol::ResultModel;
use crate::schedule;
use crate::schedule::Action;
use crate::schedule::Phase;
use crate::schedule::ScheduleModel;
use crate::validation;

verus! {

// ---------- the beginning ----------

/// As many steps may run at a time as a request says, but at least one and at
/// most fifty; six where it does not say.
pub proof fn law_limit(c: usize)
    ensures
        schedule::limit_of(None) == 6,
        c == 0 ==> schedule::limit_of(Some(c)) == 1,
        1 <= c <= 50 ==> schedule::limit_of(Some(c)) == c,
        c > 50 ==> schedule::limit_of(Some(c)) == 50,
{
}

/// In the beginning every step of a request waits, none has a result and
/// nothing has failed. Steps without a time limit get that of the request, or
/// half a minute where it has none.
pub proof fn law_beginning(req: RequestModel, i: int)
    ensures
        ({
            let m = batch::initial(req);
            let n = if req.commands.len() > 0 {
                req.commands.len()
            } else {
                req.steps.len()
            };
            &&& m.steps == validation::layout_steps(req)
            &&& m.steps.len() == n
            &&& m.results.len() == n
            &&& m.schedule.phases.len() == n
            &&& 0 <= i < n ==> m.results[i] is None && m.schedule.phases[i] == Phase::Waiting
            &&& !m.schedule.failed
            &&& m.schedule.keep_going == req.keep_going
            &&& m.schedule.limit == schedule::limit_of(req.concurrency)
            &&& req.timeout_ms matches Some(t) ==> m.timeout_ms == t
            &&& req.timeout_ms is None ==> m.timeout_ms == 30000
        }),
{
}

// ---------- what runs ----------

/// The running ones among the first `k` steps, in order.
proof fn lemma_running_steps(phases: Seq<Phase>, k: int) -> (l: Seq<int>)
    requires
        0 <= k <= phases.len(),
    ensures
        l.len() == schedule::running_among(phases, k),
        forall|a: int| 0 <= a < l.len() ==> 0 <= #[trigger] l[a] < k,
        forall|a: int| 0 <= a < l.len() ==> phases[#[trigger] l[a]] == Phase::Running,
        forall|a: int, b: int| 0 <= a < b < l.len() ==> #[trigger] l[a] < #[trigger] l[b],
    decreases k,
{
    if k == 0 {
        Seq::empty()
    } else {
        let front = lemma_running_steps(phases, k - 1);
        if phases[k - 1] == Phase::Running {
            front.push(k - 1)
        } else {
            front
        }
    }
}

/// Any different running steps among the first `k` are no more than there are.
proof fn lemma_running_bound(phases: Seq<Phase>, k: int, l: Seq<int>)
    requires
        0 <= k <= phases.len(),
        forall|a: int| 0 <= a < l.len() ==> 0 <= #[trigger] l[a] < k,
        forall|a: int| 0 <= a < l.len() ==> phases[#[trigger] l[a]] == Phase::Running,
        forall|a: int, b: int| 0 <= a < b < l.len() ==> #[trigger] l[a] < #[trigger] l[b],
    ensures
        l.len() <= schedule::running_among(phases, k),
    decreases k,
{
    if k == 0 {
        if l.len() > 0 {
            assert(0 <= l[0] < 0);
        }
    } else if l.len() > 0 && l.last() == k - 1 {
        let t = l.drop_last();
        assert(phases[l[l.len() - 1]] == Phase::Running);
        assert forall|a: int| 0 <= a < t.len() implies 0 <= #[trigger] t[a] < k - 1 by {
            assert(t[a] == l[a]);
            assert(l[a] < l[l.len() - 1]);
        }
        assert forall|a: int| 0 <= a < t.len() implies phases[#[trigger] t[a]]
            == Phase::Running by {
            assert(t[a] == l[a]);
        }
        lemma_running_bound(phases, k - 1, t);
    } else {
        assert forall|a: int| 0 <= a < l.len() implies 0 <= #[trigger] l[a] < k - 1 by {
            if a < l.len() - 1 {
                assert(l[a] < l[l.len() - 1]);
            }
        }
        lemma_running_bound(phases, k - 1, l);
    }
}

/// Never do more steps run than are allowed: whichever steps one picks that
/// run, they are no more than the limit.
pub proof fn law_no_more_run_than_allowed(m: ScheduleModel, l: Seq<int>)
    requires
        m.is_sound(),
        forall|a: int| 0 <= a < l.len() ==> 0 <= #[trigger] l[a] < m.phases.len(),
        forall|a: int| 0 <= a < l.len() ==> m.phases[#[trigger] l[a]] == Phase::Running,
        forall|a: int, b: int| 0 <= a < b < l.len() ==> #[trigger] l[a] < #[trigger] l[b],
    ensures
        l.len() <= m.limit,
{
    lemma_running_bound(m.phases, m.size(), l);
}

/// A step starts only where it has waited, each step that it waits for has a
/// result, and, unless the batch goes on after failures, no step has failed.
pub proof fn law_start_is_due(m: BatchModel, i: usize, next: ScheduleModel)
    requires
        m.is_consistent(),
        m.schedule.decides(Action::Start(i), next),
    ensures
        i < m.steps.len(),
        m.schedule.phases[i as int] == Phase::Waiting,
        m.results[i as int] is None,
        forall|f: int|
            0 <= f < m.steps.len() && #[trigger] m.schedule.links.contains((f, i as int))
                ==> m.results[f] is Some,
        m.schedule.keep_going || forall|j: int|
            0 <= j < m.steps.len() && (#[trigger] m.results[j]) is Some ==> m.results[j]->0.exit
                == 0,
{
    schedule::law_deciding_is_sound(m.schedule, Action::Start(i), next);
    assert(m.schedule.is_ready(i as int));
    assert(m.results[i as int] is Some <==> m.schedule.phases[i as int] == Phase::Finished);
    assert forall|f: int|
        0 <= f < m.steps.len() && #[trigger] m.schedule.links.contains(
            (f, i as int),
        ) implies m.results[f] is Some by {
        assert(m.schedule.phases[f] == Phase::Finished);
        assert(m.results[f] is Some <==> m.schedule.phases[f] == Phase::Finished);
    }
}

/// No step waits in vain: where one waits only for steps that have finished,
/// and no failure stops the batch, either a step starts or as many run as are
/// allowed; these are given.
pub proof fn law_no_step_waits_in_vain(
    m: ScheduleModel,
    action: Action,
    next: ScheduleModel,
    w: int,
) -> (l: Seq<int>)
    requires
        m.is_sound(),
        m.decides(action, next),
        !m.failed || m.keep_going,
        0 <= w < m.phases.len(),
        m.phases[w] == Phase::Waiting,
        forall|f: int|
            0 <= f < m.phases.len() && #[trigger] m.links.contains((f, w)) ==> m.phases[f]
                == Phase::Finished,
    ensures
        action is Start || l.len() == m.limit,
        forall|a: int| 0 <= a < l.len() ==> 0 <= #[trigger] l[a] < m.phases.len(),
        forall|a: int| 0 <= a < l.len() ==> m.phases[#[trigger] l[a]] == Phase::Running,
        forall|a: int, b: int| 0 <= a < b < l.len() ==> #[trigger] l[a] < #[trigger] l[b],
{
    assert(m.is_ready(w));
    assert(m.queue.contains(w));
    lemma_running_steps(m.phases, m.size())
}

/// What is decided changes only what it must. A start sets one step running.
/// Waiting is for a running step, and changes nothing but that, after a
/// failure that stops the batch, the waiting steps are skipped. The batch is
/// done where no step runs; then none is left waiting.
pub proof fn law_decision_changes_little(m: ScheduleModel, action: Action, next: ScheduleModel)
    requires
        m.is_sound(),
        m.decides(action, next),
    ensures
        next.links == m.links,
        next.failed == m.failed,
        next.keep_going == m.keep_going,
        next.limit == m.limit,
        next.phases.len() == m.phases.len(),
        action matches Action::Start(i) ==> next.phases[i as int] == Phase::Running && forall|j: int|
            0 <= j < m.phases.len() && j != i ==> #[trigger] next.phases[j] == m.phases[j],
        action is Wait ==> exists|j: int|
            0 <= j < m.phases.len() && #[trigger] m.phases[j] == Phase::Running,
        action is Wait && (!m.failed || m.keep_going) ==> next == m,
        action is Wait || action is Done ==> forall|j: int|
            0 <= j < m.phases.len() ==> (#[trigger] next.phases[j] == m.phases[j] || (m.phases[j]
                == Phase::Waiting && next.phases[j] == Phase::Skipped)),
        action is Done ==> forall|j: int|
            0 <= j < m.phases.len() ==> #[trigger] next.phases[j] == Phase::Finished
                || next.phases[j] == Phase::Skipped,
        action is Done ==> forall|j: int|
            0 <= j < m.phases.len() ==> #[trigger] m.phases[j] != Phase::Running,
        m.failed && !m.keep_going ==> forall|j: int|
            0 <= j < m.phases.len() ==> #[trigger] next.phases[j] != Phase::Waiting,
{
    schedule::law_deciding_is_sound(m, action, next);
    if action is Wait {
        let l = lemma_running_steps(m.phases, m.size());
        assert(m.phases[l[0]] == Phase::Running);
    }
    if action is Done {
        schedule::law_done_is_settled(m, next);
        assert forall|j: int| 0 <= j < m.phases.len() implies #[trigger] m.phases[j]
            != Phase::Running by {
            if m.phases[j] == Phase::Running {
                lemma_running_bound(m.phases, m.size(), seq![j]);
            }
        }
    }
}

/// A batch whose schedule moves on keeps its steps, results and time limit.
pub proof fn law_moving_on_keeps_results(m: BatchModel, next: ScheduleModel)
    ensures
        m.moved(next).schedule == next,
        m.moved(next).steps == m.steps,
        m.moved(next).results == m.results,
        m.moved(next).timeout_ms == m.timeout_ms,
{
}

/// A step that finishes has its result from then on and is finished; the batch
/// has failed from then on where it had before or the step did not exit with
/// 0. Nothing else of it changes.
pub proof fn law_finish_changes_little(m: BatchModel, i: int, r: ResultModel)
    requires
        0 <= i < m.results.len(),
        m.results.len() == m.schedule.phases.len(),
    ensures
        ({
            let b = m.completed(i, r);
            &&& b.results.len() == m.results.len()
            &&& b.results[i] == Some(r)
            &&& forall|j: int|
                0 <= j < m.results.len() && j != i ==> #[trigger] b.results[j] == m.results[j]
            &&& b.schedule.phases.len() == m.schedule.phases.len()
            &&& b.schedule.phases[i] == Phase::Finished
            &&& forall|j: int|
                0 <= j < m.schedule.phases.len() && j != i ==> #[trigger] b.schedule.phases[j]
                    == m.schedule.phases[j]
            &&& b.schedule.failed <==> m.schedule.failed || r.exit != 0
            &&& b.schedule.links == m.schedule.links
            &&& b.schedule.keep_going == m.schedule.keep_going
            &&& b.schedule.limit == m.schedule.limit
            &&& b.steps == m.steps
            &&& b.timeout_ms == m.timeout_ms
        }),
{
}

/// Steps that become ready together join the queue in their order, behind
/// those that stand in it.
pub proof fn law_queue_is_in_order(m: ScheduleModel, i: int, exit: i64)
    ensures
        ({
            let q = m.finished(i, exit).queue;
            let n = m.queue.len() as int;
            &&& q.len() >= n
            &&& forall|a: int| 0 <= a < n ==> #[trigger] q[a] == m.queue[a]
            &&& forall|a: int, b: int| n <= a < b < q.len() ==> #[trigger] q[a] < #[trigger] q[b]
        }),
{
    let e = m.ended(i, exit);
    lemma_fresh_in_order(e, e.size());
    let fresh = e.fresh_among(e.size());
    let q = m.finished(i, exit).queue;
    let n = m.queue.len() as int;
    assert forall|a: int, b: int| n <= a < b < q.len() implies #[trigger] q[a] < #[trigger] q[b] by {
        assert(q[a] == fresh[a - n] && q[b] == fresh[b - n]);
    }
}

/// In the beginning the steps that wait for none stand in the queue, in their
/// order.
pub proof fn law_first_queue_is_in_order(
    n: nat,
    links: Set<(int, int)>,
    keep_going: bool,
    limit: int,
)
    requires
        1 <= limit,
    ensures
        ({
            let q = schedule::unstarted(n, links, keep_going, limit).queue;
            &&& forall|a: int, b: int| 0 <= a < b < q.len() ==> #[trigger] q[a] < #[trigger] q[b]
            &&& forall|i: int| #[trigger]
                q.contains(i) <==> 0 <= i < n && forall|f: int|
                    0 <= f < n ==> !#[trigger] links.contains((f, i))
        }),
{
    schedule::law_initial_is_sound(n, links, keep_going, limit);
    let m = schedule::unstarted(n, links, keep_going, limit);
    let none = ScheduleModel { queue: Seq::empty(), ..m };
    lemma_fresh_in_order(none, none.size());
    assert(m.queue =~= none.fresh_among(none.size()));
    assert forall|i: int| #[trigger] m.queue.contains(i) <==> 0 <= i < n && forall|f: int|
        0 <= f < n ==> !#[trigger] links.contains((f, i)) by {
        assert(m.queue.contains(i) <==> m.is_ready(i));
        if m.is_ready(i) {
            assert forall|f: int| 0 <= f < n implies !#[trigger] links.contains((f, i)) by {
                if links.contains((f, i)) {
                    assert(m.links.contains((f, i)));
                    assert(m.phases[f] == Phase::Finished);
                }
            }
        }
    }
}

/// The steps that became ready are taken in order.
proof fn lemma_fresh_in_order(m: ScheduleModel, k: int)
    ensures
        forall|a: int|
            0 <= a < m.fresh_among(k).len() ==> 0 <= #[trigger] m.fresh_among(k)[a] < k,
        forall|a: int, b: int|
            0 <= a < b < m.fresh_among(k).len() ==> #[trigger] m.fresh_among(k)[a]
                < #[trigger] m.fresh_among(k)[b],
    decreases k,
{
    if k > 0 {
        lemma_fresh_in_order(m, k - 1);
        let front = m.fresh_among(k - 1);
        let all = m.fresh_among(k);
        assert forall|a: int| 0 <= a < all.len() implies 0 <= #[trigger] all[a] < k by {
            if a < front.len() {
                assert(all[a] == front[a]);
            }
        }
        assert forall|a: int, b: int| 0 <= a < b < all.len() implies #[trigger] all[a]
            < #[trigger] all[b] by {
            assert(all[a] == front[a]);
            if b < front.len() {
                assert(all[b] == front[b]);
            }
        }
    }
}

// ---------- the end ----------

/// Steps of a valid request are skipped only after a failure that stops the
/// batch.
pub proof fn law_skipped_only_after_a_failure(req: RequestModel, m: BatchModel, i: int)
    requires
        validation::problem(req) is None,
        m.is_consistent(),
        m.steps.len() == validation::layout_steps(req).len(),
        m.schedule.links == batch::initial(req).schedule.links,
        0 <= i < m.steps.len(),
        m.schedule.phases[i] == Phase::Skipped,
    ensures
        !m.schedule.keep_going,
        exists|j: int|
            0 <= j < m.steps.len() && (#[trigger] m.results[j]) is Some && m.results[j]->0.exit
                != 0,
{
    let ids = validation::ids_of(req.flat());
    assert(!graph::has_stuck(ids.len() as int, m.schedule.links));
    assert(m.schedule.stopping() || graph::has_stuck(m.schedule.size(), m.schedule.links));
}

/// The results are reported in the order of the steps, one for each step that
/// has one: the numbers of these steps are given.
pub proof fn law_results_in_order(m: BatchModel) -> (at: Seq<int>)
    requires
        m.results.len() == m.steps.len(),
    ensures
        at.len() == m.all_results().len(),
        forall|a: int, b: int| 0 <= a < b < at.len() ==> #[trigger] at[a] < #[trigger] at[b],
        forall|a: int|
            0 <= a < at.len() ==> 0 <= #[trigger] at[a] < m.results.len() && m.results[at[a]]
                == Some(m.all_results()[a]),
        forall|i: int|
            0 <= i < m.results.len() && (#[trigger] m.results[i]) is Some ==> at.contains(i),
{
    lemma_results_in_order(m.results, m.size())
}

/// The results of the first `k` steps, in order.
proof fn lemma_results_in_order(slots: Seq<Option<ResultModel>>, k: int) -> (at: Seq<int>)
    requires
        0 <= k <= slots.len(),
    ensures
        at.len() == batch::results_among(slots, k).len(),
        forall|a: int, b: int| 0 <= a < b < at.len() ==> #[trigger] at[a] < #[trigger] at[b],
        forall|a: int|
            0 <= a < at.len() ==> 0 <= #[trigger] at[a] < k && slots[at[a]] == Some(
                batch::results_among(slots, k)[a],
            ),
        forall|i: int| 0 <= i < k && (#[trigger] slots[i]) is Some ==> at.contains(i),
    decreases k,
{
    if k == 0 {
        Seq::empty()
    } else {
        let front = lemma_results_in_order(slots, k - 1);
        if slots[k - 1] is Some {
            let at = front.push(k - 1);
            assert forall|i: int| 0 <= i < k && (#[trigger] slots[i]) is Some implies at.contains(
                i,
            ) by {
                if i == k - 1 {
                    assert(at[front.len() as int] == i);
                } else {
                    assert(front.contains(i));
                    let a = choose|a: int| 0 <= a < front.len() && front[a] == i;
                    assert(at[a] == i);
                }
            }
            at
        } else {
            front
        }
    }
}

/// The ids of the skipped steps are reported in the order of the steps, one
/// for each step that was skipped: the numbers of these steps are given.
pub proof fn law_skipped_in_order(m: BatchModel) -> (at: Seq<int>)
    requires
        m.schedule.phases.len() == m.steps.len(),
    ensures
        at.len() == m.all_skipped().len(),
        forall|a: int, b: int| 0 <= a < b < at.len() ==> #[trigger] at[a] < #[trigger] at[b],
        forall|a: int|
            0 <= a < at.len() ==> 0 <= #[trigger] at[a] < m.steps.len() && m.schedule.phases[at[a]]
                == Phase::Skipped && m.all_skipped()[a] == m.steps[at[a]].id->0,
        forall|i: int|
            0 <= i < m.steps.len() && #[trigger] m.schedule.phases[i] == Phase::Skipped
                ==> at.contains(i),
{
    lemma_skipped_in_order(m, m.size())
}

/// The skipped ones among the first `k` steps, in order.
proof fn lemma_skipped_in_order(m: BatchModel, k: int) -> (at: Seq<int>)
    requires
        0 <= k <= m.steps.len(),
        m.schedule.phases.len() == m.steps.len(),
    ensures
        at.len() == batch::skipped_among(m.steps, m.schedule.phases, k).len(),
        forall|a: int, b: int| 0 <= a < b < at.len() ==> #[trigger] at[a] < #[trigger] at[b],
        forall|a: int|
            0 <= a < at.len() ==> 0 <= #[trigger] at[a] < k && m.schedule.phases[at[a]]
                == Phase::Skipped && batch::skipped_among(m.steps, m.schedule.phases, k)[a]
                == m.steps[at[a]].id->0,
        forall|i: int|
            0 <= i < k && #[trigger] m.schedule.phases[i] == Phase::Skipped ==> at.contains(i),
    decreases k,
{
    if k == 0 {
        Seq::empty()
    } else {
        let front = lemma_skipped_in_order(m, k - 1);
        if m.schedule.phases[k - 1] == Phase::Skipped {
            let at = front.push(k - 1);
            assert forall|i: int|
                0 <= i < k && #[trigger] m.schedule.phases[i] == Phase::Skipped implies at.contains(
                i,
            ) by {
                if i == k - 1 {
                    assert(at[front.len() as int] == i);
                } else {
                    assert(front.contains(i));
                    let a = choose|a: int| 0 <= a < front.len() && front[a] == i;
                    assert(at[a] == i);
                }
            }
            at
        } else {
            front
        }
    }
}

/// A response is reported as well exactly where some step ran, every step
/// that ran exited with 0, and none was skipped.
pub proof fn law_ok_exactly(m: BatchModel)
    requires
        m.results.len() == m.steps.len(),
        m.schedule.phases.len() == m.steps.len(),
    ensures
        batch::is_ok(m.all_results(), m.all_skipped()) <==> {
            &&& exists|i: int| 0 <= i < m.results.len() && (#[trigger] m.results[i]) is Some
            &&& forall|i: int|
                0 <= i < m.results.len() && (#[trigger] m.results[i]) is Some
                    ==> m.results[i]->0.exit == 0
            &&& forall|i: int|
                0 <= i < m.steps.len() ==> #[trigger] m.schedule.phases[i] != Phase::Skipped
        },
{
    let at = law_results_in_order(m);
    let sk = law_skipped_in_order(m);
    let all = m.all_results();
    if batch::is_ok(all, m.all_skipped()) {
        assert(m.results[at[0]] == Some(all[0]));
        assert forall|i: int|
            0 <= i < m.results.len() && (#[trigger] m.results[i]) is Some implies m.results[i]->0.exit
            == 0 by {
            assert(at.contains(i));
            let a = choose|a: int| 0 <= a < at.len() && at[a] == i;
            assert(m.results[at[a]] == Some(all[a]));
            assert(all[a].exit == 0);
        }
        assert forall|i: int| 0 <= i < m.steps.len() implies #[trigger] m.schedule.phases[i]
            != Phase::Skipped by {
            if m.schedule.phases[i] == Phase::Skipped {
                assert(sk.contains(i));
            }
        }
    }
    if {
        &&& exists|i: int| 0 <= i < m.results.len() && (#[trigger] m.results[i]) is Some
        &&& forall|i: int|
            0 <= i < m.results.len() && (#[trigger] m.results[i]) is Some ==> m.results[i]->0.exit
                == 0
        &&& forall|i: int|
            0 <= i < m.steps.len() ==> #[trigger] m.schedule.phases[i] != Phase::Skipped
    } {
        let i = choose|i: int| 0 <= i < m.results.len() && (#[trigger] m.results[i]) is Some;
        assert(at.contains(i));
        assert forall|a: int| 0 <= a < all.len() implies (#[trigger] all[a]).exit == 0 by {
            assert(m.results[at[a]] == Some(all[a]));
        }
        if sk.len() > 0 {
            assert(m.schedule.phases[sk[0]] == Phase::Skipped);
        }
    }
}

} // verus!
