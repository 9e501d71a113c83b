//! Running a batch: from the request, through its steps, to the response.

use vstd::prelude::*;
use crate::protocol;
use crate::protocol::Artifact;
use crate::protocol::BatchError;
use crate::protocol::BatchRequest;
use crate::protocol::BatchResponse;
use crate::protocol::RequestModel;
use crate::protocol::ResultModel;
use crate::protocol::Step;
use crate::protocol::StepModel;
use crate::protocol::StepResult;
use crate::protocol::DEFAULT_TIMEOUT_MS;
use crate::schedule;
use crate::schedule::Action;
use crate::schedule::Phase;
use crate::schedule::ScheduleModel;
use crate::schedule::Scheduler;
use crate::text;
use crate::validation;

verus! {

// ---------- the model ----------

/// A batch under way.
pub struct BatchModel {
    pub steps: Seq<StepModel>,
    pub schedule: ScheduleModel,
    /// The result of each step that has one.
    pub results: Seq<Option<ResultModel>>,
    /// The time limit of steps that have none of their own.
    pub timeout_ms: u64,
}

/// The results that `v` holds.
pub open spec fn result_models(v: Seq<StepResult>) -> Seq<ResultModel> {
    v.map_values(|r: StepResult| r@)
}

/// The results that `v` holds, where it holds one.
pub open spec fn slot_models(v: Seq<Option<StepResult>>) -> Seq<Option<ResultModel>> {
    v.map_values(
        |r: Option<StepResult>|
            match r {
                Some(x) => Some(x@),
                None => None,
            },
    )
}

/// The batch of a valid request, before anything has happened.
pub open spec fn initial(req: RequestModel) -> BatchModel {
    BatchModel {
        steps: validation::layout_steps(req),
        schedule: schedule::unstarted(
            req.flat().len(),
            validation::links_of(validation::ids_of(req.flat()), validation::layout_edges(req)),
            req.keep_going,
            schedule::limit_of(req.concurrency),
        ),
        results: Seq::new(req.flat().len(), |i: int| None),
        timeout_ms: match req.timeout_ms {
            Some(t) => t,
            None => DEFAULT_TIMEOUT_MS,
        },
    }
}

/// The results among the first `k` slots, in order.
pub open spec fn results_among(slots: Seq<Option<ResultModel>>, k: int) -> Seq<ResultModel>
    decreases k,
{
    if k <= 0 {
        Seq::empty()
    } else {
        match slots[k - 1] {
            Some(r) => results_among(slots, k - 1).push(r),
            None => results_among(slots, k - 1),
        }
    }
}

/// The ids of results.
pub open spec fn ids_of_results(results: Seq<ResultModel>) -> Seq<Seq<char>> {
    results.map_values(|r: ResultModel| r.id)
}

/// The ids of the skipped ones among the first `k` steps, in order.
pub open spec fn skipped_among(steps: Seq<StepModel>, phases: Seq<Phase>, k: int) -> Seq<Seq<char>>
    decreases k,
{
    if k <= 0 {
        Seq::empty()
    } else if phases[k - 1] == Phase::Skipped {
        skipped_among(steps, phases, k - 1).push(steps[k - 1].id->0)
    } else {
        skipped_among(steps, phases, k - 1)
    }
}

/// Some step ran, all that ran exited with 0, and none was skipped.
pub open spec fn is_ok(results: Seq<ResultModel>, skipped: Seq<Seq<char>>) -> bool {
    &&& results.len() > 0
    &&& forall|i: int| 0 <= i < results.len() ==> (#[trigger] results[i]).exit == 0
    &&& skipped.len() == 0
}

impl BatchModel {
    /// How many steps there are.
    pub open spec fn size(self) -> int {
        self.steps.len() as int
    }

    /// The ids of the steps, in order.
    pub open spec fn step_ids(self) -> Seq<Seq<char>> {
        Seq::new(self.steps.len(), |i: int| self.steps[i].id->0)
    }

    /// The ids under which results are reported, in order.
    pub open spec fn result_ids(self) -> Seq<Seq<char>> {
        ids_of_results(self.all_results())
    }

    /// The results, in the order of the steps.
    pub open spec fn all_results(self) -> Seq<ResultModel> {
        results_among(self.results, self.size())
    }

    /// The ids of the skipped steps, in order.
    pub open spec fn all_skipped(self) -> Seq<Seq<char>> {
        skipped_among(self.steps, self.schedule.phases, self.size())
    }

    /// The batch after its schedule has moved on.
    pub open spec fn moved(self, schedule: ScheduleModel) -> BatchModel {
        BatchModel {
            steps: self.steps,
            schedule,
            results: self.results,
            timeout_ms: self.timeout_ms,
        }
    }

    /// The batch after step `i` has finished with a result.
    pub open spec fn completed(self, i: int, r: ResultModel) -> BatchModel {
        BatchModel {
            steps: self.steps,
            schedule: self.schedule.finished(i, r.exit),
            results: self.results.update(i, Some(r)),
            timeout_ms: self.timeout_ms,
        }
    }

    /// Steps have ids, all different; exactly the finished steps have results,
    /// each under its step's id; the batch has failed where one of them is not
    /// 0. Unless the batch goes on after failures, a step runs only behind
    /// steps that exited with 0.
    pub open spec fn is_consistent(self) -> bool {
        &&& self.schedule.is_sound()
        &&& self.schedule.size() == self.size()
        &&& self.results.len() == self.size()
        &&& forall|i: int| 0 <= i < self.size() ==> (#[trigger] self.steps[i]).id is Some
        &&& validation::all_differ(self.step_ids())
        &&& forall|i: int|
            0 <= i < self.size() && (#[trigger] self.results[i]) is Some ==> self.results[i]->0.id
                == self.step_ids()[i]
        &&& forall|i: int|
            0 <= i < self.size() ==> (#[trigger] self.results[i] is Some <==> self.schedule.phases[i]
                == Phase::Finished)
        &&& self.schedule.failed <==> exists|i: int|
            0 <= i < self.size() && (#[trigger] self.results[i]) is Some && self.results[i]->0.exit
                != 0
        &&& !self.schedule.keep_going ==> forall|f: int, t: int|
            0 <= f < self.size() && 0 <= t < self.size() && #[trigger] self.schedule.links.contains(
                (f, t),
            ) && self.has_run(t) ==> self.succeeded(f)
    }

    /// Step `i` is running or has finished.
    pub open spec fn has_run(self, i: int) -> bool {
        self.schedule.phases[i] == Phase::Running || self.schedule.phases[i] == Phase::Finished
    }

    /// Step `i` has finished and exited with 0.
    pub open spec fn succeeded(self, i: int) -> bool {
        self.results[i] is Some && self.results[i]->0.exit == 0
    }
}

// ---------- laws ----------

/// What a batch decides keeps it consistent.
pub proof fn law_deciding_is_consistent(m: BatchModel, action: Action, next: ScheduleModel)
    requires
        m.is_consistent(),
        m.schedule.decides(action, next),
    ensures
        m.moved(next).is_consistent(),
{
    schedule::law_deciding_is_sound(m.schedule, action, next);
    let b = m.moved(next);
    assert forall|i: int| 0 <= i < b.size() implies (#[trigger] b.results[i] is Some
        <==> b.schedule.phases[i] == Phase::Finished) by {
        assert(m.results[i] is Some <==> m.schedule.phases[i] == Phase::Finished);
    }
    assert(b.schedule.failed == m.schedule.failed);
    assert(b.results == m.results);
    assert(b.step_ids() =~= m.step_ids());
    if !m.schedule.keep_going {
        assert forall|f: int, t: int|
            0 <= f < b.size() && 0 <= t < b.size() && #[trigger] b.schedule.links.contains((f, t))
                && b.has_run(t) implies b.succeeded(f) by {
            if !m.has_run(t) {
                assert(action is Start && action->0 as int == t);
                assert(m.schedule.parents_finished(t));
                assert(m.schedule.phases[f] == Phase::Finished);
                assert(m.results[f] is Some);
                assert(!m.schedule.failed);
            }
        }
    }
}

/// A step that finishes keeps the batch consistent.
pub proof fn law_completing_is_consistent(m: BatchModel, i: int, r: ResultModel)
    requires
        m.is_consistent(),
        0 <= i < m.size(),
        m.schedule.phases[i] == Phase::Running,
        r.id == m.steps[i].id->0,
    ensures
        m.completed(i, r).is_consistent(),
{
    schedule::law_finishing_is_sound(m.schedule, i, r.exit);
    let b = m.completed(i, r);
    assert(b.step_ids() =~= m.step_ids());
    assert forall|j: int| 0 <= j < b.size() && (#[trigger] b.results[j]) is Some implies b.results[j]->0.id
        == b.step_ids()[j] by {
        if j != i {
            assert(b.results[j] == m.results[j]);
        }
    }
    assert forall|j: int| 0 <= j < b.size() implies (#[trigger] b.results[j] is Some
        <==> b.schedule.phases[j] == Phase::Finished) by {
        assert(m.results[j] is Some <==> m.schedule.phases[j] == Phase::Finished);
    }
    assert(m.results[i] is None);
    if !m.schedule.keep_going {
        assert forall|f: int, t: int|
            0 <= f < b.size() && 0 <= t < b.size() && #[trigger] b.schedule.links.contains((f, t))
                && b.has_run(t) implies b.succeeded(f) by {
            assert(m.has_run(t));
            assert(m.schedule.parents_finished(t));
            assert(m.schedule.phases[f] == Phase::Finished);
            assert(b.results[f] == m.results[f]);
        }
    }
    if m.schedule.failed {
        let j = choose|j: int|
            0 <= j < m.size() && (#[trigger] m.results[j]) is Some && m.results[j]->0.exit != 0;
        assert(b.results[j] == m.results[j]);
    }
    if r.exit != 0 {
        assert(b.results[i] is Some);
    }
    if exists|j: int|
        0 <= j < b.size() && (#[trigger] b.results[j]) is Some && b.results[j]->0.exit != 0 {
        let j = choose|j: int|
            0 <= j < b.size() && (#[trigger] b.results[j]) is Some && b.results[j]->0.exit != 0;
        if j != i {
            assert(m.results[j] == b.results[j]);
        }
    }
}

/// The results of the first `k` steps and the skipped ones among them.
proof fn lemma_partition(m: BatchModel, k: int)
    requires
        m.is_consistent(),
        m.schedule.is_settled(),
        0 <= k <= m.size(),
    ensures
        results_among(m.results, k).len() + skipped_among(
            m.steps,
            m.schedule.phases,
            k,
        ).len() == k,
        skipped_among(m.steps, m.schedule.phases, k).len() == 0 <==> (forall|i: int|
            0 <= i < k ==> (#[trigger] m.results[i]) is Some),
        skipped_among(m.steps, m.schedule.phases, k).len() == 0 ==> forall|i: int|
            0 <= i < k ==> results_among(m.results, k)[i] == (#[trigger] m.results[i])->0,
    decreases k,
{
    if k > 0 {
        lemma_partition(m, k - 1);
        assert(m.results[k - 1] is Some <==> m.schedule.phases[k - 1] == Phase::Finished);
        assert(m.schedule.phases[k - 1] == Phase::Finished || m.schedule.phases[k - 1]
            == Phase::Skipped);
        if skipped_among(m.steps, m.schedule.phases, k).len() == 0 {
            assert(forall|i: int| 0 <= i < k - 1 ==> (#[trigger] m.results[i]) is Some);
            assert forall|i: int| 0 <= i < k implies results_among(m.results, k)[i] == (
            #[trigger] m.results[i])->0 by {
                if i < k - 1 {
                    assert(results_among(m.results, k - 1)[i] == m.results[i]->0);
                }
            }
        }
        if forall|i: int| 0 <= i < k ==> (#[trigger] m.results[i]) is Some {
            assert(m.results[k - 1] is Some);
        }
    }
}

/// The ids reported of the first `k` steps, with or without a result, are the
/// ids of these steps.
proof fn lemma_ids_partition(m: BatchModel, k: int)
    requires
        m.is_consistent(),
        m.schedule.is_settled(),
        0 <= k <= m.size(),
    ensures
        ids_of_results(results_among(m.results, k)).to_multiset().add(
            skipped_among(m.steps, m.schedule.phases, k).to_multiset(),
        ) == m.step_ids().take(k).to_multiset(),
    decreases k,
{
    broadcast use vstd::seq_lib::group_to_multiset_ensures;

    let none = Seq::<Seq<char>>::empty();
    if k == 0 {
        assert(m.step_ids().take(0) =~= none);
        assert(ids_of_results(results_among(m.results, 0)) =~= none);
        assert(none.to_multiset().len() == 0);
        assert(none.to_multiset().add(none.to_multiset()) =~= none.to_multiset());
    } else {
        lemma_ids_partition(m, k - 1);
        let ran = results_among(m.results, k - 1);
        let skipped = skipped_among(m.steps, m.schedule.phases, k - 1);
        let id = m.step_ids()[k - 1];
        assert(m.step_ids().take(k) =~= m.step_ids().take(k - 1).push(id));
        assert(m.schedule.phases[k - 1] == Phase::Finished || m.schedule.phases[k - 1]
            == Phase::Skipped);
        assert(m.results[k - 1] is Some <==> m.schedule.phases[k - 1] == Phase::Finished);
        if m.results[k - 1] is Some {
            assert(ids_of_results(results_among(m.results, k)) =~= ids_of_results(ran).push(id));
        }
        assert(ids_of_results(results_among(m.results, k)).to_multiset().add(
            skipped_among(m.steps, m.schedule.phases, k).to_multiset(),
        ) =~= m.step_ids().take(k).to_multiset());
    }
}

/// When a batch is done, each of its steps has a result or is listed as
/// skipped: the ids of the results and the skipped ids are together the ids of
/// the steps, each once.
pub proof fn law_every_step_is_accounted_for(m: BatchModel)
    requires
        m.is_consistent(),
        m.schedule.is_settled(),
    ensures
        m.all_results().len() + m.all_skipped().len() == m.size(),
        (m.result_ids() + m.all_skipped()).no_duplicates(),
        forall|id: Seq<char>|
            m.step_ids().contains(id) <==> #[trigger] m.result_ids().contains(id)
                || m.all_skipped().contains(id),
{
    broadcast use vstd::seq_lib::group_to_multiset_ensures;

    let ids = m.step_ids();
    let ran = m.result_ids();
    let skipped = m.all_skipped();
    lemma_partition(m, m.size());
    lemma_ids_partition(m, m.size());
    assert(ids.take(m.size()) =~= ids);
    ids.lemma_multiset_has_no_duplicates();
    vstd::seq_lib::lemma_multiset_commutative(ran, skipped);
    (ran + skipped).lemma_multiset_has_no_duplicates_conv();
    assert forall|id: Seq<char>|
        ids.contains(id) <==> #[trigger] ran.contains(id) || skipped.contains(id) by {
        assert(ids.to_multiset().count(id) == ran.to_multiset().count(id)
            + skipped.to_multiset().count(id));
    }
}

/// The result of each of the first `k` steps that has one is among the
/// results, and each of these is the result of such a step.
proof fn lemma_among(m: BatchModel, k: int)
    requires
        0 <= k <= m.results.len(),
    ensures
        forall|i: int|
            0 <= i < k && (#[trigger] m.results[i]) is Some ==> results_among(
                m.results,
                k,
            ).contains(m.results[i]->0),
        forall|r: ResultModel| #[trigger]
            results_among(m.results, k).contains(r) ==> exists|i: int|
                0 <= i < k && (#[trigger] m.results[i]) == Some(r),
    decreases k,
{
    if k > 0 {
        lemma_among(m, k - 1);
        let front = results_among(m.results, k - 1);
        let all = results_among(m.results, k);
        assert forall|i: int| 0 <= i < k && (#[trigger] m.results[i]) is Some implies all.contains(
            m.results[i]->0,
        ) by {
            if i < k - 1 {
                let j = choose|j: int| 0 <= j < front.len() && front[j] == m.results[i]->0;
                assert(front.contains(m.results[i]->0));
                assert(all[j] == m.results[i]->0);
            } else {
                assert(all[all.len() - 1] == m.results[i]->0);
            }
        }
        assert forall|r: ResultModel| #[trigger] all.contains(r) implies exists|i: int|
            0 <= i < k && (#[trigger] m.results[i]) == Some(r) by {
            let j = choose|j: int| 0 <= j < all.len() && all[j] == r;
            if j < front.len() {
                assert(front[j] == r);
                assert(front.contains(r));
                let i = choose|i: int| 0 <= i < k - 1 && (#[trigger] m.results[i]) == Some(r);
                assert(m.results[i] == Some(r));
            } else {
                assert(m.results[k - 1] == Some(r));
            }
        }
    }
}

/// Unless the batch goes on after failures, a step has a result only where
/// each step that it waits for has one too, and exited with 0.
pub proof fn law_no_step_follows_a_failed_one(m: BatchModel, f: int, t: int, r: ResultModel)
    requires
        m.is_consistent(),
        !m.schedule.keep_going,
        0 <= f < m.size(),
        0 <= t < m.size(),
        m.schedule.links.contains((f, t)),
        m.all_results().contains(r),
        r.id == m.step_ids()[t],
    ensures
        exists|p: ResultModel| #[trigger]
            m.all_results().contains(p) && p.id == m.step_ids()[f] && p.exit == 0,
{
    lemma_among(m, m.size());
    let i = choose|i: int| 0 <= i < m.size() && (#[trigger] m.results[i]) == Some(r);
    assert(m.results[i] is Some);
    assert(m.step_ids()[i] == m.step_ids()[t]);
    assert(i == t) by {
        if i < t {
            assert(m.step_ids()[i] != m.step_ids()[t]);
        }
        if t < i {
            assert(m.step_ids()[t] != m.step_ids()[i]);
        }
    }
    assert(m.has_run(t));
    assert(m.succeeded(f));
    assert(m.all_results().contains(m.results[f]->0));
}

/// When a batch of at least one step is done, it is reported as well exactly
/// where every step ran and exited with 0.
pub proof fn law_ok_means_all_succeeded(m: BatchModel)
    requires
        m.is_consistent(),
        m.schedule.is_settled(),
        m.size() > 0,
    ensures
        is_ok(m.all_results(), m.all_skipped()) <==> (forall|i: int|
            0 <= i < m.size() ==> (#[trigger] m.results[i]) is Some && m.results[i]->0.exit == 0),
{
    lemma_partition(m, m.size());
    let all = m.all_results();
    if is_ok(all, m.all_skipped()) {
        assert forall|i: int| 0 <= i < m.size() implies (#[trigger] m.results[i]) is Some
            && m.results[i]->0.exit == 0 by {
            assert(all[i] == m.results[i]->0);
            assert(all[i].exit == 0);
        }
    }
    if forall|i: int|
        0 <= i < m.size() ==> (#[trigger] m.results[i]) is Some && m.results[i]->0.exit == 0 {
        assert forall|i: int| 0 <= i < all.len() implies (#[trigger] all[i]).exit == 0 by {
            assert(m.results[i] is Some);
            assert(all[i] == m.results[i]->0);
        }
    }
}

/// A valid request that goes on after failures runs every step.
pub proof fn law_keep_going_runs_every_step(req: RequestModel, m: BatchModel, next: ScheduleModel)
    requires
        validation::problem(req) is None,
        req.keep_going,
        m.is_consistent(),
        m.schedule.size() == req.flat().len(),
        m.schedule.links == initial(req).schedule.links,
        m.schedule.keep_going == req.keep_going,
        m.schedule.decides(Action::Done, next),
    ensures
        forall|i: int| 0 <= i < next.size() ==> #[trigger] next.phases[i] == Phase::Finished,
{
    assert(validation::ids_of(req.flat()).len() == req.flat().len());
    schedule::law_all_steps_run(m.schedule, next);
}

/// A batch none of whose steps fails runs every step.
pub proof fn law_success_runs_every_step(req: RequestModel, m: BatchModel, next: ScheduleModel)
    requires
        validation::problem(req) is None,
        m.is_consistent(),
        m.schedule.size() == req.flat().len(),
        m.schedule.links == initial(req).schedule.links,
        forall|i: int|
            0 <= i < m.size() && (#[trigger] m.results[i]) is Some ==> m.results[i]->0.exit == 0,
        m.schedule.decides(Action::Done, next),
    ensures
        forall|i: int| 0 <= i < next.size() ==> #[trigger] next.phases[i] == Phase::Finished,
        is_ok(m.moved(next).all_results(), m.moved(next).all_skipped()),
{
    assert(validation::ids_of(req.flat()).len() == req.flat().len());
    schedule::law_all_steps_run(m.schedule, next);
    law_deciding_is_consistent(m, Action::Done, next);
    schedule::law_done_is_settled(m.schedule, next);
    let b = m.moved(next);
    assert forall|i: int| 0 <= i < b.size() implies (#[trigger] b.results[i]) is Some
        && b.results[i]->0.exit == 0 by {
        assert(next.phases[i] == Phase::Finished);
        assert(m.results[i] == b.results[i]);
    }
    law_ok_means_all_succeeded(b);
}

// ---------- the batch ----------

/// A batch under way.
pub struct Batch {
    steps: Vec<Step>,
    schedule: Scheduler,
    results: Vec<Option<StepResult>>,
    timeout_ms: u64,
}

impl View for Batch {
    type V = BatchModel;

    closed spec fn view(&self) -> BatchModel {
        BatchModel {
            steps: protocol::step_models(self.steps@),
            schedule: self.schedule@,
            results: slot_models(self.results@),
            timeout_ms: self.timeout_ms,
        }
    }
}

impl Batch {
    /// The parts of the batch agree with each other.
    pub closed spec fn wf(self) -> bool {
        &&& self.schedule.wf()
        &&& self@.is_consistent()
    }

    /// Checks a request and lays out its batch.
    pub fn begin(req: &BatchRequest) -> (r: Result<Batch, BatchError>)
        ensures
            match r {
                Ok(b) => {
                    &&& validation::problem(req@) is None
                    &&& b.wf()
                    &&& b@.is_consistent()
                    &&& b@ == initial(req@)
                },
                Err(e) => validation::problem(req@) == Some(e@),
            },
    {
        let (steps, edges) = match validation::validate(req) {
            Ok(pair) => pair,
            Err(e) => {
                return Err(e);
            },
        };
        let n: usize = steps.len();
        let ghost flat = req@.flat();
        let ghost names = validation::ids_of(flat);
        proof {
            validation::law_valid_request(req@);
            assert(protocol::step_models(steps@).len() == flat.len());
        }
        let mut ids: Vec<String> = Vec::new();
        let mut results: Vec<Option<StepResult>> = Vec::new();
        let mut i: usize = 0;
        while i < n
            invariant
                i <= n,
                n == steps@.len(),
                n == flat.len(),
                protocol::step_models(steps@) == validation::with_ids(flat),
                names == validation::ids_of(flat),
                ids@.len() == i,
                forall|j: int| 0 <= j < i ==> (#[trigger] ids@[j])@ == names[j],
                results@.len() == i,
                forall|j: int| 0 <= j < i ==> (#[trigger] results@[j]) is None,
            decreases n - i,
        {
            proof {
                assert(protocol::step_models(steps@)[i as int] == steps@[i as int]@);
                assert(validation::with_ids(flat)[i as int].id == Some(names[i as int]));
            }
            match &steps[i].id {
                Some(id) => ids.push(id.clone()),
                None => ids.push(String::new()),
            }
            results.push(None);
            i += 1;
        }
        assert(text::texts(ids@) =~= names);
        let numbered = validation::number_edges(&ids, &edges);
        let schedule = Scheduler::new(n, &numbered, req.concurrency, req.keep_going);
        let b = Batch {
            steps,
            schedule,
            results,
            timeout_ms: match req.timeout_ms {
                Some(t) => t,
                None => DEFAULT_TIMEOUT_MS,
            },
        };
        proof {
            assert(b@.results =~= initial(req@).results);
            assert forall|i: int| 0 <= i < b@.size() implies (#[trigger] b@.steps[i]).id is Some by {
                assert(validation::with_ids(flat)[i].id is Some);
            }
            assert(b@.step_ids() =~= names);
            assert(b@.schedule == initial(req@).schedule);
            schedule::law_initial_is_sound(
                flat.len(),
                b@.schedule.links,
                req.keep_going,
                b@.schedule.limit,
            );
            assert(forall|i: int|
                0 <= i < b@.size() ==> #[trigger] b@.schedule.phases[i] == Phase::Waiting);
        }
        Ok(b)
    }

    /// How many steps there are.
    pub fn size(&self) -> (r: usize)
        requires
            self.wf(),
        ensures
            r == self@.size(),
    {
        self.steps.len()
    }

    /// Step `i`, with its id.
    pub fn step(&self, i: usize) -> (r: &Step)
        requires
            self.wf(),
            i < self@.size(),
        ensures
            r@ == self@.steps[i as int],
    {
        &self.steps[i]
    }

    /// The time limit of steps that have none of their own.
    pub fn timeout_ms(&self) -> (r: u64)
        ensures
            r == self@.timeout_ms,
    {
        self.timeout_ms
    }

    /// Whether step `i` has started and not finished.
    pub fn is_running(&self, i: usize) -> (r: bool)
        requires
            self.wf(),
            i < self@.size(),
        ensures
            r == (self@.schedule.phases[i as int] == Phase::Running),
    {
        self.schedule.phase(i) == Phase::Running
    }

    /// Decides what to do next.
    pub fn next(&mut self) -> (r: Action)
        requires
            old(self).wf(),
        ensures
            final(self).wf(),
            final(self)@.is_consistent(),
            old(self)@.schedule.decides(r, final(self)@.schedule),
            final(self)@ == old(self)@.moved(final(self)@.schedule),
    {
        let ghost m = self@;
        let r = self.schedule.poll();
        proof {
            law_deciding_is_consistent(m, r, self.schedule@);
        }
        r
    }

    /// Takes the result of running step `i`, reported under its id.
    pub fn complete(&mut self, i: usize, result: StepResult)
        requires
            old(self).wf(),
            i < old(self)@.size(),
            old(self)@.schedule.phases[i as int] == Phase::Running,
            result@.id == old(self)@.steps[i as int].id->0,
        ensures
            final(self).wf(),
            final(self)@.is_consistent(),
            final(self)@ == old(self)@.completed(i as int, result@),
    {
        let ghost m = self@;
        proof {
            law_completing_is_consistent(m, i as int, result@);
        }
        self.schedule.finish(i, result.exit);
        self.results.set(i, Some(result));
        assert(self@.results =~= m.results.update(i as int, Some(result@)));
    }

    /// The response: the results in the order of the steps, and the ids of
    /// the steps that were skipped.
    pub fn respond(self, elapsed_ms: u128, artifacts: Option<Vec<Artifact>>) -> (r: BatchResponse)
        requires
            self.wf(),
        ensures
            result_models(r.results@) == self@.all_results(),
            text::texts(r.skipped@) == self@.all_skipped(),
            r.ok == is_ok(self@.all_results(), self@.all_skipped()),
            r.elapsed_ms == elapsed_ms,
            r.error is None,
            r.artifacts == artifacts,
    {
        let ghost m = self@;
        let n: usize = self.steps.len();
        let Batch { steps, schedule, results: mut slots, timeout_ms: _ } = self;
        let ghost all = slots@;
        let mut results: Vec<StepResult> = Vec::new();
        let mut skipped: Vec<String> = Vec::new();
        let mut clean = true;
        let mut i: usize = 0;
        assert(slots@ =~= all.skip(0));
        assert(result_models(results@) =~= Seq::<ResultModel>::empty());
        assert(text::texts(skipped@) =~= Seq::<Seq<char>>::empty());
        while i < n
            invariant
                i <= n,
                n == m.size(),
                n == all.len(),
                schedule.wf(),
                schedule@ == m.schedule,
                m.is_consistent(),
                m.steps == protocol::step_models(steps@),
                m.results == slot_models(all),
                slots@ == all.skip(i as int),
                result_models(results@) == results_among(m.results, i as int),
                text::texts(skipped@) == skipped_among(m.steps, m.schedule.phases, i as int),
                clean == (forall|j: int|
                    0 <= j < results@.len() ==> (#[trigger] results@[j]).exit == 0),
            decreases n - i,
        {
            let ghost results0 = results@;
            let ghost skipped0 = skipped@;
            proof {
                assert(slots@[0] == all[i as int]);
                assert(m.steps[i as int] == steps@[i as int]@);
                assert(m.steps[i as int].id is Some);
            }
            let slot = slots.remove(0);
            assert(slots@ =~= all.skip(i + 1));
            if let Some(r) = slot {
                if r.exit != 0 {
                    clean = false;
                }
                results.push(r);
                proof {
                    assert(result_models(results@) =~= result_models(results0).push(r@));
                    assert(results@[results0.len() as int] == r);
                    assert forall|j: int| 0 <= j < results0.len() implies results@[j]
                        == #[trigger] results0[j] by {}
                    if clean {
                        assert forall|j: int| 0 <= j < results@.len() implies (
                        #[trigger] results@[j]).exit == 0 by {
                            if j < results0.len() {
                                assert(results0[j].exit == 0);
                            }
                        }
                    }
                    if forall|j: int|
                        0 <= j < results@.len() ==> (#[trigger] results@[j]).exit == 0 {
                        assert forall|j: int| 0 <= j < results0.len() implies (
                        #[trigger] results0[j]).exit == 0 by {
                            assert(results@[j].exit == 0);
                        }
                    }
                }
            }
            if schedule.phase(i) == Phase::Skipped {
                match &steps[i].id {
                    Some(id) => skipped.push(id.clone()),
                    None => skipped.push(String::new()),
                }
                assert(text::texts(skipped@) =~= text::texts(skipped0).push(
                    m.steps[i as int].id->0,
                ));
            }
            i += 1;
        }
        let ok = results.len() > 0 && clean && skipped.len() == 0;
        proof {
            let rs = result_models(results@);
            assert(rs.len() == results@.len());
            assert(text::texts(skipped@).len() == skipped@.len());
            assert forall|j: int| 0 <= j < rs.len() implies (#[trigger] rs[j]).exit
                == results@[j].exit by {}
            if clean {
                assert forall|j: int| 0 <= j < rs.len() implies (#[trigger] rs[j]).exit == 0 by {
                    assert(results@[j].exit == 0);
                }
            } else {
                let j = choose|j: int|
                    0 <= j < results@.len() && (#[trigger] results@[j]).exit != 0;
                assert(rs[j].exit != 0);
            }
        }
        BatchResponse { ok, results, skipped, elapsed_ms, error: None, artifacts }
    }
}

} // verus!
