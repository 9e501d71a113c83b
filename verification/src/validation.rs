//! Checking requests and laying out their steps.

use vstd::prelude::*;
use crate::graph;
use crate::graph::Graph;
use crate::paths;
use crate::protocol::BatchError;
use crate::protocol::BatchRequest;
use crate::protocol::Edge;
use crate::protocol::EdgeModel;
use crate::protocol::CaptureModel;
use crate::protocol::ErrorModel;
use crate::protocol::RequestModel;
use crate::protocol::Step;
use crate::protocol::StepModel;
use crate::protocol::MAX_COMMANDS;
use crate::protocol;
use crate::shell;
use crate::text;

verus! {

// ---------- what a valid request is ----------

/// The id of the step at `i`: its own, or its index.
pub open spec fn id_at(steps: Seq<StepModel>, i: int) -> Seq<char> {
    match steps[i].id {
        Some(id) => id,
        None => text::decimal_of(i as nat),
    }
}

/// The ids of steps, in order.
pub open spec fn ids_of(steps: Seq<StepModel>) -> Seq<Seq<char>> {
    Seq::new(steps.len(), |i: int| id_at(steps, i))
}

/// The steps, each with its id.
pub open spec fn with_ids(steps: Seq<StepModel>) -> Seq<StepModel> {
    Seq::new(
        steps.len(),
        |i: int|
            StepModel {
                id: Some(id_at(steps, i)),
                cmd: steps[i].cmd,
                cwd: steps[i].cwd,
                env: steps[i].env,
                timeout_ms: steps[i].timeout_ms,
                shell: steps[i].shell,
            },
    )
}

/// The shell is neither `sh` nor `bash`.
pub open spec fn is_bad_shell(shell: Option<Seq<char>>) -> bool {
    shell is Some && shell->0 != "sh"@ && shell->0 != "bash"@
}

/// What is wrong with one step of the given id.
pub open spec fn step_problem(id: Seq<char>, s: StepModel, allow_dangerous: bool) -> Option<
    ErrorModel,
> {
    if is_bad_shell(s.shell) {
        Some(ErrorModel::BadShell { id, got: s.shell->0 })
    } else if !allow_dangerous && shell::denial(s.cmd) is Some {
        Some(ErrorModel::Dangerous { id, reason: shell::denial(s.cmd)->0 })
    } else {
        None
    }
}

/// The first thing wrong with a step, from the one at `i` on.
pub open spec fn first_step_problem(
    steps: Seq<StepModel>,
    allow_dangerous: bool,
    i: int,
) -> Option<ErrorModel>
    decreases steps.len() - i,
{
    if i >= steps.len() {
        None
    } else {
        let p = step_problem(id_at(steps, i), steps[i], allow_dangerous);
        if p is Some {
            p
        } else {
            first_step_problem(steps, allow_dangerous, i + 1)
        }
    }
}

/// The id at `i` stands in front of `i` too.
pub open spec fn is_repeated(ids: Seq<Seq<char>>, i: int) -> bool {
    exists|j: int| 0 <= j < i && #[trigger] ids[j] == ids[i]
}

/// The first id, from the one at `i` on, that stands in front of its place
/// too.
pub open spec fn first_repeated(ids: Seq<Seq<char>>, i: int) -> Option<Seq<char>>
    decreases ids.len() - i,
{
    if i >= ids.len() {
        None
    } else if is_repeated(ids, i) {
        Some(ids[i])
    } else {
        first_repeated(ids, i + 1)
    }
}

/// What is wrong with one dependency between steps with the given ids.
pub open spec fn edge_problem(ids: Seq<Seq<char>>, e: EdgeModel) -> Option<ErrorModel> {
    if !ids.contains(e.from) || !ids.contains(e.to) {
        Some(ErrorModel::UnknownDep { from: e.from, to: e.to })
    } else if e.from == e.to {
        Some(ErrorModel::Cycle(e.to))
    } else {
        None
    }
}

/// The first thing wrong with a dependency, from the one at `i` on.
pub open spec fn first_edge_problem(ids: Seq<Seq<char>>, dag: Seq<EdgeModel>, i: int) -> Option<
    ErrorModel,
>
    decreases dag.len() - i,
{
    if i >= dag.len() {
        None
    } else if edge_problem(ids, dag[i]) is Some {
        edge_problem(ids, dag[i])
    } else {
        first_edge_problem(ids, dag, i + 1)
    }
}

/// Each id waits for the one in front of it.
pub open spec fn chain(ids: Seq<Seq<char>>) -> Seq<EdgeModel> {
    Seq::new(
        if ids.len() > 0 {
            (ids.len() - 1) as nat
        } else {
            0
        },
        |k: int| EdgeModel { from: ids[k], to: ids[k + 1] },
    )
}

/// All dependencies of a request whose steps have the given ids.
pub open spec fn all_edges(req: RequestModel, ids: Seq<Seq<char>>) -> Seq<EdgeModel> {
    if req.is_linear() {
        chain(ids) + req.dag
    } else {
        req.dag
    }
}

/// Which step, by number, waits for which.
pub open spec fn links_of(ids: Seq<Seq<char>>, edges: Seq<EdgeModel>) -> Set<(int, int)> {
    Set::new(
        |p: (int, int)|
            0 <= p.0 < ids.len() && 0 <= p.1 < ids.len() && exists|k: int|
                0 <= k < edges.len() && (#[trigger] edges[k]).from == ids[p.0] && edges[k].to
                    == ids[p.1],
    )
}

/// The ids of the stuck ones among the first `k` steps.
pub open spec fn stuck_ids(ids: Seq<Seq<char>>, links: Set<(int, int)>, k: int) -> Seq<Seq<char>>
    decreases k,
{
    if k <= 0 {
        Seq::empty()
    } else if graph::is_stuck(ids.len() as int, links, k - 1) {
        stuck_ids(ids, links, k - 1).push(ids[k - 1])
    } else {
        stuck_ids(ids, links, k - 1)
    }
}

/// The first capture pattern that climbs on some system, from the one at `i`
/// on.
pub open spec fn first_climbing(capture: Seq<CaptureModel>, i: int) -> Option<Seq<char>>
    decreases capture.len() - i,
{
    if i >= capture.len() {
        None
    } else if paths::may_climb(capture[i].path) {
        Some(capture[i].path)
    } else {
        first_climbing(capture, i + 1)
    }
}

/// What is wrong with a request, if anything. Of several things the first of
/// these counts: no commands, too many of them, a bad step, a repeated id, a
/// bad dependency, a cycle, a bad capture pattern.
pub open spec fn problem(req: RequestModel) -> Option<ErrorModel> {
    let steps = req.flat();
    let ids = ids_of(steps);
    let links = links_of(ids, all_edges(req, ids));
    if steps.len() == 0 {
        Some(ErrorModel::Empty)
    } else if steps.len() > MAX_COMMANDS {
        Some(ErrorModel::TooManyCommands(steps.len() as usize))
    } else if first_step_problem(steps, req.allow_dangerous, 0) is Some {
        first_step_problem(steps, req.allow_dangerous, 0)
    } else if first_repeated(ids, 0) is Some {
        Some(ErrorModel::DuplicateId(first_repeated(ids, 0)->0))
    } else if first_edge_problem(ids, req.dag, 0) is Some {
        first_edge_problem(ids, req.dag, 0)
    } else if graph::has_stuck(ids.len() as int, links) {
        Some(ErrorModel::Cycle(text::joined(stuck_ids(ids, links, ids.len() as int), ", "@)))
    } else if first_climbing(req.capture, 0) is Some {
        Some(ErrorModel::CaptureTraversal(first_climbing(req.capture, 0)->0))
    } else {
        None
    }
}

/// The steps that a valid request runs, each with its id.
pub open spec fn layout_steps(req: RequestModel) -> Seq<StepModel> {
    with_ids(req.flat())
}

/// The dependencies of a valid request.
pub open spec fn layout_edges(req: RequestModel) -> Seq<EdgeModel> {
    all_edges(req, ids_of(req.flat()))
}

// ---------- checking ----------

/// The steps with their ids, and the ids.
fn name_steps(flat: &Vec<Step>) -> (r: (Vec<Step>, Vec<String>))
    ensures
        protocol::step_models(r.0@) == with_ids(protocol::step_models(flat@)),
        text::texts(r.1@) == ids_of(protocol::step_models(flat@)),
{
    let ghost models = protocol::step_models(flat@);
    let mut steps: Vec<Step> = Vec::new();
    let mut ids: Vec<String> = Vec::new();
    let mut i: usize = 0;
    while i < flat.len()
        invariant
            i <= flat@.len(),
            models == protocol::step_models(flat@),
            steps@.len() == i,
            ids@.len() == i,
            forall|j: int| 0 <= j < i ==> (#[trigger] steps@[j])@ == with_ids(models)[j],
            forall|j: int| 0 <= j < i ==> (#[trigger] ids@[j])@ == id_at(models, j),
        decreases flat@.len() - i,
    {
        let mut s = flat[i].clone();
        assert(models[i as int] == flat@[i as int]@);
        let id = match &s.id {
            Some(id) => id.clone(),
            None => text::decimal(i as u64),
        };
        s.id = Some(id.clone());
        steps.push(s);
        ids.push(id);
        i += 1;
    }
    assert(protocol::step_models(steps@) =~= with_ids(models));
    assert(text::texts(ids@) =~= ids_of(models));
    (steps, ids)
}

/// The first thing wrong with a step.
fn check_steps(steps: &Vec<Step>, ids: &Vec<String>, allow_dangerous: bool) -> (r: Option<
    BatchError,
>)
    requires
        text::texts(ids@) == ids_of(protocol::step_models(steps@)),
    ensures
        match r {
            Some(e) => first_step_problem(protocol::step_models(steps@), allow_dangerous, 0)
                == Some(e@),
            None => first_step_problem(
                protocol::step_models(steps@),
                allow_dangerous,
                0,
            ) is None,
        },
{
    let ghost models = protocol::step_models(steps@);
    assert(text::texts(ids@).len() == models.len());
    let mut i: usize = 0;
    while i < steps.len()
        invariant
            i <= steps@.len(),
            ids@.len() == steps@.len(),
            models == protocol::step_models(steps@),
            text::texts(ids@) == ids_of(models),
            first_step_problem(models, allow_dangerous, 0) == first_step_problem(
                models,
                allow_dangerous,
                i as int,
            ),
        decreases steps@.len() - i,
    {
        proof {
            assert(models[i as int] == steps@[i as int]@);
            assert(text::texts(ids@)[i as int] == ids@[i as int]@);
            assert(ids_of(models)[i as int] == id_at(models, i as int));
        }
        if let Some(sh) = &steps[i].shell {
            if !text::same_text(sh.as_str(), "sh") && !text::same_text(sh.as_str(), "bash") {
                return Some(BatchError::BadShell { id: ids[i].clone(), got: sh.clone() });
            }
        }
        if !allow_dangerous {
            if let Some(reason) = shell::dangerous_reason(steps[i].cmd.as_str()) {
                return Some(BatchError::Dangerous { id: ids[i].clone(), reason });
            }
        }
        i += 1;
    }
    None
}

/// Where `id` first stands among the first `n` of `ids`.
fn position(ids: &Vec<String>, n: usize, id: &String) -> (r: Option<usize>)
    requires
        n <= ids@.len(),
    ensures
        match r {
            Some(i) => i < n && ids@[i as int]@ == id@,
            None => forall|j: int| 0 <= j < n ==> (#[trigger] ids@[j])@ != id@,
        },
{
    let mut i: usize = 0;
    while i < n
        invariant
            i <= n <= ids@.len(),
            forall|j: int| 0 <= j < i ==> (#[trigger] ids@[j])@ != id@,
        decreases n - i,
    {
        if ids[i] == *id {
            return Some(i);
        }
        i += 1;
    }
    None
}

/// The first repeated id.
fn check_ids(ids: &Vec<String>) -> (r: Option<BatchError>)
    ensures
        match r {
            Some(e) => first_repeated(text::texts(ids@), 0) is Some && e@
                == ErrorModel::DuplicateId(first_repeated(text::texts(ids@), 0)->0),
            None => first_repeated(text::texts(ids@), 0) is None,
        },
{
    let ghost names = text::texts(ids@);
    let mut i: usize = 0;
    while i < ids.len()
        invariant
            i <= ids@.len(),
            names == text::texts(ids@),
            first_repeated(names, 0) == first_repeated(names, i as int),
        decreases ids@.len() - i,
    {
        assert(forall|j: int| 0 <= j < ids@.len() ==> #[trigger] names[j] == ids@[j]@);
        if let Some(j) = position(ids, i, &ids[i]) {
            assert(names[j as int] == names[i as int]);
            return Some(BatchError::DuplicateId(ids[i].clone()));
        }
        i += 1;
    }
    None
}

/// Where no id is repeated, all are different.
proof fn lemma_ids_differ(ids: Seq<Seq<char>>, i: int)
    requires
        0 <= i,
        first_repeated(ids, i) is None,
    ensures
        forall|j: int, k: int| 0 <= j < k < ids.len() && i <= k ==> #[trigger] ids[j] != #[trigger] ids[k],
    decreases ids.len() - i,
{
    if i < ids.len() {
        lemma_ids_differ(ids, i + 1);
        assert(!is_repeated(ids, i));
    }
}

/// The first thing wrong with a dependency.
fn check_edges(ids: &Vec<String>, dag: &Vec<Edge>) -> (r: Option<BatchError>)
    ensures
        match r {
            Some(e) => first_edge_problem(text::texts(ids@), protocol::edge_models(dag@), 0)
                == Some(e@),
            None => first_edge_problem(
                text::texts(ids@),
                protocol::edge_models(dag@),
                0,
            ) is None,
        },
{
    let ghost names = text::texts(ids@);
    let ghost models = protocol::edge_models(dag@);
    let mut i: usize = 0;
    while i < dag.len()
        invariant
            i <= dag@.len(),
            names == text::texts(ids@),
            models == protocol::edge_models(dag@),
            first_edge_problem(names, models, 0) == first_edge_problem(names, models, i as int),
        decreases dag@.len() - i,
    {
        let e = &dag[i];
        assert(models[i as int] == e@);
        assert(forall|j: int| 0 <= j < ids@.len() ==> #[trigger] names[j] == ids@[j]@);
        let from = position(ids, ids.len(), &e.from);
        let to = position(ids, ids.len(), &e.to);
        proof {
            match from {
                Some(j) => {
                    assert(names[j as int] == e.from@);
                },
                None => {},
            }
            match to {
                Some(j) => {
                    assert(names[j as int] == e.to@);
                },
                None => {},
            }
        }
        if from.is_none() || to.is_none() {
            return Some(BatchError::UnknownDep { from: e.from.clone(), to: e.to.clone() });
        }
        if e.from == e.to {
            return Some(BatchError::Cycle(e.to.clone()));
        }
        i += 1;
    }
    None
}

/// All dependencies of a request.
fn gather_edges(req: &BatchRequest, ids: &Vec<String>) -> (r: Vec<Edge>)
    requires
        ids@.len() > 0,
    ensures
        protocol::edge_models(r@) == all_edges(req@, text::texts(ids@)),
{
    let ghost names = text::texts(ids@);
    let mut out: Vec<Edge> = Vec::new();
    let n: usize = ids.len();
    if req.commands.len() == 0 {
        let mut w: usize = 1;
        while w < n
            invariant
                1 <= w <= n,
                n == ids@.len(),
                names == text::texts(ids@),
                out@.len() == w - 1,
                forall|j: int| 0 <= j < w - 1 ==> (#[trigger] out@[j])@ == chain(names)[j],
            decreases n - w,
        {
            out.push(Edge { from: ids[w - 1].clone(), to: ids[w].clone() });
            w += 1;
        }
        assert(protocol::edge_models(out@) =~= chain(names));
    }
    let ghost front = protocol::edge_models(out@);
    let ghost dag = protocol::edge_models(req.dag@);
    let mut i: usize = 0;
    assert(front + dag.take(0) =~= front);
    while i < req.dag.len()
        invariant
            i <= req.dag@.len(),
            dag == protocol::edge_models(req.dag@),
            protocol::edge_models(out@) == front + dag.take(i as int),
        decreases req.dag@.len() - i,
    {
        let ghost before = out@;
        let e = req.dag[i].clone();
        out.push(e);
        i += 1;
        proof {
            assert(protocol::edge_models(out@) =~= protocol::edge_models(before).push(e@));
            assert(dag.take(i as int) =~= dag.take(i - 1).push(dag[i - 1]));
            assert(protocol::edge_models(out@) =~= front + dag.take(i as int));
        }
    }
    assert(dag.take(i as int) =~= dag);
    assert(front + dag =~= all_edges(req@, names));
    out
}

/// No dependency names an id that is not there.
pub open spec fn edges_known(ids: Seq<Seq<char>>, edges: Seq<EdgeModel>) -> bool {
    forall|k: int|
        0 <= k < edges.len() ==> ids.contains((#[trigger] edges[k]).from) && ids.contains(
            edges[k].to,
        )
}

/// The ids are all different.
pub open spec fn all_differ(ids: Seq<Seq<char>>) -> bool {
    forall|j: int, k: int| 0 <= j < k < ids.len() ==> #[trigger] ids[j] != #[trigger] ids[k]
}

/// The dependencies between steps, by number.
pub fn number_edges(ids: &Vec<String>, edges: &Vec<Edge>) -> (r: Vec<(usize, usize)>)
    requires
        all_differ(text::texts(ids@)),
        edges_known(text::texts(ids@), protocol::edge_models(edges@)),
    ensures
        forall|k: int|
            0 <= k < r@.len() ==> (#[trigger] r@[k]).0 < ids@.len() && r@[k].1 < ids@.len(),
        graph::pairs(r@) == links_of(text::texts(ids@), protocol::edge_models(edges@)),
{
    let ghost names = text::texts(ids@);
    let ghost models = protocol::edge_models(edges@);
    let mut out: Vec<(usize, usize)> = Vec::new();
    let mut i: usize = 0;
    assert(forall|j: int| 0 <= j < ids@.len() ==> #[trigger] names[j] == ids@[j]@);
    while i < edges.len()
        invariant
            i <= edges@.len(),
            out@.len() == i,
            names == text::texts(ids@),
            models == protocol::edge_models(edges@),
            edges_known(names, models),
            forall|j: int| 0 <= j < ids@.len() ==> #[trigger] names[j] == ids@[j]@,
            forall|k: int|
                0 <= k < i ==> (#[trigger] out@[k]).0 < names.len() && out@[k].1 < names.len()
                    && names[out@[k].0 as int] == models[k].from && names[out@[k].1 as int]
                    == models[k].to,
        decreases edges@.len() - i,
    {
        assert(models[i as int] == edges@[i as int]@);
        let from = position(ids, ids.len(), &edges[i].from);
        let to = position(ids, ids.len(), &edges[i].to);
        match (from, to) {
            (Some(f), Some(t)) => {
                out.push((f, t));
            },
            _ => {
                proof {
                    assert(names.contains(models[i as int].from));
                    assert(names.contains(models[i as int].to));
                    let a = choose|a: int|
                        0 <= a < names.len() && names[a] == models[i as int].from;
                    let b = choose|b: int| 0 <= b < names.len() && names[b] == models[i as int].to;
                    assert(ids@[a]@ == edges@[i as int].from@);
                    assert(ids@[b]@ == edges@[i as int].to@);
                    assert(false);
                }
            },
        }
        i += 1;
    }
    proof {
        assert forall|p: (int, int)| graph::pairs(out@).contains(p) <==> links_of(
            names,
            models,
        ).contains(p) by {
            if graph::pairs(out@).contains(p) {
                let k = choose|k: int|
                    0 <= k < out@.len() && (#[trigger] out@[k]).0 == p.0 && out@[k].1 == p.1;
                assert(models[k].from == names[p.0]);
            }
            if links_of(names, models).contains(p) {
                let k = choose|k: int|
                    0 <= k < models.len() && (#[trigger] models[k]).from == names[p.0]
                        && models[k].to == names[p.1];
                assert(names[out@[k].0 as int] == names[p.0]);
                assert(names[out@[k].1 as int] == names[p.1]);
                assert(out@[k].0 == p.0);
                assert(out@[k].1 == p.1);
            }
        }
        assert(graph::pairs(out@) =~= links_of(names, models));
    }
    out
}

/// Where no dependency is wrong, every id that they name is there.
proof fn lemma_edges_known(ids: Seq<Seq<char>>, dag: Seq<EdgeModel>, i: int)
    requires
        0 <= i,
        first_edge_problem(ids, dag, i) is None,
    ensures
        forall|k: int|
            i <= k < dag.len() ==> ids.contains((#[trigger] dag[k]).from) && ids.contains(
                dag[k].to,
            ) && dag[k].from != dag[k].to,
    decreases dag.len() - i,
{
    if i < dag.len() {
        lemma_edges_known(ids, dag, i + 1);
    }
}

/// All ids that the dependencies of a request name are there.
proof fn lemma_all_edges_known(req: RequestModel, ids: Seq<Seq<char>>)
    requires
        first_edge_problem(ids, req.dag, 0) is None,
    ensures
        edges_known(ids, all_edges(req, ids)),
{
    lemma_edges_known(ids, req.dag, 0);
    let edges = all_edges(req, ids);
    assert forall|k: int| 0 <= k < edges.len() implies ids.contains((#[trigger] edges[k]).from)
        && ids.contains(edges[k].to) by {
        if req.is_linear() {
            let c = chain(ids);
            if k < c.len() {
                assert(edges[k] == c[k]);
                assert(ids.contains(ids[k]));
                assert(ids.contains(ids[k + 1]));
            } else {
                assert(edges[k] == req.dag[k - c.len()]);
            }
        }
    }
}

/// For each step, whether it can never run.
fn find_stuck(ids: &Vec<String>, edges: &Vec<Edge>) -> (r: Vec<bool>)
    requires
        all_differ(text::texts(ids@)),
        edges_known(text::texts(ids@), protocol::edge_models(edges@)),
    ensures
        r@.len() == ids@.len(),
        forall|j: int|
            0 <= j < r@.len() ==> #[trigger] r@[j] == graph::is_stuck(
                ids@.len() as int,
                links_of(text::texts(ids@), protocol::edge_models(edges@)),
                j,
            ),
{
    let numbered = number_edges(ids, edges);
    let g = Graph::build(ids.len(), &numbered);
    g.stuck()
}

/// A stuck step is one of the steps.
pub proof fn lemma_stuck_is_step(n: int, links: Set<(int, int)>, i: int)
    requires
        graph::is_stuck(n, links, i),
    ensures
        0 <= i < n,
{
    let s = choose|s: Set<int>| #[trigger] graph::is_waiting_set(n, links, s) && s.contains(i);
    assert(s.contains(i));
}

/// Names the steps that can never run; nothing where there are none.
fn check_cycles(ids: &Vec<String>, edges: &Vec<Edge>) -> (r: Option<BatchError>)
    requires
        all_differ(text::texts(ids@)),
        edges_known(text::texts(ids@), protocol::edge_models(edges@)),
    ensures
        ({
            let names = text::texts(ids@);
            let links = links_of(names, protocol::edge_models(edges@));
            match r {
                Some(e) => graph::has_stuck(names.len() as int, links) && e@ == ErrorModel::Cycle(
                    text::joined(stuck_ids(names, links, names.len() as int), ", "@),
                ),
                None => !graph::has_stuck(names.len() as int, links),
            }
        }),
{
    let ghost names = text::texts(ids@);
    let ghost links = links_of(names, protocol::edge_models(edges@));
    let n: usize = ids.len();
    let stuck = find_stuck(ids, edges);
    let mut any = false;
    let mut left: Vec<String> = Vec::new();
    let mut i: usize = 0;
    while i < n
        invariant
            i <= n,
            n == ids@.len(),
            n == stuck@.len(),
            names == text::texts(ids@),
            forall|j: int|
                0 <= j < n ==> #[trigger] stuck@[j] == graph::is_stuck(n as int, links, j),
            text::texts(left@) == stuck_ids(names, links, i as int),
            any ==> graph::has_stuck(n as int, links),
            !any ==> forall|j: int| 0 <= j < i ==> !#[trigger] stuck@[j],
        decreases n - i,
    {
        let ghost before = left@;
        assert(names[i as int] == ids@[i as int]@);
        assert(stuck@[i as int] == graph::is_stuck(n as int, links, i as int));
        if stuck[i] {
            left.push(ids[i].clone());
            any = true;
            assert(text::texts(left@) =~= text::texts(before).push(names[i as int]));
        }
        i += 1;
    }
    if any {
        Some(BatchError::Cycle(text::join(&left, ", ")))
    } else {
        proof {
            if graph::has_stuck(n as int, links) {
                let j = choose|j: int| graph::is_stuck(n as int, links, j);
                lemma_stuck_is_step(n as int, links, j);
                assert(stuck@[j]);
            }
        }
        None
    }
}

/// The first capture pattern that climbs.
fn check_capture(req: &BatchRequest) -> (r: Option<BatchError>)
    ensures
        match r {
            Some(e) => first_climbing(req@.capture, 0) is Some && e@
                == ErrorModel::CaptureTraversal(first_climbing(req@.capture, 0)->0),
            None => first_climbing(req@.capture, 0) is None,
        },
{
    let ghost models = req@.capture;
    let mut i: usize = 0;
    while i < req.capture.len()
        invariant
            i <= req.capture@.len(),
            models == protocol::capture_models(req.capture@),
            first_climbing(models, 0) == first_climbing(models, i as int),
        decreases req.capture@.len() - i,
    {
        assert(models[i as int] == req.capture@[i as int]@);
        if paths::climbs_somewhere(req.capture[i].path.as_str()) {
            return Some(BatchError::CaptureTraversal(req.capture[i].path.clone()));
        }
        i += 1;
    }
    None
}

/// Checks a request. A valid one gives its steps, each with its id, and all
/// dependencies between them.
pub fn validate(req: &BatchRequest) -> (r: Result<(Vec<Step>, Vec<Edge>), BatchError>)
    ensures
        match r {
            Ok((steps, edges)) => {
                &&& problem(req@) is None
                &&& protocol::step_models(steps@) == layout_steps(req@)
                &&& protocol::edge_models(edges@) == layout_edges(req@)
            },
            Err(e) => problem(req@) == Some(e@),
        },
{
    let flat = req.flat_commands();
    let ghost models = req@.flat();
    assert(models.len() == flat@.len());
    if flat.len() == 0 {
        return Err(BatchError::Empty);
    }
    if flat.len() > MAX_COMMANDS {
        return Err(BatchError::TooManyCommands(flat.len()));
    }
    let (steps, ids) = name_steps(&flat);
    let ghost names = ids_of(models);
    if let Some(e) = check_steps(&flat, &ids, req.allow_dangerous) {
        return Err(e);
    }
    if let Some(e) = check_ids(&ids) {
        return Err(e);
    }
    proof {
        lemma_ids_differ(names, 0);
    }
    if let Some(e) = check_edges(&ids, &req.dag) {
        return Err(e);
    }
    assert(text::texts(ids@).len() == models.len());
    let edges = gather_edges(req, &ids);
    proof {
        lemma_all_edges_known(req@, names);
    }
    if let Some(e) = check_cycles(&ids, &edges) {
        return Err(e);
    }
    if let Some(e) = check_capture(req) {
        return Err(e);
    }
    Ok((steps, edges))
}

// ---------- laws ----------

/// Where no step is wrong, each has a shell that is known and, unless denied
/// commands are permitted, a command that is not denied.
proof fn lemma_steps_fine(steps: Seq<StepModel>, allow_dangerous: bool, i: int)
    requires
        0 <= i,
        first_step_problem(steps, allow_dangerous, i) is None,
    ensures
        forall|k: int|
            i <= k < steps.len() ==> !is_bad_shell((#[trigger] steps[k]).shell) && (allow_dangerous
                || shell::denial(steps[k].cmd) is None),
    decreases steps.len() - i,
{
    if i < steps.len() {
        lemma_steps_fine(steps, allow_dangerous, i + 1);
    }
}

/// Where no capture pattern is wrong, none climbs.
proof fn lemma_capture_fine(capture: Seq<CaptureModel>, i: int)
    requires
        0 <= i,
        first_climbing(capture, i) is None,
    ensures
        forall|k: int| i <= k < capture.len() ==> !paths::may_climb((#[trigger] capture[k]).path),
    decreases capture.len() - i,
{
    if i < capture.len() {
        lemma_capture_fine(capture, i + 1);
    }
}

/// A valid request holds at least one and at most [`MAX_COMMANDS`] commands.
/// Their ids differ, their shells are known, their dependencies name them, no
/// capture pattern climbs, and no command is denied unless that is permitted.
pub proof fn law_valid_request(req: RequestModel)
    requires
        problem(req) is None,
    ensures
        1 <= req.flat().len() <= MAX_COMMANDS,
        all_differ(ids_of(req.flat())),
        edges_known(ids_of(req.flat()), layout_edges(req)),
        forall|k: int|
            0 <= k < req.flat().len() ==> !is_bad_shell((#[trigger] req.flat()[k]).shell),
        !req.allow_dangerous ==> forall|k: int|
            0 <= k < req.flat().len() ==> shell::denial((#[trigger] req.flat()[k]).cmd) is None,
        forall|k: int|
            0 <= k < req.capture.len() ==> !paths::may_climb((#[trigger] req.capture[k]).path),
{
    let ids = ids_of(req.flat());
    lemma_steps_fine(req.flat(), req.allow_dangerous, 0);
    lemma_ids_differ(ids, 0);
    lemma_all_edges_known(req, ids);
    lemma_capture_fine(req.capture, 0);
}

/// The steps of a valid request can be put in an order in which each stands
/// after all that it waits for.
pub proof fn law_valid_request_has_an_order(req: RequestModel)
    requires
        problem(req) is None,
    ensures
        exists|order: Seq<int>|
            graph::is_order(
                req.flat().len() as int,
                links_of(ids_of(req.flat()), layout_edges(req)),
                order,
            ),
{
    let ids = ids_of(req.flat());
    graph::law_free_is_ordered(ids.len() as int, links_of(ids, layout_edges(req)));
}

/// A request whose dependencies run in a circle is refused.
pub proof fn law_cycle_is_refused(req: RequestModel, path: Seq<int>)
    requires
        graph::is_cycle(
            req.flat().len() as int,
            links_of(ids_of(req.flat()), layout_edges(req)),
            path,
        ),
    ensures
        problem(req) is Some,
{
    let ids = ids_of(req.flat());
    graph::law_stuck_is_cyclic(ids.len() as int, links_of(ids, layout_edges(req)));
}

/// A request with a denied command is refused, unless that is permitted.
pub proof fn law_denied_command_is_refused(req: RequestModel, k: int)
    requires
        0 <= k < req.flat().len(),
        shell::denial(req.flat()[k].cmd) is Some,
        !req.allow_dangerous,
    ensures
        problem(req) is Some,
{
    if problem(req) is None {
        law_valid_request(req);
        assert(shell::denial(req.flat()[k].cmd) is None);
    }
}

/// Permitting denied commands permits all of them: no request is refused for
/// one.
pub proof fn law_permission_is_general(req: RequestModel)
    requires
        req.allow_dangerous,
    ensures
        problem(req) matches Some(e) ==> e !is Dangerous,
{
    lemma_no_denial(req.flat(), 0);
    lemma_edge_errors(ids_of(req.flat()), req.dag, 0);
}

/// Where denied commands are permitted, a step is wrong only for its shell.
proof fn lemma_no_denial(steps: Seq<StepModel>, i: int)
    ensures
        first_step_problem(steps, true, i) matches Some(e) ==> e is BadShell,
    decreases steps.len() - i,
{
    if i < steps.len() {
        lemma_no_denial(steps, i + 1);
    }
}

/// A dependency is wrong for an unknown id or for a circle.
proof fn lemma_edge_errors(ids: Seq<Seq<char>>, dag: Seq<EdgeModel>, i: int)
    ensures
        first_edge_problem(ids, dag, i) matches Some(e) ==> e is UnknownDep || e is Cycle,
    decreases dag.len() - i,
{
    if i < dag.len() {
        lemma_edge_errors(ids, dag, i + 1);
    }
}

/// A step is wrong for its shell or for its command.
proof fn lemma_step_errors(steps: Seq<StepModel>, allow_dangerous: bool, i: int)
    ensures
        first_step_problem(steps, allow_dangerous, i) matches Some(e) ==> e is BadShell
            || e is Dangerous,
    decreases steps.len() - i,
{
    if i < steps.len() {
        lemma_step_errors(steps, allow_dangerous, i + 1);
    }
}

/// Steps without ids of their own are never refused for repeated ids.
pub proof fn law_default_ids_differ(req: RequestModel)
    requires
        forall|k: int| 0 <= k < req.flat().len() ==> (#[trigger] req.flat()[k]).id is None,
    ensures
        all_differ(ids_of(req.flat())),
        problem(req) matches Some(e) ==> e !is DuplicateId,
{
    let steps = req.flat();
    let ids = ids_of(steps);
    assert forall|j: int, k: int| 0 <= j < k < ids.len() implies #[trigger] ids[j]
        != #[trigger] ids[k] by {
        assert(steps[j].id is None && steps[k].id is None);
        if ids[j] == ids[k] {
            text::lemma_decimal_injective(j as nat, k as nat);
        }
    }
    lemma_not_repeated(ids, 0);
    lemma_step_errors(steps, req.allow_dangerous, 0);
    lemma_edge_errors(ids, req.dag, 0);
}

/// Where all ids differ, none is repeated.
pub proof fn lemma_not_repeated(ids: Seq<Seq<char>>, i: int)
    requires
        0 <= i,
        all_differ(ids),
    ensures
        first_repeated(ids, i) is None,
    decreases ids.len() - i,
{
    if i < ids.len() {
        lemma_not_repeated(ids, i + 1);
    }
}

/// In a valid request that gives `steps` and no `commands`, each step waits
/// for the one before it.
pub proof fn law_steps_run_in_order(req: RequestModel, k: int)
    requires
        problem(req) is None,
        req.is_linear(),
        0 <= k < req.steps.len() - 1,
    ensures
        links_of(ids_of(req.flat()), layout_edges(req)).contains((k, k + 1)),
{
    let ids = ids_of(req.flat());
    let edges = layout_edges(req);
    assert(edges[k] == chain(ids)[k]);
}

/// Without dependencies of its own, a request is never refused for a cycle.
pub proof fn law_no_cycle_without_dependencies(req: RequestModel)
    requires
        req.dag.len() == 0,
    ensures
        problem(req) matches Some(e) ==> e !is Cycle,
{
    let steps = req.flat();
    let ids = ids_of(steps);
    let links = links_of(ids, all_edges(req, ids));
    let n = ids.len() as int;
    lemma_step_errors(steps, req.allow_dangerous, 0);
    if first_repeated(ids, 0) is None {
        lemma_ids_differ(ids, 0);
        let order = Seq::new(n as nat, |i: int| i);
        assert forall|i: int, j: int|
            0 <= i < n && 0 <= j < n && links.contains(
                (#[trigger] order[i], #[trigger] order[j]),
            ) implies i < j by {
            let edges = all_edges(req, ids);
            let k = choose|k: int|
                0 <= k < edges.len() && (#[trigger] edges[k]).from == ids[i] && edges[k].to
                    == ids[j];
            assert(req.is_linear());
            assert(edges[k] == chain(ids)[k]);
            assert(ids[k] == ids[i]);
            assert(ids[k + 1] == ids[j]);
        }
        assert(graph::is_order(n, links, order));
        graph::law_free_is_ordered(n, links);
    }
}

} // verus!
