//! What holds of every request: which are accepted, what the refusals name,
//! and which step waits for which.

use vstd::prelude::*;
use crate::batch;
use crate::graph;
use crate::paths;
use crate::protocol::CaptureModel;
use crate::protocol::EdgeModel;
use crate::protocol::ErrorModel;
use crate::protocol::RequestModel;
use crate::protocol::StepModel;
use crate::shell;
use crate::text;
use crate::validation;

verus! {

// ---------- steps ----------

/// A request runs its `commands`, or its `steps` where it has no commands, in
/// the order in which they stand and with all that they say. A step without
/// an id gets its place as its id.
pub proof fn law_steps_are_kept(req: RequestModel, i: int)
    ensures
        ({
            let given = if req.commands.len() > 0 {
                req.commands
            } else {
                req.steps
            };
            let laid = validation::layout_steps(req);
            &&& laid.len() == given.len()
            &&& 0 <= i < given.len() ==> {
                &&& laid[i].id == Some(
                    match given[i].id {
                        Some(id) => id,
                        None => text::decimal_of(i as nat),
                    },
                )
                &&& laid[i].cmd == given[i].cmd
                &&& laid[i].cwd == given[i].cwd
                &&& laid[i].env == given[i].env
                &&& laid[i].timeout_ms == given[i].timeout_ms
                &&& laid[i].shell == given[i].shell
            }
        }),
{
}

/// The id of a laid out step is the one that dependencies name it by.
proof fn lemma_laid_id(req: RequestModel, i: int)
    requires
        0 <= i < req.flat().len(),
    ensures
        validation::layout_steps(req)[i].id == Some(validation::ids_of(req.flat())[i]),
{
}

// ---------- dependencies ----------

/// The edges of a request are laid out: each of its `dag`, and nothing but
/// these and, where it gives `steps` alone, one from each step to the next.
pub proof fn law_edges_are_kept(req: RequestModel)
    ensures
        forall|k: int|
            0 <= k < req.dag.len() ==> validation::layout_edges(req).contains(
                #[trigger] req.dag[k],
            ),
        forall|e: EdgeModel| #[trigger]
            validation::layout_edges(req).contains(e) ==> req.dag.contains(e) || (
            req.commands.len() == 0 && exists|i: int|
                {
                    &&& 0 <= i < req.steps.len() - 1
                    &&& Some(e.from) == (#[trigger] validation::layout_steps(req)[i]).id
                    &&& Some(e.to) == validation::layout_steps(req)[i + 1].id
                }),
{
    let ids = validation::ids_of(req.flat());
    let edges = validation::layout_edges(req);
    let front = validation::chain(ids);
    assert forall|k: int| 0 <= k < req.dag.len() implies edges.contains(#[trigger] req.dag[k]) by {
        if req.commands.len() == 0 {
            assert(edges[front.len() + k] == req.dag[k]);
        } else {
            assert(edges[k] == req.dag[k]);
        }
    }
    assert forall|e: EdgeModel| #[trigger] edges.contains(e) implies req.dag.contains(e) || (
    req.commands.len() == 0 && exists|i: int|
        {
            &&& 0 <= i < req.steps.len() - 1
            &&& Some(e.from) == (#[trigger] validation::layout_steps(req)[i]).id
            &&& Some(e.to) == validation::layout_steps(req)[i + 1].id
        }) by {
        let k = choose|k: int| 0 <= k < edges.len() && edges[k] == e;
        if req.commands.len() == 0 {
            if k < front.len() {
                assert(edges[k] == front[k]);
                assert(Some(e.from) == validation::layout_steps(req)[k].id);
                assert(Some(e.to) == validation::layout_steps(req)[k + 1].id);
            } else {
                assert(req.dag[k - front.len()] == e);
            }
        } else {
            assert(req.dag[k] == e);
        }
    }
}

/// Every edge of the `dag` of a valid request makes the step of its `to` wait
/// for the step of its `from` in the batch.
pub proof fn law_every_edge_is_waited_for(req: RequestModel, k: int)
    requires
        validation::problem(req) is None,
        0 <= k < req.dag.len(),
    ensures
        exists|f: int, t: int|
            {
                &&& 0 <= f < validation::layout_steps(req).len()
                &&& 0 <= t < validation::layout_steps(req).len()
                &&& validation::layout_steps(req)[f].id == Some(req.dag[k].from)
                &&& validation::layout_steps(req)[t].id == Some(req.dag[k].to)
                &&& #[trigger] batch::initial(req).schedule.links.contains((f, t))
            },
{
    validation::law_valid_request(req);
    law_edges_are_kept(req);
    let ids = validation::ids_of(req.flat());
    let edges = validation::layout_edges(req);
    let e = req.dag[k];
    assert(edges.contains(e));
    let j = choose|j: int| 0 <= j < edges.len() && edges[j] == e;
    assert(ids.contains(edges[j].from) && ids.contains(edges[j].to));
    let f = choose|f: int| 0 <= f < ids.len() && ids[f] == e.from;
    let t = choose|t: int| 0 <= t < ids.len() && ids[t] == e.to;
    lemma_laid_id(req, f);
    lemma_laid_id(req, t);
    assert(edges[j].from == ids[f] && edges[j].to == ids[t]);
    assert(batch::initial(req).schedule.links.contains((f, t)));
}

/// Each step of a valid request that gives `steps` alone waits for the one in
/// front of it.
pub proof fn law_each_step_waits_for_the_last(req: RequestModel, i: int)
    requires
        validation::problem(req) is None,
        req.commands.len() == 0,
        0 <= i < req.steps.len() - 1,
    ensures
        batch::initial(req).schedule.links.contains((i, i + 1)),
{
    validation::law_steps_run_in_order(req, i);
}

/// A step of a valid request waits for another only where an edge of the `dag`
/// says so, or where it is the next of `steps` alone.
pub proof fn law_nothing_else_is_waited_for(req: RequestModel, f: int, t: int)
    requires
        validation::problem(req) is None,
        batch::initial(req).schedule.links.contains((f, t)),
    ensures
        0 <= f < validation::layout_steps(req).len(),
        0 <= t < validation::layout_steps(req).len(),
        (req.commands.len() == 0 && t == f + 1) || exists|k: int|
            {
                &&& 0 <= k < req.dag.len()
                &&& Some((#[trigger] req.dag[k]).from) == validation::layout_steps(req)[f].id
                &&& Some(req.dag[k].to) == validation::layout_steps(req)[t].id
            },
{
    validation::law_valid_request(req);
    let ids = validation::ids_of(req.flat());
    let edges = validation::layout_edges(req);
    lemma_laid_id(req, f);
    lemma_laid_id(req, t);
    let j = choose|j: int|
        0 <= j < edges.len() && (#[trigger] edges[j]).from == ids[f] && edges[j].to == ids[t];
    let front = validation::chain(ids);
    if req.commands.len() == 0 && j < front.len() {
        assert(edges[j] == front[j]);
        assert(ids[j] == ids[f] && ids[j + 1] == ids[t]);
        assert(j == f) by {
            if j < f {
                assert(ids[j] != ids[f]);
            }
            if f < j {
                assert(ids[f] != ids[j]);
            }
        }
        assert(j + 1 == t) by {
            if j + 1 < t {
                assert(ids[j + 1] != ids[t]);
            }
            if t < j + 1 {
                assert(ids[t] != ids[j + 1]);
            }
        }
    } else if req.commands.len() == 0 {
        assert(edges[j] == req.dag[j - front.len()]);
    } else {
        assert(edges[j] == req.dag[j]);
    }
}

// ---------- acceptance ----------

/// Where numbers can be given to steps that grow along the links, no step is
/// among steps that wait for each other.
proof fn lemma_ranked_is_free(
    n: int,
    links: Set<(int, int)>,
    rank: Seq<nat>,
    s: Set<int>,
    t: int,
)
    requires
        forall|a: int, b: int| #[trigger]
            links.contains((a, b)) && 0 <= a < n && 0 <= b < n ==> rank[a] < rank[b],
        graph::is_waiting_set(n, links, s),
    ensures
        !s.contains(t),
    decreases rank[t],
{
    if s.contains(t) {
        let f = choose|f: int| #[trigger] s.contains(f) && links.contains((f, t));
        assert(0 <= f < n && 0 <= t < n);
        lemma_ranked_is_free(n, links, rank, s, f);
    }
}

/// Where no step can be stuck, numbers can be given that grow along the links.
proof fn lemma_free_is_ranked(n: int, links: Set<(int, int)>) -> (rank: Seq<nat>)
    requires
        0 <= n,
        !graph::has_stuck(n, links),
    ensures
        rank.len() == n,
        forall|a: int, b: int| #[trigger]
            links.contains((a, b)) && 0 <= a < n && 0 <= b < n ==> rank[a] < rank[b],
{
    graph::law_free_is_ordered(n, links);
    let order = choose|order: Seq<int>| graph::is_order(n, links, order);
    graph::lemma_placing_len(n, order);
    let rank = Seq::new(n as nat, |i: int| order.index_of(i) as nat);
    assert forall|a: int, b: int| #[trigger] links.contains((a, b)) && 0 <= a < n && 0 <= b < n
        implies rank[a] < rank[b] by {
        assert(order.contains(a) && order.contains(b));
        let i = order.index_of(a);
        let j = order.index_of(b);
        assert(0 <= i < order.len() && order[i] == a);
        assert(0 <= j < order.len() && order[j] == b);
    }
    rank
}

/// An accepted request holds one to fifty commands, each for `sh` or `bash`
/// and none denied unless that is permitted; and no capture pattern of it
/// climbs.
pub proof fn law_accepted_steps(req: RequestModel)
    requires
        validation::problem(req) is None,
    ensures
        ({
            let laid = validation::layout_steps(req);
            &&& 1 <= laid.len() <= 50
            &&& forall|i: int|
                0 <= i < laid.len() ==> ((#[trigger] laid[i]).shell is None || laid[i].shell
                    == Some(seq!['s', 'h']) || laid[i].shell == Some(seq!['b', 'a', 's', 'h']))
            &&& req.allow_dangerous || forall|i: int|
                0 <= i < laid.len() ==> shell::denial((#[trigger] laid[i]).cmd) is None
            &&& forall|k: int|
                0 <= k < req.capture.len() ==> !paths::may_climb((#[trigger] req.capture[k]).path)
        }),
{
    let steps = req.flat();
    let laid = validation::layout_steps(req);
    reveal_strlit("sh");
    reveal_strlit("bash");
    assert("sh"@ =~= seq!['s', 'h']);
    assert("bash"@ =~= seq!['b', 'a', 's', 'h']);
    validation::law_valid_request(req);
    assert forall|i: int| 0 <= i < laid.len() implies ((#[trigger] laid[i]).shell is None
        || laid[i].shell == Some(seq!['s', 'h']) || laid[i].shell == Some(
        seq!['b', 'a', 's', 'h'],
    )) by {
        assert(!validation::is_bad_shell(steps[i].shell));
    }
    assert forall|i: int|
        0 <= i < laid.len() && !req.allow_dangerous implies shell::denial((#[trigger] laid[i]).cmd) is None by {
        assert(laid[i].cmd == steps[i].cmd);
    }
}

/// In an accepted request the ids of the steps differ, and each edge of the
/// `dag` joins two different steps.
pub proof fn law_accepted_edges(req: RequestModel)
    requires
        validation::problem(req) is None,
    ensures
        ({
            let laid = validation::layout_steps(req);
            &&& forall|i: int, j: int|
                0 <= i < j < laid.len() ==> (#[trigger] laid[i]).id != (#[trigger] laid[j]).id
            &&& forall|k: int|
                0 <= k < req.dag.len() ==> {
                    &&& (#[trigger] req.dag[k]).from != req.dag[k].to
                    &&& exists|f: int|
                        0 <= f < laid.len() && (#[trigger] laid[f]).id == Some(req.dag[k].from)
                    &&& exists|t: int|
                        0 <= t < laid.len() && (#[trigger] laid[t]).id == Some(req.dag[k].to)
                }
        }),
{
    let laid = validation::layout_steps(req);
    let ids = validation::ids_of(req.flat());
    validation::law_valid_request(req);
    assert forall|i: int, j: int| 0 <= i < j < laid.len() implies (#[trigger] laid[i]).id
        != (#[trigger] laid[j]).id by {
        assert(ids[i] != ids[j]);
        lemma_laid_id(req, i);
        lemma_laid_id(req, j);
    }
    assert forall|k: int| 0 <= k < req.dag.len() implies {
        &&& (#[trigger] req.dag[k]).from != req.dag[k].to
        &&& exists|f: int| 0 <= f < laid.len() && (#[trigger] laid[f]).id == Some(req.dag[k].from)
        &&& exists|t: int| 0 <= t < laid.len() && (#[trigger] laid[t]).id == Some(req.dag[k].to)
    } by {
        lemma_edge_fine(ids, req.dag, 0, k);
        let f = choose|f: int| 0 <= f < ids.len() && ids[f] == req.dag[k].from;
        let t = choose|t: int| 0 <= t < ids.len() && ids[t] == req.dag[k].to;
        assert(laid[f].id == Some(req.dag[k].from));
        assert(laid[t].id == Some(req.dag[k].to));
    }
}

/// The steps of an accepted request can be numbered so that each has a larger
/// number than those that it waits for.
pub proof fn law_accepted_has_an_order(req: RequestModel) -> (rank: Seq<nat>)
    requires
        validation::problem(req) is None,
    ensures
        rank.len() == validation::layout_steps(req).len(),
        forall|f: int, t: int| #[trigger]
            batch::initial(req).schedule.links.contains((f, t)) ==> 0 <= f < rank.len() && 0 <= t
                < rank.len() && rank[f] < rank[t],
{
    validation::law_valid_request(req);
    let n = validation::layout_steps(req).len() as int;
    lemma_free_is_ranked(n, batch::initial(req).schedule.links)
}

/// A request is accepted that holds one to fifty commands, each for `sh` or
/// `bash` and none denied unless that is permitted, whose steps have different
/// ids, whose edges join two different steps each, whose steps can be numbered
/// so that each has a larger number than those that it waits for, and of whose
/// capture patterns none climbs.
pub proof fn law_such_is_accepted(req: RequestModel, rank: Seq<nat>)
    requires
        1 <= validation::layout_steps(req).len() <= 50,
        forall|i: int|
            0 <= i < validation::layout_steps(req).len() ==> ((
            #[trigger] validation::layout_steps(req)[i]).shell is None
                || validation::layout_steps(req)[i].shell == Some(seq!['s', 'h'])
                || validation::layout_steps(req)[i].shell == Some(seq!['b', 'a', 's', 'h'])),
        req.allow_dangerous || forall|i: int|
            0 <= i < validation::layout_steps(req).len() ==> shell::denial(
                (#[trigger] validation::layout_steps(req)[i]).cmd,
            ) is None,
        forall|i: int, j: int|
            0 <= i < j < validation::layout_steps(req).len() ==> (
            #[trigger] validation::layout_steps(req)[i]).id != (
            #[trigger] validation::layout_steps(req)[j]).id,
        forall|k: int|
            0 <= k < req.dag.len() ==> (#[trigger] req.dag[k]).from != req.dag[k].to && (exists|
                f: int,
            |
                0 <= f < validation::layout_steps(req).len() && (
                #[trigger] validation::layout_steps(req)[f]).id == Some(req.dag[k].from))
                && exists|t: int|
                0 <= t < validation::layout_steps(req).len() && (
                #[trigger] validation::layout_steps(req)[t]).id == Some(req.dag[k].to),
        forall|f: int, t: int| #[trigger]
            batch::initial(req).schedule.links.contains((f, t)) && 0 <= f
                < validation::layout_steps(req).len() && 0 <= t < validation::layout_steps(
                req,
            ).len() ==> rank[f] < rank[t],
        forall|k: int|
            0 <= k < req.capture.len() ==> !paths::may_climb((#[trigger] req.capture[k]).path),
    ensures
        validation::problem(req) is None,
{
    let steps = req.flat();
    let laid = validation::layout_steps(req);
    let ids = validation::ids_of(steps);
    let links = batch::initial(req).schedule.links;
    reveal_strlit("sh");
    reveal_strlit("bash");
    assert("sh"@ =~= seq!['s', 'h']);
    assert("bash"@ =~= seq!['b', 'a', 's', 'h']);
    assert forall|i: int| 0 <= i < steps.len() implies !validation::is_bad_shell(
        (#[trigger] steps[i]).shell,
    ) && (req.allow_dangerous || shell::denial(steps[i].cmd) is None) by {
        assert(laid[i].shell == steps[i].shell && laid[i].cmd == steps[i].cmd);
    }
    lemma_no_step_problem(steps, req.allow_dangerous, 0);
    assert forall|i: int, j: int| 0 <= i < j < ids.len() implies #[trigger] ids[i]
        != #[trigger] ids[j] by {
        lemma_laid_id(req, i);
        lemma_laid_id(req, j);
        assert(laid[i].id != laid[j].id);
    }
    validation::lemma_not_repeated(ids, 0);
    assert forall|k: int| 0 <= k < req.dag.len() implies (#[trigger] req.dag[k]).from
        != req.dag[k].to && ids.contains(req.dag[k].from) && ids.contains(req.dag[k].to) by {
        let f = choose|f: int|
            0 <= f < laid.len() && (#[trigger] laid[f]).id == Some(req.dag[k].from);
        let t = choose|t: int| 0 <= t < laid.len() && (#[trigger] laid[t]).id == Some(req.dag[k].to);
        lemma_laid_id(req, f);
        lemma_laid_id(req, t);
        assert(ids[f] == req.dag[k].from && ids[t] == req.dag[k].to);
    }
    lemma_no_edge_problem(ids, req.dag, 0);
    lemma_no_climbing(req.capture, 0);
    let n = ids.len() as int;
    if graph::has_stuck(n, links) {
        let i = choose|i: int| graph::is_stuck(n, links, i);
        let s = choose|s: Set<int>| #[trigger] graph::is_waiting_set(n, links, s) && s.contains(i);
        lemma_ranked_is_free(n, links, rank, s, i);
    }
}

/// Steps of which none is wrong are not refused.
proof fn lemma_no_step_problem(steps: Seq<StepModel>, allow_dangerous: bool, i: int)
    requires
        0 <= i,
        forall|k: int|
            0 <= k < steps.len() ==> !validation::is_bad_shell((#[trigger] steps[k]).shell) && (
            allow_dangerous || shell::denial(steps[k].cmd) is None),
    ensures
        validation::first_step_problem(steps, allow_dangerous, i) is None,
    decreases steps.len() - i,
{
    if i < steps.len() {
        lemma_no_step_problem(steps, allow_dangerous, i + 1);
    }
}

/// Edges of which none is wrong are not refused.
proof fn lemma_no_edge_problem(ids: Seq<Seq<char>>, dag: Seq<EdgeModel>, i: int)
    requires
        0 <= i,
        forall|k: int|
            0 <= k < dag.len() ==> (#[trigger] dag[k]).from != dag[k].to && ids.contains(
                dag[k].from,
            ) && ids.contains(dag[k].to),
    ensures
        validation::first_edge_problem(ids, dag, i) is None,
    decreases dag.len() - i,
{
    if i < dag.len() {
        lemma_no_edge_problem(ids, dag, i + 1);
    }
}

/// An edge that is not refused joins two different steps.
proof fn lemma_edge_fine(ids: Seq<Seq<char>>, dag: Seq<EdgeModel>, i: int, k: int)
    requires
        0 <= i <= k < dag.len(),
        validation::first_edge_problem(ids, dag, i) is None,
    ensures
        ids.contains(dag[k].from),
        ids.contains(dag[k].to),
        dag[k].from != dag[k].to,
    decreases dag.len() - i,
{
    if i < k {
        lemma_edge_fine(ids, dag, i + 1, k);
    }
}

/// Patterns of which none climbs are not refused.
proof fn lemma_no_climbing(capture: Seq<CaptureModel>, i: int)
    requires
        0 <= i,
        forall|k: int| 0 <= k < capture.len() ==> !paths::may_climb((#[trigger] capture[k]).path),
    ensures
        validation::first_climbing(capture, i) is None,
    decreases capture.len() - i,
{
    if i < capture.len() {
        lemma_no_climbing(capture, i + 1);
    }
}

// ---------- refusals ----------

/// A step has the shell `sh` or `bash`, and its command is not denied or that
/// is permitted.
pub open spec fn may_run(s: StepModel, allow_dangerous: bool) -> bool {
    &&& s.shell is None || s.shell == Some(seq!['s', 'h']) || s.shell == Some(
        seq!['b', 'a', 's', 'h'],
    )
    &&& allow_dangerous || shell::denial(s.cmd) is None
}

/// The first bad step, from the one at `i` on, gives the refusal.
proof fn lemma_step_cause(steps: Seq<StepModel>, allow_dangerous: bool, i: int) -> (b: int)
    requires
        0 <= i <= steps.len(),
    ensures
        i <= b <= steps.len(),
        forall|j: int| i <= j < b ==> may_run(#[trigger] steps[j], allow_dangerous),
        b < steps.len() ==> !may_run(steps[b], allow_dangerous)
            && validation::first_step_problem(steps, allow_dangerous, i)
            == validation::step_problem(
            validation::id_at(steps, b),
            steps[b],
            allow_dangerous,
        ) && validation::first_step_problem(steps, allow_dangerous, i) is Some,
        b == steps.len() ==> validation::first_step_problem(steps, allow_dangerous, i) is None,
    decreases steps.len() - i,
{
    reveal_strlit("sh");
    reveal_strlit("bash");
    assert("sh"@ =~= seq!['s', 'h']);
    assert("bash"@ =~= seq!['b', 'a', 's', 'h']);
    if i == steps.len() {
        i
    } else if !may_run(steps[i], allow_dangerous) {
        i
    } else {
        lemma_step_cause(steps, allow_dangerous, i + 1)
    }
}

/// The first repeated id, from the one at `i` on, gives the refusal.
proof fn lemma_repeated_cause(ids: Seq<Seq<char>>, i: int) -> (b: int)
    requires
        0 <= i <= ids.len(),
    ensures
        i <= b <= ids.len(),
        forall|j: int| i <= j < b ==> !validation::is_repeated(ids, j),
        b < ids.len() ==> validation::is_repeated(ids, b) && validation::first_repeated(ids, i)
            == Some(ids[b]),
        b == ids.len() ==> validation::first_repeated(ids, i) is None,
    decreases ids.len() - i,
{
    if i == ids.len() || validation::is_repeated(ids, i) {
        i
    } else {
        lemma_repeated_cause(ids, i + 1)
    }
}

/// The first bad edge, from the one at `i` on, gives the refusal.
proof fn lemma_edge_cause(ids: Seq<Seq<char>>, dag: Seq<EdgeModel>, i: int) -> (b: int)
    requires
        0 <= i <= dag.len(),
    ensures
        i <= b <= dag.len(),
        forall|j: int|
            i <= j < b ==> (#[trigger] dag[j]).from != dag[j].to && ids.contains(dag[j].from)
                && ids.contains(dag[j].to),
        b < dag.len() ==> validation::first_edge_problem(ids, dag, i) == validation::edge_problem(
            ids,
            dag[b],
        ) && validation::edge_problem(ids, dag[b]) is Some,
        b == dag.len() ==> validation::first_edge_problem(ids, dag, i) is None,
    decreases dag.len() - i,
{
    if i == dag.len() || validation::edge_problem(ids, dag[i]) is Some {
        i
    } else {
        lemma_edge_cause(ids, dag, i + 1)
    }
}

/// The first climbing pattern, from the one at `i` on, gives the refusal.
proof fn lemma_climbing_cause(capture: Seq<CaptureModel>, i: int) -> (b: int)
    requires
        0 <= i <= capture.len(),
    ensures
        i <= b <= capture.len(),
        forall|j: int| i <= j < b ==> !paths::may_climb((#[trigger] capture[j]).path),
        b < capture.len() ==> paths::may_climb(capture[b].path) && validation::first_climbing(
            capture,
            i,
        ) == Some(capture[b].path),
        b == capture.len() ==> validation::first_climbing(capture, i) is None,
    decreases capture.len() - i,
{
    if i == capture.len() || paths::may_climb(capture[i].path) {
        i
    } else {
        lemma_climbing_cause(capture, i + 1)
    }
}

/// A request is refused as empty exactly where it has neither commands nor
/// steps, and for its number of commands exactly where there are over fifty.
pub proof fn law_number_is_checked_first(req: RequestModel)
    requires
        req.commands.len() <= usize::MAX,
        req.steps.len() <= usize::MAX,
    ensures
        validation::problem(req) == Some(ErrorModel::Empty) <==> req.commands.len() == 0
            && req.steps.len() == 0,
        req.commands.len() > 50 ==> validation::problem(req) == Some(
            ErrorModel::TooManyCommands(req.commands.len() as usize),
        ),
        req.commands.len() == 0 && req.steps.len() > 50 ==> validation::problem(req) == Some(
            ErrorModel::TooManyCommands(req.steps.len() as usize),
        ),
        validation::problem(req) matches Some(ErrorModel::TooManyCommands(n)) ==> n > 50 && (n
            == req.commands.len() || (req.commands.len() == 0 && n == req.steps.len())),
{
    let ids = validation::ids_of(req.flat());
    let b = lemma_step_cause(req.flat(), req.allow_dangerous, 0);
    let d = lemma_edge_cause(ids, req.dag, 0);
}

/// The first step, in order, that may not run is the one that a request is
/// refused for: for its shell, which is named, or for its command, with the
/// reason of the denial.
pub proof fn law_first_bad_step_is_named(req: RequestModel, i: int)
    requires
        validation::layout_steps(req).len() <= 50,
        0 <= i < validation::layout_steps(req).len(),
        forall|j: int|
            0 <= j < i ==> may_run(
                #[trigger] validation::layout_steps(req)[j],
                req.allow_dangerous,
            ),
        !may_run(validation::layout_steps(req)[i], req.allow_dangerous),
    ensures
        ({
            let s = validation::layout_steps(req)[i];
            let known = s.shell is None || s.shell == Some(seq!['s', 'h']) || s.shell == Some(
                seq!['b', 'a', 's', 'h'],
            );
            &&& !known ==> validation::problem(req) == Some(
                ErrorModel::BadShell { id: s.id->0, got: s.shell->0 },
            )
            &&& known ==> validation::problem(req) == Some(
                ErrorModel::Dangerous { id: s.id->0, reason: shell::denial(s.cmd)->0 },
            )
        }),
{
    reveal_strlit("sh");
    reveal_strlit("bash");
    assert("sh"@ =~= seq!['s', 'h']);
    assert("bash"@ =~= seq!['b', 'a', 's', 'h']);
    let steps = req.flat();
    let laid = validation::layout_steps(req);
    lemma_laid_id(req, i);
    let b = lemma_step_cause(steps, req.allow_dangerous, 0);
    assert(laid[i].shell == steps[i].shell && laid[i].cmd == steps[i].cmd);
    assert(!may_run(steps[i], req.allow_dangerous));
    if b < i {
        assert(laid[b].shell == steps[b].shell && laid[b].cmd == steps[b].cmd);
        assert(may_run(laid[b], req.allow_dangerous));
    }
    assert(b == i);
}

/// Where all steps may run, the first id, in order, that an earlier step has
/// too is the one that a request is refused for.
pub proof fn law_first_repeated_id_is_named(req: RequestModel, h: int, i: int)
    requires
        validation::layout_steps(req).len() <= 50,
        0 <= h < i < validation::layout_steps(req).len(),
        forall|j: int|
            0 <= j < validation::layout_steps(req).len() ==> may_run(
                #[trigger] validation::layout_steps(req)[j],
                req.allow_dangerous,
            ),
        forall|j: int, k: int|
            0 <= j < k < i ==> (#[trigger] validation::layout_steps(req)[j]).id != (
            #[trigger] validation::layout_steps(req)[k]).id,
        validation::layout_steps(req)[h].id == validation::layout_steps(req)[i].id,
    ensures
        validation::problem(req) == Some(
            ErrorModel::DuplicateId(validation::layout_steps(req)[i].id->0),
        ),
{
    let steps = req.flat();
    let laid = validation::layout_steps(req);
    let ids = validation::ids_of(steps);
    let b = lemma_step_cause(steps, req.allow_dangerous, 0);
    if b < steps.len() {
        assert(laid[b].shell == steps[b].shell && laid[b].cmd == steps[b].cmd);
        assert(may_run(laid[b], req.allow_dangerous));
    }
    lemma_laid_id(req, h);
    lemma_laid_id(req, i);
    assert(ids[h] == ids[i]);
    assert(validation::is_repeated(ids, i));
    let c = lemma_repeated_cause(ids, 0);
    if c < i {
        let j = choose|j: int| 0 <= j < c && #[trigger] ids[j] == ids[c];
        lemma_laid_id(req, j);
        lemma_laid_id(req, c);
        assert(laid[j].id != laid[c].id);
    }
    assert(c == i);
}

/// Where steps and ids are in order, the first bad edge of the `dag` is the one
/// that a request is refused for: as unknown where it names an id that no step
/// has, as a circle where it joins a step to itself.
pub proof fn law_first_bad_edge_is_named(req: RequestModel, k: int)
    requires
        1 <= validation::layout_steps(req).len() <= 50,
        forall|j: int|
            0 <= j < validation::layout_steps(req).len() ==> may_run(
                #[trigger] validation::layout_steps(req)[j],
                req.allow_dangerous,
            ),
        forall|i: int, j: int|
            0 <= i < j < validation::layout_steps(req).len() ==> (
            #[trigger] validation::layout_steps(req)[i]).id != (
            #[trigger] validation::layout_steps(req)[j]).id,
        0 <= k < req.dag.len(),
        forall|m: int|
            0 <= m < k ==> (#[trigger] req.dag[m]).from != req.dag[m].to && (exists|f: int|
                0 <= f < validation::layout_steps(req).len() && (
                #[trigger] validation::layout_steps(req)[f]).id == Some(req.dag[m].from))
                && exists|t: int|
                0 <= t < validation::layout_steps(req).len() && (
                #[trigger] validation::layout_steps(req)[t]).id == Some(req.dag[m].to),
    ensures
        ({
            let laid = validation::layout_steps(req);
            let e = req.dag[k];
            let known = (exists|f: int|
                0 <= f < laid.len() && (#[trigger] laid[f]).id == Some(e.from)) && exists|t: int|
                0 <= t < laid.len() && (#[trigger] laid[t]).id == Some(e.to);
            &&& !known ==> validation::problem(req) == Some(
                ErrorModel::UnknownDep { from: e.from, to: e.to },
            )
            &&& known && e.from == e.to ==> validation::problem(req) == Some(
                ErrorModel::Cycle(e.to),
            )
        }),
{
    let steps = req.flat();
    let laid = validation::layout_steps(req);
    let ids = validation::ids_of(steps);
    let b = lemma_step_cause(steps, req.allow_dangerous, 0);
    if b < steps.len() {
        assert(laid[b].shell == steps[b].shell && laid[b].cmd == steps[b].cmd);
        assert(may_run(laid[b], req.allow_dangerous));
    }
    assert forall|i: int, j: int| 0 <= i < j < ids.len() implies #[trigger] ids[i]
        != #[trigger] ids[j] by {
        lemma_laid_id(req, i);
        lemma_laid_id(req, j);
        assert(laid[i].id != laid[j].id);
    }
    validation::lemma_not_repeated(ids, 0);
    assert forall|x: Seq<char>| #[trigger] ids.contains(x) <==> exists|f: int|
        0 <= f < laid.len() && (#[trigger] laid[f]).id == Some(x) by {
        if ids.contains(x) {
            let f = choose|f: int| 0 <= f < ids.len() && ids[f] == x;
            lemma_laid_id(req, f);
            assert(laid[f].id == Some(x));
        }
        if exists|f: int| 0 <= f < laid.len() && (#[trigger] laid[f]).id == Some(x) {
            let f = choose|f: int| 0 <= f < laid.len() && (#[trigger] laid[f]).id == Some(x);
            lemma_laid_id(req, f);
            assert(ids[f] == x);
        }
    }
    let d = lemma_edge_cause(ids, req.dag, 0);
    let e = req.dag[k];
    if d < k {
        assert(req.dag[d].from != req.dag[d].to);
        assert(ids.contains(req.dag[d].from) && ids.contains(req.dag[d].to));
    }
    if d > k {
        assert(e.from != e.to);
        assert(ids.contains(e.from) && ids.contains(e.to));
    }
}

/// Step `i` is stuck.
#[verifier::opaque]
spec fn stands(n: int, links: Set<(int, int)>, i: int) -> bool {
    graph::is_stuck(n, links, i)
}

/// A stuck step waits for a stuck step.
proof fn lemma_stands(n: int, links: Set<(int, int)>, t: int) -> (f: int)
    requires
        stands(n, links, t),
    ensures
        0 <= t < n,
        0 <= f < n,
        stands(n, links, f),
        links.contains((f, t)),
{
    reveal(stands);
    let s = choose|s: Set<int>| #[trigger] graph::is_waiting_set(n, links, s) && s.contains(t);
    let f = choose|f: int| #[trigger] s.contains(f) && links.contains((f, t));
    assert(graph::is_stuck(n, links, f));
    f
}

/// Steps that wait for each other form a set of waiting steps.
proof fn lemma_waiting_set(n: int, links: Set<(int, int)>, s: Set<int>)
    requires
        forall|t: int| #[trigger] s.contains(t) ==> 0 <= t < n && waits_among(links, s, t),
    ensures
        graph::is_waiting_set(n, links, s),
{
    assert forall|t: int| #[trigger] s.contains(t) implies 0 <= t < n && exists|f: int| #[trigger]
        s.contains(f) && links.contains((f, t)) by {
        assert(waits_among(links, s, t));
        reveal(waits_among);
    }
}

/// Steps that wait for each other are stuck.
proof fn lemma_waiting_stands(n: int, links: Set<(int, int)>, s: Set<int>, i: int)
    requires
        forall|t: int| #[trigger] s.contains(t) ==> 0 <= t < n && waits_among(links, s, t),
        s.contains(i),
    ensures
        0 <= i < n,
        stands(n, links, i),
{
    lemma_waiting_set(n, links, s);
    assert(waits_among(links, s, i));
    assert(stands(n, links, i)) by {
        reveal(stands);
    }
}

/// Some step is stuck.
#[verifier::opaque]
spec fn some_stands(n: int, links: Set<(int, int)>) -> bool {
    graph::has_stuck(n, links)
}

/// Some step is stuck exactly where one of them is.
proof fn lemma_some_stands(n: int, links: Set<(int, int)>)
    ensures
        some_stands(n, links) <==> exists|i: int| 0 <= i < n && #[trigger] stands(n, links, i),
{
    reveal(some_stands);
    if graph::has_stuck(n, links) {
        let i = choose|i: int| graph::is_stuck(n, links, i);
        assert(stands(n, links, i)) by {
            reveal(stands);
        }
        let f = lemma_stands(n, links, i);
    }
    if exists|i: int| 0 <= i < n && #[trigger] stands(n, links, i) {
        let i = choose|i: int| 0 <= i < n && #[trigger] stands(n, links, i);
        reveal(stands);
        assert(graph::is_stuck(n, links, i));
    }
}

/// The numbers of the stuck ones among the first `k` steps, in order.
proof fn lemma_stuck_numbers(ids: Seq<Seq<char>>, links: Set<(int, int)>, k: int) -> (at: Seq<int>)
    requires
        0 <= k <= ids.len(),
    ensures
        validation::stuck_ids(ids, links, k) == at.map_values(|i: int| ids[i]),
        forall|a: int| 0 <= a < at.len() ==> 0 <= #[trigger] at[a] < k,
        forall|a: int, b: int| 0 <= a < b < at.len() ==> #[trigger] at[a] < #[trigger] at[b],
        forall|a: int| 0 <= a < at.len() ==> stands(ids.len() as int, links, #[trigger] at[a]),
        forall|i: int| 0 <= i < k && #[trigger] stands(ids.len() as int, links, i) ==> at.contains(i),
    decreases k,
{
    if k == 0 {
        let at = Seq::<int>::empty();
        assert(validation::stuck_ids(ids, links, k) =~= at.map_values(|i: int| ids[i]));
        at
    } else {
        let front = lemma_stuck_numbers(ids, links, k - 1);
        let n = ids.len() as int;
        assert(stands(n, links, k - 1) <==> graph::is_stuck(n, links, k - 1)) by {
            reveal(stands);
        }
        if stands(n, links, k - 1) {
            let at = front.push(k - 1);
            assert(validation::stuck_ids(ids, links, k) =~= at.map_values(|i: int| ids[i]));
            assert forall|i: int| 0 <= i < k && #[trigger] stands(
                n,
                links,
                i,
            ) implies at.contains(i) by {
                if i == k - 1 {
                    assert(at[front.len() as int] == i);
                } else {
                    assert(front.contains(i));
                    let a = choose|a: int| 0 <= a < front.len() && front[a] == i;
                    assert(at[a] == i);
                }
            }
            at
        } else {
            front
        }
    }
}

/// Step `t` waits for one of the steps of `s`.
#[verifier::opaque]
pub open spec fn waits_among(links: Set<(int, int)>, s: Set<int>, t: int) -> bool {
    exists|f: int| #[trigger] s.contains(f) && links.contains((f, t))
}

/// Where steps, ids and edges are in order, what is left to check are circles
/// and patterns.
proof fn lemma_checks_so_far(req: RequestModel)
    requires
        1 <= validation::layout_steps(req).len() <= 50,
        forall|j: int|
            0 <= j < validation::layout_steps(req).len() ==> may_run(
                #[trigger] validation::layout_steps(req)[j],
                req.allow_dangerous,
            ),
        forall|i: int, j: int|
            0 <= i < j < validation::layout_steps(req).len() ==> (
            #[trigger] validation::layout_steps(req)[i]).id != (
            #[trigger] validation::layout_steps(req)[j]).id,
        forall|m: int|
            0 <= m < req.dag.len() ==> (#[trigger] req.dag[m]).from != req.dag[m].to && (exists|
                f: int,
            |
                0 <= f < validation::layout_steps(req).len() && (
                #[trigger] validation::layout_steps(req)[f]).id == Some(req.dag[m].from))
                && exists|t: int|
                0 <= t < validation::layout_steps(req).len() && (
                #[trigger] validation::layout_steps(req)[t]).id == Some(req.dag[m].to),
    ensures
        validation::first_step_problem(req.flat(), req.allow_dangerous, 0) is None,
        validation::first_repeated(validation::ids_of(req.flat()), 0) is None,
        validation::first_edge_problem(validation::ids_of(req.flat()), req.dag, 0) is None,
{
    let steps = req.flat();
    let laid = validation::layout_steps(req);
    let ids = validation::ids_of(steps);
    let b = lemma_step_cause(steps, req.allow_dangerous, 0);
    if b < steps.len() {
        assert(laid[b].shell == steps[b].shell && laid[b].cmd == steps[b].cmd);
        assert(may_run(laid[b], req.allow_dangerous));
    }
    assert forall|i: int, j: int| 0 <= i < j < ids.len() implies #[trigger] ids[i]
        != #[trigger] ids[j] by {
        lemma_laid_id(req, i);
        lemma_laid_id(req, j);
        assert(laid[i].id != laid[j].id);
    }
    validation::lemma_not_repeated(ids, 0);
    assert forall|k: int| 0 <= k < req.dag.len() implies (#[trigger] req.dag[k]).from
        != req.dag[k].to && ids.contains(req.dag[k].from) && ids.contains(req.dag[k].to) by {
        let f = choose|f: int|
            0 <= f < laid.len() && (#[trigger] laid[f]).id == Some(req.dag[k].from);
        let t = choose|t: int| 0 <= t < laid.len() && (#[trigger] laid[t]).id == Some(req.dag[k].to);
        lemma_laid_id(req, f);
        lemma_laid_id(req, t);
        assert(ids[f] == req.dag[k].from && ids[t] == req.dag[k].to);
    }
    lemma_no_edge_problem(ids, req.dag, 0);
}

/// Once steps, ids and edges are in order, a circle is what is refused next.
proof fn lemma_circle_is_next(req: RequestModel)
    requires
        1 <= req.flat().len() <= 50,
        validation::first_step_problem(req.flat(), req.allow_dangerous, 0) is None,
        validation::first_repeated(validation::ids_of(req.flat()), 0) is None,
        validation::first_edge_problem(validation::ids_of(req.flat()), req.dag, 0) is None,
    ensures
        ({
            let ids = validation::ids_of(req.flat());
            let links = batch::initial(req).schedule.links;
            if some_stands(ids.len() as int, links) {
                validation::problem(req) == Some(
                    ErrorModel::Cycle(
                        text::joined(
                            validation::stuck_ids(ids, links, ids.len() as int),
                            ", "@,
                        ),
                    ),
                )
            } else {
                !(validation::problem(req) matches Some(ErrorModel::Cycle(_)))
            }
        }),
{
    reveal(some_stands);
}

/// The stuck steps: each waits for one of them, and any steps that wait for
/// each other are among them.
proof fn lemma_stuck_steps(ids: Seq<Seq<char>>, links: Set<(int, int)>) -> (at: Seq<int>)
    ensures
        validation::stuck_ids(ids, links, ids.len() as int) == at.map_values(|i: int| ids[i]),
        at.len() > 0 <==> some_stands(ids.len() as int, links),
        forall|a: int| 0 <= a < at.len() ==> 0 <= #[trigger] at[a] < ids.len(),
        forall|a: int, b: int| 0 <= a < b < at.len() ==> #[trigger] at[a] < #[trigger] at[b],
        forall|a: int|
            0 <= a < at.len() ==> #[trigger] waits_among(links, at.to_set(), at[a]),
        forall|s: Set<int>, i: int|
            (forall|t: int| #[trigger]
                s.contains(t) ==> 0 <= t < ids.len() && waits_among(links, s, t))
                && #[trigger] s.contains(i) ==> at.contains(i),
{
    let n = ids.len() as int;
    let at = lemma_stuck_numbers(ids, links, n);
    lemma_some_stands(n, links);
    if at.len() > 0 {
        assert(stands(n, links, at[0]));
    }
    if exists|i: int| 0 <= i < n && #[trigger] stands(n, links, i) {
        let i = choose|i: int| 0 <= i < n && #[trigger] stands(n, links, i);
        assert(at.contains(i));
    }
    assert forall|a: int| 0 <= a < at.len() implies #[trigger] waits_among(
        links,
        at.to_set(),
        at[a],
    ) by {
        let f = lemma_stands(n, links, at[a]);
        assert(at.contains(f));
        assert(at.to_set().contains(f));
        reveal(waits_among);
    }
    assert forall|s: Set<int>, i: int|
        (forall|t: int| #[trigger]
            s.contains(t) ==> 0 <= t < n && waits_among(links, s, t)) && #[trigger] s.contains(
            i,
        ) implies at.contains(i) by {
        lemma_waiting_stands(n, links, s, i);
    }
    at
}

/// Where steps, ids and edges are in order but the steps cannot be put in
/// order, the refusal lists the ids of certain steps in their order: each of
/// these waits for one of them, and any steps that wait for each other are
/// among them.
pub proof fn law_circle_is_listed(req: RequestModel) -> (at: Seq<int>)
    requires
        1 <= validation::layout_steps(req).len() <= 50,
        forall|j: int|
            0 <= j < validation::layout_steps(req).len() ==> may_run(
                #[trigger] validation::layout_steps(req)[j],
                req.allow_dangerous,
            ),
        forall|i: int, j: int|
            0 <= i < j < validation::layout_steps(req).len() ==> (
            #[trigger] validation::layout_steps(req)[i]).id != (
            #[trigger] validation::layout_steps(req)[j]).id,
        forall|m: int|
            0 <= m < req.dag.len() ==> (#[trigger] req.dag[m]).from != req.dag[m].to && (exists|
                f: int,
            |
                0 <= f < validation::layout_steps(req).len() && (
                #[trigger] validation::layout_steps(req)[f]).id == Some(req.dag[m].from))
                && exists|t: int|
                0 <= t < validation::layout_steps(req).len() && (
                #[trigger] validation::layout_steps(req)[t]).id == Some(req.dag[m].to),
    ensures
        at.len() > 0 ==> validation::problem(req) == Some(
            ErrorModel::Cycle(
                text::joined(
                    at.map_values(|i: int| validation::layout_steps(req)[i].id->0),
                    seq![',', ' '],
                ),
            ),
        ),
        at.len() == 0 ==> !(validation::problem(req) matches Some(ErrorModel::Cycle(_))),
        forall|a: int, b: int| 0 <= a < b < at.len() ==> #[trigger] at[a] < #[trigger] at[b],
        forall|a: int|
            0 <= a < at.len() ==> #[trigger] waits_among(
                batch::initial(req).schedule.links,
                at.to_set(),
                at[a],
            ),
        forall|s: Set<int>, i: int|
            (forall|t: int| #[trigger]
                s.contains(t) ==> 0 <= t < validation::layout_steps(req).len() && waits_among(
                    batch::initial(req).schedule.links,
                    s,
                    t,
                ))
                && #[trigger] s.contains(i) ==> at.contains(i),
{
    let laid = validation::layout_steps(req);
    let ids = validation::ids_of(req.flat());
    let links = batch::initial(req).schedule.links;
    lemma_checks_so_far(req);
    lemma_circle_is_next(req);
    let at = lemma_stuck_steps(ids, links);
    reveal_strlit(", ");
    assert(", "@ =~= seq![',', ' ']);
    assert(at.map_values(|i: int| ids[i]) =~= at.map_values(|i: int| laid[i].id->0));
    at
}

/// Where all else is in order, the first pattern, in order, that climbs is the
/// one that a request is refused for.
pub proof fn law_first_climbing_pattern_is_named(req: RequestModel, k: int)
    requires
        0 <= k < req.capture.len(),
        forall|j: int| 0 <= j < k ==> !paths::may_climb((#[trigger] req.capture[j]).path),
        paths::may_climb(req.capture[k].path),
        validation::problem((RequestModel { capture: Seq::empty(), ..req })) is None,
    ensures
        validation::problem(req) == Some(ErrorModel::CaptureTraversal(req.capture[k].path)),
{
    let other = RequestModel { capture: Seq::empty(), ..req };
    assert(other.flat() == req.flat());
    assert(validation::layout_edges(other) == validation::layout_edges(req));
    let c = lemma_climbing_cause(req.capture, 0);
}

} // verus!
