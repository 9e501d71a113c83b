//! Showing what a request would run, without running it.

use vstd::prelude::*;
use crate::protocol::BatchError;
use crate::protocol::BatchRequest;
use crate::protocol::Edge;
use crate::protocol::EdgeModel;
use crate::protocol::Step;
use crate::protocol::StepModel;
use crate::protocol;
use crate::text;
use crate::validation;

verus! {

// ---------- the plan ----------

/// One step of a plan.
#[derive(Debug, Clone, PartialEq, Eq)]
pub struct PlanEntry {
    pub id: String,
    pub cmd: String,
    pub cwd: Option<String>,
    /// The ids of the steps that it waits for.
    pub after: Vec<String>,
}

/// The contents of a [`PlanEntry`].
pub struct PlanModel {
    pub id: Seq<char>,
    pub cmd: Seq<char>,
    pub cwd: Option<Seq<char>>,
    pub after: Seq<Seq<char>>,
}

impl View for PlanEntry {
    type V = PlanModel;

    open spec fn view(&self) -> PlanModel {
        PlanModel {
            id: self.id@,
            cmd: self.cmd@,
            cwd: text::optional(self.cwd),
            after: text::texts(self.after@),
        }
    }
}

/// The contents of each of `v`.
pub open spec fn plan_models(v: Seq<PlanEntry>) -> Seq<PlanModel> {
    v.map_values(|p: PlanEntry| p@)
}

/// The ids that `id` waits for, in the order of the dependencies.
pub open spec fn after_of(edges: Seq<EdgeModel>, id: Seq<char>) -> Seq<Seq<char>>
    decreases edges.len(),
{
    if edges.len() == 0 {
        Seq::empty()
    } else if edges.last().to == id {
        after_of(edges.drop_last(), id).push(edges.last().from)
    } else {
        after_of(edges.drop_last(), id)
    }
}

/// The plan for steps with the given dependencies.
pub open spec fn planned(steps: Seq<StepModel>, edges: Seq<EdgeModel>) -> Seq<PlanModel> {
    Seq::new(
        steps.len(),
        |i: int|
            PlanModel {
                id: steps[i].id->0,
                cmd: steps[i].cmd,
                cwd: steps[i].cwd,
                after: after_of(edges, steps[i].id->0),
            },
    )
}

/// The ids that `id` waits for.
fn waits_for(edges: &Vec<Edge>, id: &String) -> (r: Vec<String>)
    ensures
        text::texts(r@) == after_of(protocol::edge_models(edges@), id@),
{
    let ghost models = protocol::edge_models(edges@);
    let mut out: Vec<String> = Vec::new();
    let mut i: usize = 0;
    assert(models.take(0) =~= Seq::<EdgeModel>::empty());
    assert(text::texts(out@) =~= Seq::<Seq<char>>::empty());
    while i < edges.len()
        invariant
            i <= edges@.len(),
            models == protocol::edge_models(edges@),
            text::texts(out@) == after_of(models.take(i as int), id@),
        decreases edges@.len() - i,
    {
        let ghost before = out@;
        proof {
            assert(models.take(i + 1).drop_last() =~= models.take(i as int));
            assert(models[i as int] == edges@[i as int]@);
        }
        if edges[i].to == *id {
            out.push(edges[i].from.clone());
            assert(text::texts(out@) =~= text::texts(before).push(edges@[i as int].from@));
        }
        i += 1;
    }
    assert(models.take(i as int) =~= models);
    out
}

/// The id of a named step.
fn named(step: &Step) -> (r: String)
    requires
        step.id is Some,
    ensures
        Some(r@) == step@.id,
{
    match &step.id {
        Some(id) => id.clone(),
        None => String::new(),
    }
}

/// Steps of a valid request have ids.
proof fn lemma_named(steps: Seq<Step>, flat: Seq<StepModel>)
    requires
        protocol::step_models(steps) == validation::with_ids(flat),
    ensures
        forall|i: int| 0 <= i < steps.len() ==> (#[trigger] steps[i]).id is Some,
{
    assert(protocol::step_models(steps).len() == flat.len());
    assert forall|i: int| 0 <= i < steps.len() implies (#[trigger] steps[i]).id is Some by {
        assert(protocol::step_models(steps)[i] == steps[i]@);
        assert(validation::with_ids(flat)[i].id is Some);
    }
}

/// What a request would run: each step's id, command and directory, and what
/// it waits for. The request is refused as [`validation::validate`] does.
pub fn plan(req: &BatchRequest) -> (r: Result<Vec<PlanEntry>, BatchError>)
    ensures
        match r {
            Ok(p) => {
                &&& validation::problem(req@) is None
                &&& plan_models(p@) == planned(
                    validation::layout_steps(req@),
                    validation::layout_edges(req@),
                )
            },
            Err(e) => validation::problem(req@) == Some(e@),
        },
{
    let (steps, edges) = match validation::validate(req) {
        Ok(pair) => pair,
        Err(e) => {
            return Err(e);
        },
    };
    let ghost ms = validation::layout_steps(req@);
    let ghost me = validation::layout_edges(req@);
    proof {
        lemma_named(steps@, req@.flat());
    }
    let mut out: Vec<PlanEntry> = Vec::new();
    let mut i: usize = 0;
    while i < steps.len()
        invariant
            i <= steps@.len(),
            out@.len() == i,
            ms == protocol::step_models(steps@),
            me == protocol::edge_models(edges@),
            forall|j: int| 0 <= j < steps@.len() ==> (#[trigger] steps@[j]).id is Some,
            forall|j: int| 0 <= j < i ==> (#[trigger] out@[j])@ == planned(ms, me)[j],
        decreases steps@.len() - i,
    {
        assert(ms[i as int] == steps@[i as int]@);
        let id = named(&steps[i]);
        let after = waits_for(&edges, &id);
        out.push(
            PlanEntry {
                id,
                cmd: steps[i].cmd.clone(),
                cwd: protocol::copy_optional(&steps[i].cwd),
                after,
            },
        );
        i += 1;
    }
    assert(plan_models(out@) =~= planned(ms, me));
    Ok(out)
}

// ---------- the graph as text ----------

/// `names` without repetitions: each where it first stands.
pub open spec fn distinct(names: Seq<Seq<char>>) -> Seq<Seq<char>>
    decreases names.len(),
{
    if names.len() == 0 {
        Seq::empty()
    } else {
        let front = distinct(names.drop_last());
        if front.contains(names.last()) {
            front
        } else {
            front.push(names.last())
        }
    }
}

/// The line of one step: its id, its command and what it waits for.
pub open spec fn dag_line(p: PlanModel) -> Seq<char> {
    let head = p.id + "\t"@ + p.cmd;
    if p.after.len() == 0 {
        head + "\n"@
    } else {
        head + "\t[after: "@ + text::joined(distinct(p.after), ", "@) + "]\n"@
    }
}

/// The lines of steps.
pub open spec fn dag_lines(entries: Seq<PlanModel>) -> Seq<char>
    decreases entries.len(),
{
    if entries.len() == 0 {
        Seq::empty()
    } else {
        dag_lines(entries.drop_last()) + dag_line(entries.last())
    }
}

/// `names` without repetitions.
fn keep_distinct(names: &Vec<String>) -> (r: Vec<String>)
    ensures
        text::texts(r@) == distinct(text::texts(names@)),
{
    let ghost all = text::texts(names@);
    let mut out: Vec<String> = Vec::new();
    let mut i: usize = 0;
    assert(all.take(0) =~= Seq::<Seq<char>>::empty());
    assert(text::texts(out@) =~= Seq::<Seq<char>>::empty());
    while i < names.len()
        invariant
            i <= names@.len(),
            all == text::texts(names@),
            text::texts(out@) == distinct(all.take(i as int)),
        decreases names@.len() - i,
    {
        let ghost front = text::texts(out@);
        let ghost before = out@;
        proof {
            assert(all.take(i + 1).drop_last() =~= all.take(i as int));
            assert(all[i as int] == names@[i as int]@);
        }
        let mut known = false;
        let mut j: usize = 0;
        while j < out.len()
            invariant
                i < names@.len(),
                j <= out@.len(),
                known ==> text::texts(out@).contains(names@[i as int]@),
                !known ==> forall|k: int|
                    0 <= k < j ==> #[trigger] text::texts(out@)[k] != names@[i as int]@,
            decreases out@.len() - j,
        {
            assert(text::texts(out@)[j as int] == out@[j as int]@);
            if out[j] == names[i] {
                known = true;
            }
            j += 1;
        }
        if !known {
            out.push(names[i].clone());
            assert(text::texts(out@) =~= text::texts(before).push(names@[i as int]@));
        }
        i += 1;
    }
    assert(all.take(i as int) =~= all);
    out
}

/// The dependency graph of a request as text, one line for each step. The
/// request is refused as [`validation::validate`] does.
pub fn list_dag(req: &BatchRequest) -> (r: Result<String, BatchError>)
    ensures
        match r {
            Ok(t) => {
                &&& validation::problem(req@) is None
                &&& t@ == dag_lines(
                    planned(validation::layout_steps(req@), validation::layout_edges(req@)),
                )
            },
            Err(e) => validation::problem(req@) == Some(e@),
        },
{
    let entries = match plan(req) {
        Ok(p) => p,
        Err(e) => {
            return Err(e);
        },
    };
    let ghost models = plan_models(entries@);
    let mut out = String::new();
    let mut i: usize = 0;
    assert(models.take(0) =~= Seq::<PlanModel>::empty());
    while i < entries.len()
        invariant
            i <= entries@.len(),
            models == plan_models(entries@),
            out@ == dag_lines(models.take(i as int)),
        decreases entries@.len() - i,
    {
        let ghost before = out@;
        let p = &entries[i];
        proof {
            assert(models.take(i + 1).drop_last() =~= models.take(i as int));
            assert(models[i as int] == p@);
        }
        out.append(p.id.as_str());
        out.append("\t");
        out.append(p.cmd.as_str());
        if p.after.len() == 0 {
            out.append("\n");
        } else {
            let names = keep_distinct(&p.after);
            out.append("\t[after: ");
            out.append(text::join(&names, ", ").as_str());
            out.append("]\n");
        }
        assert(out@ =~= before + dag_line(p@));
        i += 1;
    }
    assert(models.take(i as int) =~= models);
    Ok(out)
}

} // verus!
