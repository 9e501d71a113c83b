//! What holds of every plan, of what is said on the command line, and of what
//! is said about a refused request.

use vstd::prelude::*;
use crate::cli;
use crate::cli::Emit;
use crate::plan;
use crate::plan::PlanModel;
use crate::protocol::EdgeModel;
use crate::protocol::ErrorModel;
use crate::protocol::RequestModel;
use crate::protocol::ResultModel;
use crate::protocol::StepModel;
use crate::text;

verus! {

// ---------- plans ----------

/// A plan has one entry for each step, in order, with its id, its command and
/// its directory.
pub proof fn law_plan_has_all_steps(steps: Seq<StepModel>, edges: Seq<EdgeModel>, i: int)
    ensures
        plan::planned(steps, edges).len() == steps.len(),
        0 <= i < steps.len() ==> {
            let p = plan::planned(steps, edges)[i];
            &&& steps[i].id matches Some(id) ==> p.id == id
            &&& p.cmd == steps[i].cmd
            &&& p.cwd == steps[i].cwd
            &&& p.after == plan::after_of(edges, p.id)
        },
{
}

/// A step comes after those from which an edge leads to it, in the order of
/// the edges.
pub proof fn law_after(a: Seq<EdgeModel>, b: Seq<EdgeModel>, e: EdgeModel, id: Seq<char>)
    ensures
        plan::after_of(Seq::empty(), id) == Seq::<Seq<char>>::empty(),
        plan::after_of(seq![e], id) == if e.to == id {
            seq![e.from]
        } else {
            Seq::empty()
        },
        plan::after_of(a + b, id) == plan::after_of(a, id) + plan::after_of(b, id),
    decreases b.len(),
{
    let none = Seq::<EdgeModel>::empty();
    assert(seq![e].drop_last() =~= none);
    assert(plan::after_of(none, id) =~= Seq::empty());
    assert(Seq::<Seq<char>>::empty().push(e.from) =~= seq![e.from]);
    if b.len() == 0 {
        assert(a + b =~= a);
        assert(plan::after_of(a, id) + plan::after_of(b, id) =~= plan::after_of(a, id));
    } else {
        assert((a + b).drop_last() =~= a + b.drop_last());
        assert((a + b).last() == b.last());
        law_after(a, b.drop_last(), e, id);
        assert((plan::after_of(a, id) + plan::after_of(b.drop_last(), id)).push(b.last().from)
            =~= plan::after_of(a, id) + plan::after_of(b.drop_last(), id).push(b.last().from));
    }
}

/// `x` is among those that a step comes after exactly where an edge says so.
pub proof fn law_after_exactly(edges: Seq<EdgeModel>, id: Seq<char>, x: Seq<char>)
    ensures
        plan::after_of(edges, id).contains(x) <==> exists|k: int|
            0 <= k < edges.len() && (#[trigger] edges[k]).from == x && edges[k].to == id,
    decreases edges.len(),
{
    if edges.len() > 0 {
        let t = edges.drop_last();
        let front = plan::after_of(t, id);
        let all = plan::after_of(edges, id);
        law_after_exactly(t, id, x);
        if all.contains(x) {
            let j = choose|j: int| 0 <= j < all.len() && all[j] == x;
            if j < front.len() {
                assert(front[j] == x);
                assert(front.contains(x));
                let k = choose|k: int|
                    0 <= k < t.len() && (#[trigger] t[k]).from == x && t[k].to == id;
                assert(edges[k].from == x && edges[k].to == id);
            } else {
                assert(edges[edges.len() - 1].from == x);
            }
        }
        if exists|k: int| 0 <= k < edges.len() && (#[trigger] edges[k]).from == x && edges[k].to == id {
            let k = choose|k: int|
                0 <= k < edges.len() && (#[trigger] edges[k]).from == x && edges[k].to == id;
            if k < t.len() {
                assert(t[k].from == x && t[k].to == id);
                assert(front.contains(x));
                let j = choose|j: int| 0 <= j < front.len() && front[j] == x;
                assert(all[j] == x);
            } else {
                assert(all[all.len() - 1] == x);
            }
        }
    }
}

/// Of names that occur more than once the first occurrence is kept: one name
/// more is added at the end unless it is there, and nothing is lost.
pub proof fn law_distinct(names: Seq<Seq<char>>, x: Seq<char>)
    ensures
        plan::distinct(Seq::empty()) == Seq::<Seq<char>>::empty(),
        names.contains(x) ==> plan::distinct(names.push(x)) == plan::distinct(names),
        !names.contains(x) ==> plan::distinct(names.push(x)) == plan::distinct(names).push(x),
        plan::distinct(names).contains(x) <==> names.contains(x),
        plan::distinct(names).no_duplicates(),
    decreases names.len(),
{
    assert(names.push(x).drop_last() =~= names);
    lemma_distinct_holds(names, x);
    lemma_distinct_differ(names);
}

/// Taking names once loses none.
proof fn lemma_distinct_holds(names: Seq<Seq<char>>, x: Seq<char>)
    ensures
        plan::distinct(names).contains(x) <==> names.contains(x),
    decreases names.len(),
{
    if names.len() > 0 {
        let t = names.drop_last();
        let front = plan::distinct(t);
        let all = plan::distinct(names);
        lemma_distinct_holds(t, x);
        lemma_distinct_holds(t, names.last());
        if names.contains(x) {
            let i = choose|i: int| 0 <= i < names.len() && names[i] == x;
            if i < t.len() {
                assert(t[i] == x);
                assert(front.contains(x));
                let j = choose|j: int| 0 <= j < front.len() && front[j] == x;
                assert(all[j] == x);
            } else if !front.contains(x) {
                assert(all[all.len() - 1] == x);
            }
        }
        if all.contains(x) {
            let j = choose|j: int| 0 <= j < all.len() && all[j] == x;
            if j < front.len() {
                assert(front[j] == x);
                assert(t.contains(x));
                let i = choose|i: int| 0 <= i < t.len() && t[i] == x;
                assert(names[i] == x);
            } else {
                assert(names[names.len() - 1] == x);
            }
        }
    }
}

/// Names that are taken once are different.
proof fn lemma_distinct_differ(names: Seq<Seq<char>>)
    ensures
        plan::distinct(names).no_duplicates(),
    decreases names.len(),
{
    if names.len() > 0 {
        lemma_distinct_differ(names.drop_last());
        let front = plan::distinct(names.drop_last());
        let all = plan::distinct(names);
        assert forall|i: int, j: int|
            0 <= i < all.len() && 0 <= j < all.len() && i != j implies all[i] != all[j] by {
            if all.len() > front.len() {
                if i < front.len() {
                    assert(front.contains(front[i]));
                }
                if j < front.len() {
                    assert(front.contains(front[j]));
                }
            }
        }
    }
}

/// A line of the listing: id and command with a tab between them, and behind
/// another tab what the step comes after, if anything, each once.
pub proof fn law_listing_line(p: PlanModel)
    ensures
        p.after.len() == 0 ==> plan::dag_line(p) == p.id + seq!['\t'] + p.cmd + seq!['\n'],
        p.after.len() > 0 ==> plan::dag_line(p) == p.id + seq!['\t'] + p.cmd + seq![
            '\t',
            '[',
            'a',
            'f',
            't',
            'e',
            'r',
            ':',
            ' ',
        ] + text::joined(plan::distinct(p.after), seq![',', ' ']) + seq![']', '\n'],
{
    reveal_strlit("\t");
    reveal_strlit("\n");
    reveal_strlit("\t[after: ");
    reveal_strlit(", ");
    reveal_strlit("]\n");
    assert("\t"@ =~= seq!['\t']);
    assert("\n"@ =~= seq!['\n']);
    assert("\t[after: "@ =~= seq!['\t', '[', 'a', 'f', 't', 'e', 'r', ':', ' ']);
    assert(", "@ =~= seq![',', ' ']);
    assert("]\n"@ =~= seq![']', '\n']);
}

/// The listing is the lines of its entries, in order.
pub proof fn law_listing(a: Seq<PlanModel>, b: Seq<PlanModel>, p: PlanModel)
    ensures
        plan::dag_lines(Seq::empty()) == Seq::<char>::empty(),
        plan::dag_lines(seq![p]) == plan::dag_line(p),
        plan::dag_lines(a + b) == plan::dag_lines(a) + plan::dag_lines(b),
    decreases b.len(),
{
    let none = Seq::<PlanModel>::empty();
    assert(seq![p].drop_last() =~= none);
    assert(plan::dag_lines(none) =~= Seq::<char>::empty());
    assert(Seq::<char>::empty() + plan::dag_line(p) =~= plan::dag_line(p));
    if b.len() == 0 {
        assert(a + b =~= a);
        assert(plan::dag_lines(a) + plan::dag_lines(b) =~= plan::dag_lines(a));
    } else {
        assert((a + b).drop_last() =~= a + b.drop_last());
        law_listing(a, b.drop_last(), p);
        assert(plan::dag_lines(a) + plan::dag_lines(b.drop_last()) + plan::dag_line(b.last())
            =~= plan::dag_lines(a) + (plan::dag_lines(b.drop_last()) + plan::dag_line(b.last())));
    }
}

// ---------- the command line ----------

/// Denied commands are permitted where the request or the flag says so; each
/// pattern of the command line is added behind those of the request, without a
/// limit of its own. All else of the request stays.
pub proof fn law_flags(
    req: RequestModel,
    allow_dangerous: bool,
    patterns: Seq<Seq<char>>,
    i: int,
)
    ensures
        ({
            let r = cli::flagged(req, allow_dangerous, patterns);
            &&& r.allow_dangerous <==> req.allow_dangerous || allow_dangerous
            &&& r.capture.len() == req.capture.len() + patterns.len()
            &&& 0 <= i < req.capture.len() ==> r.capture[i] == req.capture[i]
            &&& 0 <= i < patterns.len() ==> {
                &&& r.capture[req.capture.len() + i].path == patterns[i]
                &&& r.capture[req.capture.len() + i].inline_max_bytes is None
            }
            &&& r.steps == req.steps
            &&& r.commands == req.commands
            &&& r.dag == req.dag
            &&& r.concurrency == req.concurrency
            &&& r.timeout_ms == req.timeout_ms
            &&& r.keep_going == req.keep_going
        }),
{
}

/// The times are those of the results, in order, each under its id.
pub proof fn law_timings(results: Seq<ResultModel>, i: int)
    ensures
        cli::timings_of(results).len() == results.len(),
        0 <= i < results.len() ==> cli::timings_of(results)[i] == (
            results[i].id,
            results[i].elapsed_ms,
        ),
{
}

/// What can be written out are a schema, a manual page and completions for
/// three shells, each under one name.
pub proof fn law_targets(target: Seq<char>)
    ensures
        cli::emit_of(target) == Some(Emit::Schema) <==> target == "hermes-tool.json"@,
        cli::emit_of(target) == Some(Emit::Man) <==> target == seq!['m', 'a', 'n'],
        cli::emit_of(target) == Some(Emit::Bash) <==> target == seq!['b', 'a', 's', 'h'],
        cli::emit_of(target) == Some(Emit::Zsh) <==> target == seq!['z', 's', 'h'],
        cli::emit_of(target) == Some(Emit::Fish) <==> target == seq!['f', 'i', 's', 'h'],
{
    reveal_strlit("hermes-tool.json");
    reveal_strlit("man");
    reveal_strlit("bash");
    reveal_strlit("zsh");
    reveal_strlit("fish");
    let h = "hermes-tool.json"@;
    assert(h.len() == 16);
    assert("man"@ =~= seq!['m', 'a', 'n']);
    assert("bash"@ =~= seq!['b', 'a', 's', 'h']);
    assert("zsh"@ =~= seq!['z', 's', 'h']);
    assert("fish"@ =~= seq!['f', 'i', 's', 'h']);
    assert("bash"@[0] == 'b' && "fish"@[0] == 'f' && "man"@[0] == 'm' && "zsh"@[0] == 'z');
    assert("bash"@.len() == 4 && "fish"@.len() == 4 && "man"@.len() == 3 && "zsh"@.len() == 3);
}

/// A name that asks for nothing is answered with the names that there are.
pub proof fn law_unknown_target(quoted: Seq<char>)
    ensures
        cli::unknown_target_text(quoted) == "unknown --emit target "@ + quoted
            + " (supported: hermes-tool.json, man, bash, zsh, fish)"@,
{
}

// ---------- refusals ----------

/// What is said about a refused request names what it is refused for.
pub proof fn law_messages(
    e: ErrorModel,
    first: Seq<char>,
    second: Seq<char>,
)
    ensures
        ({
            let t = e.text(first, second);
            &&& e matches ErrorModel::Empty ==> t == "empty request: provide `steps` or `commands`"@
            &&& e matches ErrorModel::TooManyCommands(n) ==> t == "too many commands: "@
                + text::decimal_of(n as nat) + " > cap 50"@
            &&& e matches ErrorModel::DuplicateId(id) ==> t == "duplicate step id: "@ + first
                && e.first_quoted() == id
            &&& e matches ErrorModel::UnknownDep { from, to } ==> t == "unknown dependency: edge "@
                + first + " -> "@ + second && e.first_quoted() == from && e.second_quoted() == to
            &&& e matches ErrorModel::Cycle(ids) ==> t == "dependency cycle involving: "@ + ids
            &&& e matches ErrorModel::BadShell { id, got } ==> t == "step "@ + first
                + ": shell must be \"sh\" or \"bash\", got "@ + second && e.first_quoted() == id
                && e.second_quoted() == got
            &&& e matches ErrorModel::Dangerous { id, reason } ==> t == "step "@ + first
                + ": denied by safety denylist: "@ + reason
                + " (pass --allow-dangerous to override)"@ && e.first_quoted() == id
            &&& e matches ErrorModel::CaptureTraversal(path) ==> t == "capture "@ + first
                + " contains '..' (path traversal rejected)"@ && e.first_quoted() == path
        }),
{
    if e is TooManyCommands {
        let n = e->TooManyCommands_0;
        reveal_strlit(" > cap ");
        reveal_strlit(" > cap 50");
        reveal_with_fuel(text::decimal_of, 3);
        assert(text::decimal_of(50) =~= seq!['5', '0']) by {
            assert(50nat / 10 == 5nat && 50nat % 10 == 0nat);
        }
        assert(" > cap "@ + text::decimal_of(50) =~= " > cap 50"@);
        assert("too many commands: "@ + text::decimal_of(n as nat) + " > cap "@ + text::decimal_of(
            50,
        ) =~= "too many commands: "@ + text::decimal_of(n as nat) + (" > cap "@ + text::decimal_of(
            50,
        )));
    }
}

} // verus!
