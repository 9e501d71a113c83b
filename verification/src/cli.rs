//! What the command line asks for, and what is handed back to the caller.

use vstd::prelude::*;
use crate::batch;
use crate::outside;
use crate::protocol;
use crate::protocol::BatchRequest;
use crate::protocol::CaptureModel;
use crate::protocol::CaptureSpec;
use crate::protocol::RequestModel;
use crate::protocol::ResultModel;
use crate::protocol::StepResult;
use crate::text;
use crate::update::UpdateError;
use crate::update::UpdateErrorModel;

verus! {

// ---------- the request ----------

/// A pattern of the command line as a capture, with the default limit.
pub open spec fn capture_of(pattern: Seq<char>) -> CaptureModel {
    CaptureModel { path: pattern, inline_max_bytes: None }
}

/// A request with the flags of the command line applied: the permission for
/// denied commands is given if either gives it, and the patterns are added to
/// those of the request.
pub open spec fn flagged(
    req: RequestModel,
    allow_dangerous: bool,
    patterns: Seq<Seq<char>>,
) -> RequestModel {
    RequestModel {
        allow_dangerous: req.allow_dangerous || allow_dangerous,
        capture: req.capture + patterns.map_values(|p: Seq<char>| capture_of(p)),
        ..req
    }
}

/// Applies the flags of the command line to a request.
pub fn apply_flags(req: &mut BatchRequest, allow_dangerous: bool, patterns: &Vec<String>)
    ensures
        final(req)@ == flagged(old(req)@, allow_dangerous, text::texts(patterns@)),
{
    req.allow_dangerous = req.allow_dangerous || allow_dangerous;
    let ghost given = text::texts(patterns@);
    let ghost added = given.map_values(|p: Seq<char>| capture_of(p));
    let ghost start = *req;
    let mut i: usize = 0;
    while i < patterns.len()
        invariant
            i <= patterns@.len(),
            given == text::texts(patterns@),
            added == given.map_values(|p: Seq<char>| capture_of(p)),
            req.steps == start.steps,
            req.commands == start.commands,
            req.dag == start.dag,
            req.concurrency == start.concurrency,
            req.timeout_ms == start.timeout_ms,
            req.keep_going == start.keep_going,
            req.allow_dangerous == start.allow_dangerous,
            protocol::capture_models(req.capture@) == protocol::capture_models(start.capture@)
                + added.take(i as int),
        decreases patterns@.len() - i,
    {
        let ghost before = req.capture@;
        let spec = CaptureSpec { path: patterns[i].clone(), inline_max_bytes: None };
        assert(spec@ == added[i as int]);
        req.capture.push(spec);
        i += 1;
        proof {
            assert(protocol::capture_models(req.capture@) =~= protocol::capture_models(before).push(
                added[i - 1],
            ));
            assert(added.take(i as int) =~= added.take(i - 1).push(added[i - 1]));
        }
    }
    assert(added.take(i as int) =~= added);
}

/// What is done with a request.
#[derive(Debug, Clone, Copy, PartialEq, Eq, Structural)]
pub enum Mode {
    /// Its plan is printed.
    DryRun,
    /// Its dependency graph is printed.
    ListDag,
    /// It is run.
    Run,
}

/// What is done with a request: a plan comes before a graph, and both before
/// a run.
pub fn mode(dry_run: bool, list_dag: bool) -> (r: Mode)
    ensures
        r == (if dry_run {
            Mode::DryRun
        } else if list_dag {
            Mode::ListDag
        } else {
            Mode::Run
        }),
{
    if dry_run {
        Mode::DryRun
    } else if list_dag {
        Mode::ListDag
    } else {
        Mode::Run
    }
}

/// Whether the request is read from the standard input.
pub fn reads_stdin(input: &str) -> (r: bool)
    ensures
        r == (input@ == "-"@),
{
    text::same_text(input, "-")
}

// ---------- the answer ----------

/// The exit code of a batch that ran.
pub fn exit_code(ok: bool) -> (r: u8)
    ensures
        r == (if ok {
            0u8
        } else {
            1u8
        }),
{
    if ok {
        0
    } else {
        1
    }
}

/// The exit code of a request that was refused.
pub const REQUEST_ERROR: u8 = 2;

/// The id and the time of each step that ran.
pub open spec fn timings_of(results: Seq<ResultModel>) -> Seq<(Seq<char>, u128)> {
    results.map_values(|r: ResultModel| (r.id, r.elapsed_ms))
}

/// The id and the time of each step that ran, in the order of the results.
pub fn timings(results: &Vec<StepResult>) -> (r: Vec<(String, u128)>)
    ensures
        r@.map_values(|t: (String, u128)| (t.0@, t.1)) == timings_of(
            batch::result_models(results@),
        ),
{
    let mut out: Vec<(String, u128)> = Vec::new();
    let mut i: usize = 0;
    while i < results.len()
        invariant
            i <= results@.len(),
            out@.len() == i,
            forall|j: int|
                0 <= j < i ==> (#[trigger] out@[j]).0@ == results@[j].id@ && out@[j].1
                    == results@[j].elapsed_ms,
        decreases results@.len() - i,
    {
        out.push((results[i].id.clone(), results[i].elapsed_ms));
        i += 1;
    }
    assert(out@.map_values(|t: (String, u128)| (t.0@, t.1)) =~= timings_of(
        batch::result_models(results@),
    ));
    out
}

// ---------- generated files ----------

/// A file that the program writes about itself.
#[derive(Debug, Clone, Copy, PartialEq, Eq, Structural)]
pub enum Emit {
    /// The description of the request and the answer.
    Schema,
    /// The manual page.
    Man,
    Bash,
    Zsh,
    Fish,
}

/// The file that a name asks for, if there is one.
pub open spec fn emit_of(target: Seq<char>) -> Option<Emit> {
    if target == "hermes-tool.json"@ {
        Some(Emit::Schema)
    } else if target == "man"@ {
        Some(Emit::Man)
    } else if target == "bash"@ {
        Some(Emit::Bash)
    } else if target == "zsh"@ {
        Some(Emit::Zsh)
    } else if target == "fish"@ {
        Some(Emit::Fish)
    } else {
        None
    }
}

/// Why a name is refused, where it is written as `quoted`.
pub open spec fn unknown_target_text(quoted: Seq<char>) -> Seq<char> {
    "unknown --emit target "@ + quoted
        + " (supported: hermes-tool.json, man, bash, zsh, fish)"@
}

/// Why a name is refused, where it is written as `quoted`.
pub fn unknown_target(quoted: &str) -> (r: String)
    ensures
        r@ == unknown_target_text(quoted@),
{
    let mut out = "unknown --emit target ".to_owned();
    out.append(quoted);
    out.append(" (supported: hermes-tool.json, man, bash, zsh, fish)");
    out
}

/// The file that a name asks for, or why there is none.
pub fn emit_target(target: &str) -> (r: Result<Emit, String>)
    ensures
        match r {
            Ok(e) => emit_of(target@) == Some(e),
            Err(m) => emit_of(target@) is None && m@ == unknown_target_text(
                outside::debug_text(target@),
            ),
        },
{
    if text::same_text(target, "hermes-tool.json") {
        Ok(Emit::Schema)
    } else if text::same_text(target, "man") {
        Ok(Emit::Man)
    } else if text::same_text(target, "bash") {
        Ok(Emit::Bash)
    } else if text::same_text(target, "zsh") {
        Ok(Emit::Zsh)
    } else if text::same_text(target, "fish") {
        Ok(Emit::Fish)
    } else {
        Err(unknown_target(outside::debug_quote(target).as_str()))
    }
}

// ---------- updates ----------

/// What is said after an update: on the standard output for one that took
/// place and for a program that is up to date, on the standard error for any
/// other.
#[derive(Debug, Clone, PartialEq, Eq)]
pub enum Notice {
    Success(String),
    Failure(String),
}

/// What is said after an update.
pub fn update_notice(outcome: Result<String, UpdateError>) -> (r: Notice)
    ensures
        match r {
            Notice::Success(m) => match outcome {
                Ok(done) => m@ == done@,
                Err(e) => e@ == UpdateErrorModel::UpToDate(m@),
            },
            Notice::Failure(m) => outcome matches Err(e) && !(e@ is UpToDate) && m@
                == "shellaborate update: "@ + e@.text(),
        },
{
    match outcome {
        Ok(done) => Notice::Success(done),
        Err(UpdateError::UpToDate(m)) => Notice::Success(m),
        Err(e) => {
            let mut m = "shellaborate update: ".to_owned();
            m.append(e.message().as_str());
            Notice::Failure(m)
        },
    }
}

} // verus!
