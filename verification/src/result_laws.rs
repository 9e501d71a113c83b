//! What holds of what the functions of the program hand back, whatever they
//! are given.

use vstd::prelude::*;
use vstd::utf8::encode_utf8;
use vstd::utf8::valid_utf8;
use crate::artifact;
use crate::artifact::Found;
use crate::batch;
use crate::batch::Batch;
use crate::cli;
use crate::cli::Mode;
use crate::cli::Notice;
use crate::denial_laws;
use crate::file_laws;
use crate::outside;
use crate::output;
use crate::output::GitStatLine;
use crate::output_laws;
use crate::paths::Style;
use crate::plan;
use crate::plan::PlanEntry;
use crate::protocol;
use crate::protocol::BatchError;
use crate::protocol::BatchRequest;
use crate::protocol::BatchResponse;
use crate::protocol::Artifact;
use crate::protocol::Edge;
use crate::protocol::Step;
use crate::protocol::StepResult;
use crate::release_laws;
use crate::request_laws;
use crate::schedule::Phase;
use crate::run_laws;
use crate::shell;
use crate::step;
use crate::step::Launch;
use crate::step::Outcome;
use crate::step::Refusal;
use crate::step_laws;
use crate::text;
use crate::update;
use crate::update::Release;
use crate::update::Unpacked;
use crate::update::UpdateError;
use crate::update::UpdateErrorModel;
use crate::validation;

verus! {

// ---------- requests ----------

/// What is laid out of an accepted request has all its steps, in order, with
/// their commands, and all edges of its `dag`.
pub proof fn law_accepted_request_is_laid_out(
    req: &BatchRequest,
    r: Result<(Vec<Step>, Vec<Edge>), BatchError>,
    i: int,
    k: int,
)
    requires
        call_ensures(validation::validate, (req,), r),
        r is Ok,
        0 <= k < req.dag@.len(),
        0 <= i < if req.commands@.len() > 0 {
            req.commands@.len()
        } else {
            req.steps@.len()
        },
    ensures
        ({
            let (steps, edges) = r->Ok_0;
            let given = if req.commands@.len() > 0 {
                req.commands@
            } else {
                req.steps@
            };
            &&& steps@.len() == given.len()
            &&& steps@[i].cmd@ == given[i].cmd@
            &&& steps@[i].timeout_ms == given[i].timeout_ms
            &&& text::optional(steps@[i].cwd) == text::optional(given[i].cwd)
            &&& text::optional(steps@[i].shell) == text::optional(given[i].shell)
            &&& protocol::variables(steps@[i].env@) == protocol::variables(given[i].env@)
            &&& exists|m: int|
                0 <= m < edges@.len() && (#[trigger] edges@[m]).from@ == req.dag@[k].from@
                    && edges@[m].to@ == req.dag@[k].to@
        }),
{
    let (steps, edges) = r->Ok_0;
    request_laws::law_steps_are_kept(req@, i);
    request_laws::law_edges_are_kept(req@);
    let laid = protocol::step_models(steps@);
    assert(laid.len() == steps@.len());
    assert(laid[i] == steps@[i]@);
    if req.commands@.len() > 0 {
        assert(req@.commands.len() == req.commands@.len());
        assert(req@.commands[i] == req.commands@[i]@);
    } else {
        assert(req@.commands.len() == 0);
        assert(req@.steps[i] == req.steps@[i]@);
    }
    let found = protocol::edge_models(edges@);
    assert(req@.dag[k] == req.dag@[k]@);
    assert(found.contains(req@.dag[k]));
    let m = choose|m: int| 0 <= m < found.len() && found[m] == req@.dag[k];
    assert(found[m] == edges@[m]@);
    assert(edges@[m].from@ == req.dag@[k].from@);
}

/// A batch begins exactly where its request is accepted; then every step of
/// the request waits.
pub proof fn law_batch_begins(req: &BatchRequest, r: Result<Batch, BatchError>, i: int)
    requires
        call_ensures(Batch::begin, (req,), r),
    ensures
        r is Ok <==> validation::problem(req@) is None,
        r matches Err(e) ==> Some(e@) == validation::problem(req@),
        r matches Ok(b) ==> {
            &&& b@.steps == validation::layout_steps(req@)
            &&& b@.schedule.keep_going == req.keep_going
            &&& 0 <= i < b@.steps.len() ==> b@.schedule.phases[i] == Phase::Waiting
            &&& req.timeout_ms matches Some(t) ==> b@.timeout_ms == t
            &&& req.timeout_ms is None ==> b@.timeout_ms == 30000
        },
{
    run_laws::law_beginning(req@, i);
}

/// A response holds the results and skipped ids in order, is well exactly
/// where some step ran, all that ran exited with 0 and none was skipped, and
/// has the time and files that it was given.
pub proof fn law_response(
    b: Batch,
    elapsed_ms: u128,
    artifacts: Option<Vec<Artifact>>,
    r: BatchResponse,
)
    requires
        b.wf(),
        b@.is_consistent(),
        call_ensures(Batch::respond, (b, elapsed_ms, artifacts), r),
    ensures
        r.ok <==> {
            &&& exists|i: int| 0 <= i < b@.results.len() && (#[trigger] b@.results[i]) is Some
            &&& forall|i: int|
                0 <= i < b@.results.len() && (#[trigger] b@.results[i]) is Some
                    ==> b@.results[i]->0.exit == 0
            &&& forall|i: int|
                0 <= i < b@.steps.len() ==> #[trigger] b@.schedule.phases[i] != Phase::Skipped
        },
        r.elapsed_ms == elapsed_ms,
        r.artifacts == artifacts,
        r.error is None,
        r.results@.len() == b@.all_results().len(),
        forall|k: int|
            0 <= k < r.results@.len() ==> (#[trigger] r.results@[k])@ == b@.all_results()[k],
        r.skipped@.len() == b@.all_skipped().len(),
        forall|k: int|
            0 <= k < r.skipped@.len() ==> (#[trigger] r.skipped@[k])@ == b@.all_skipped()[k],
{
    run_laws::law_ok_exactly(b@);
    let models = batch::result_models(r.results@);
    assert(models.len() == r.results@.len());
    assert forall|k: int| 0 <= k < r.results@.len() implies (#[trigger] r.results@[k])@
        == b@.all_results()[k] by {
        assert(models[k] == r.results@[k]@);
    }
    let names = text::texts(r.skipped@);
    assert(names.len() == r.skipped@.len());
    assert forall|k: int| 0 <= k < r.skipped@.len() implies (#[trigger] r.skipped@[k])@
        == b@.all_skipped()[k] by {
        assert(names[k] == r.skipped@[k]@);
    }
}

// ---------- commands ----------

/// A command without quotation marks and operators is called dangerous exactly
/// for its words.
pub proof fn law_ordinary_command(cmd: &str, r: Option<String>)
    requires
        call_ensures(shell::dangerous_reason, (cmd,), r),
        forall|i: int| 0 <= i < cmd@.len() ==> denial_laws::is_ordinary(#[trigger] cmd@[i]),
    ensures
        ({
            let w = text::words_of(cmd@);
            r is Some <==> {
                ||| denial_laws::removes_everything(w)
                ||| denial_laws::stops_the_machine(w)
                ||| denial_laws::changes_run_level(w)
                ||| denial_laws::makes_file_system(w)
                ||| denial_laws::writes_device(w)
            }
        }),
{
    denial_laws::law_ordinary_command_is_denied_exactly(cmd@);
}

// ---------- steps ----------

/// A step that is prepared has its own time limit, or the batch's where it has
/// none; its own shell, or `sh`; and each variable that is handed down and that
/// it does not set has the parent's value.
pub proof fn law_prepared(
    s: &Step,
    base: &str,
    style: Style,
    parent: &Vec<(String, String)>,
    default_ms: u64,
    r: Result<Launch, Refusal>,
    name: Seq<char>,
)
    requires
        call_ensures(step::prepare, (s, base, style, parent, default_ms), r),
        name == "PATH"@ || name == "HOME"@ || name == "LANG"@ || name == "LC_ALL"@ || name
            == "TERM"@ || name == "TMPDIR"@ || name == "USER"@ || name == "LOGNAME"@,
    ensures
        r matches Ok(l) ==> {
            &&& s.timeout_ms matches Some(t) ==> l.timeout_ms == t
            &&& s.timeout_ms is None ==> l.timeout_ms == default_ms
            &&& s.shell matches Some(sh) ==> l.shell@ == sh@
            &&& s.shell is None ==> l.shell@ == seq!['s', 'h']
            &&& s.cwd is Some ==> l.script@ == s.cmd@
            &&& step::lookup(protocol::variables(parent@), name, style) is Some && !step::is_set(
                protocol::variables(s.env@),
                name,
                style,
            ) ==> step::effective(protocol::variables(l.env@), name, style) == step::lookup(
                protocol::variables(parent@),
                name,
                style,
            )
        },
{
    let pv = protocol::variables(parent@);
    step_laws::law_own_time_limit_counts(s@, base@, style, pv, default_ms);
    step_laws::law_started_exactly(s@, base@, style, pv, default_ms);
    if step::lookup(pv, name, style) is Some && !step::is_set(s@.env, name, style) {
        step_laws::law_variable_is_handed_down(pv, s@, style, name);
    }
}

/// The variables of a step: each that is handed down and that the step does
/// not set has the parent's value.
pub proof fn law_child_environment(
    parent: &Vec<(String, String)>,
    s: &Step,
    style: Style,
    r: Vec<(String, String)>,
    name: Seq<char>,
)
    requires
        call_ensures(step::child_env, (parent, s, style), r),
        name == "PATH"@ || name == "HOME"@ || name == "LANG"@ || name == "LC_ALL"@ || name
            == "TERM"@ || name == "TMPDIR"@ || name == "USER"@ || name == "LOGNAME"@,
        step::lookup(protocol::variables(parent@), name, style) is Some,
        !step::is_set(protocol::variables(s.env@), name, style),
    ensures
        step::effective(protocol::variables(r@), name, style) == step::lookup(
            protocol::variables(parent@),
            name,
            style,
        ),
{
    step_laws::law_variable_is_handed_down(protocol::variables(parent@), s@, style, name);
}

/// However a step ended, each of its streams is reported exactly where it
/// holds more than white space when its secrets are masked, and as it then is;
/// its code, and whether its streams were cut, are reported as they are.
pub proof fn law_reported(
    s: &Step,
    cwd: &str,
    timeout_ms: u64,
    o: &Outcome,
    stdout: (&str, bool),
    stderr: (&str, bool),
    elapsed_ms: u128,
    r: StepResult,
)
    requires
        call_ensures(step::report, (s, cwd, timeout_ms, o, stdout, stderr, elapsed_ms), r),
    ensures
        ({
            let out = output::masked(stdout.0@);
            let err = output::masked(stderr.0@);
            &&& r.stdout is Some <==> exists|i: int|
                0 <= i < out.len() && !text::is_space(#[trigger] out[i])
            &&& r.stdout matches Some(t) ==> t@ == out
            &&& r.stderr is Some <==> exists|i: int|
                0 <= i < err.len() && !text::is_space(#[trigger] err[i])
            &&& r.stderr matches Some(t) ==> t@ == err
            &&& o matches Outcome::Exited(Some(c)) ==> r.exit == c
            &&& !(o matches Outcome::Exited(Some(_))) ==> r.exit == -1
            &&& r.stdout_truncated == stdout.1
            &&& r.stderr_truncated == stderr.1
            &&& r.elapsed_ms == elapsed_ms
            &&& r.cmd@ == s.cmd@
        }),
{
    let so = (stdout.0@, stdout.1);
    let se = (stderr.0@, stderr.1);
    step_laws::law_streams_are_reported(s@, cwd@, timeout_ms, *o, so, se, elapsed_ms);
    step_laws::law_ending_is_reported(s@, cwd@, timeout_ms, *o, so, se, elapsed_ms);
    step_laws::law_report_names_the_step(s@, cwd@, timeout_ms, *o, so, se, elapsed_ms);
    assert(r@ == step::report_of(s@, cwd@, timeout_ms, *o, so, se, elapsed_ms));
    assert(text::optional(r.stdout) == r@.stdout && text::optional(r.stderr) == r@.stderr);
}

/// A stream without a mark of a secret, all of whose lines end and that holds
/// more than white space, is reported character for character, however the
/// step ended.
pub proof fn law_reported_verbatim(
    s: &Step,
    cwd: &str,
    timeout_ms: u64,
    o: &Outcome,
    stdout: (&str, bool),
    stderr: (&str, bool),
    elapsed_ms: u128,
    r: StepResult,
    i: int,
)
    requires
        call_ensures(step::report, (s, cwd, timeout_ms, o, stdout, stderr, elapsed_ms), r),
        0 <= i < stdout.0@.len(),
        !text::is_space(stdout.0@[i]),
        stdout.0@.last() == '\n',
        forall|m: Seq<char>| #[trigger]
            output_laws::marks_a_secret(m) ==> !text::has(stdout.0@, m),
    ensures
        r.stdout matches Some(t) && t@ == stdout.0@,
{
    let so = (stdout.0@, stdout.1);
    let se = (stderr.0@, stderr.1);
    step_laws::law_harmless_streams_are_verbatim(
        s@,
        cwd@,
        timeout_ms,
        *o,
        so,
        se,
        elapsed_ms,
        stdout.0@,
        i,
    );
    assert(r@ == step::report_of(s@, cwd@, timeout_ms, *o, so, se, elapsed_ms));
    assert(text::optional(r.stdout) == r@.stdout);
}

/// The bytes of the streams are reported as the text that they are read as:
/// the first as the output, the second as the error output.
pub proof fn law_reported_from_bytes(
    s: &Step,
    cwd: &str,
    timeout_ms: u64,
    o: &Outcome,
    stdout: (&[u8], bool),
    stderr: (&[u8], bool),
    elapsed_ms: u128,
    r: StepResult,
)
    requires
        call_ensures(step::report_bytes, (s, cwd, timeout_ms, o, stdout, stderr, elapsed_ms), r),
    ensures
        r.stdout matches Some(t) ==> t@ == output::masked(outside::lossy_text(stdout.0@)),
        r.stderr matches Some(t) ==> t@ == output::masked(outside::lossy_text(stderr.0@)),
        o matches Outcome::Exited(Some(c)) ==> r.exit == c,
        !(o matches Outcome::Exited(Some(_))) ==> r.exit == -1,
        r.stdout_truncated == stdout.1,
        r.stderr_truncated == stderr.1,
        r.elapsed_ms == elapsed_ms,
        r.cmd@ == s.cmd@,
{
    let so = (outside::lossy_text(stdout.0@), stdout.1);
    let se = (outside::lossy_text(stderr.0@), stderr.1);
    step_laws::law_streams_are_reported(s@, cwd@, timeout_ms, *o, so, se, elapsed_ms);
    step_laws::law_ending_is_reported(s@, cwd@, timeout_ms, *o, so, se, elapsed_ms);
    step_laws::law_report_names_the_step(s@, cwd@, timeout_ms, *o, so, se, elapsed_ms);
    assert(r@ == step::report_of(s@, cwd@, timeout_ms, *o, so, se, elapsed_ms));
    assert(text::optional(r.stdout) == r@.stdout && text::optional(r.stderr) == r@.stderr);
}

/// A step whose shell could not be started is reported with -1, that error and
/// its directory.
pub proof fn law_not_spawned(s: &Step, cwd: &str, elapsed_ms: u128, r: StepResult)
    requires
        call_ensures(step::report_not_spawned, (s, cwd, elapsed_ms), r),
    ensures
        r.exit == -1,
        r.error matches Some(e) && e@ == "spawn failed (shell not found?)"@,
        r.cwd matches Some(d) && d@ == cwd@,
        r.cmd@ == s.cmd@,
        r.elapsed_ms == elapsed_ms,
        r.stdout is None && r.stderr is None,
{
    let m = step::unstarted_report(
        s@,
        "spawn failed (shell not found?)"@,
        Some(cwd@),
        elapsed_ms,
    );
    step_laws::law_unstarted_is_reported(
        s@,
        "spawn failed (shell not found?)"@,
        Some(cwd@),
        elapsed_ms,
    );
    assert(r@ == m);
    assert(text::optional(r.error) == r@.error && text::optional(r.cwd) == r@.cwd);
    assert(text::optional(r.stdout) == r@.stdout && text::optional(r.stderr) == r@.stderr);
}

// ---------- plans and files ----------

/// There is a plan exactly for an accepted request: one entry for each step,
/// in order, with its command.
pub proof fn law_plan(req: &BatchRequest, r: Result<Vec<PlanEntry>, BatchError>, i: int)
    requires
        call_ensures(plan::plan, (req,), r),
    ensures
        r is Ok <==> validation::problem(req@) is None,
        r matches Err(e) ==> Some(e@) == validation::problem(req@),
        r matches Ok(p) ==> {
            let given = if req.commands@.len() > 0 {
                req.commands@
            } else {
                req.steps@
            };
            &&& p@.len() == given.len()
            &&& 0 <= i < given.len() ==> p@[i].cmd@ == given[i].cmd@ && text::optional(p@[i].cwd)
                == text::optional(given[i].cwd)
        },
{
    if r is Ok {
        let p = r->Ok_0;
        let models = plan::plan_models(p@);
        assert(models.len() == p@.len());
        request_laws::law_steps_are_kept(req@, i);
        assert(req@.commands.len() == req.commands@.len());
        assert(req@.steps.len() == req.steps@.len());
        if 0 <= i < models.len() {
            assert(models[i] == p@[i]@);
            if req.commands@.len() > 0 {
                assert(req@.commands[i] == req.commands@[i]@);
            } else {
                assert(req@.steps[i] == req.steps@[i]@);
            }
        }
    }
}

/// There is a listing exactly for an accepted request.
pub proof fn law_listing(req: &BatchRequest, r: Result<String, BatchError>)
    requires
        call_ensures(plan::list_dag, (req,), r),
    ensures
        r is Ok <==> validation::problem(req@) is None,
        r matches Err(e) ==> Some(e@) == validation::problem(req@),
        r matches Ok(t) ==> t@ == plan::dag_lines(
            plan::planned(validation::layout_steps(req@), validation::layout_edges(req@)),
        ),
{
}

/// A file is described with its path and size, with its text exactly where it
/// is shorter than its limit and UTF-8, and with two digits for each byte of
/// its digest.
pub proof fn law_described(found: &Found, bytes: &[u8], digest: &[u8], r: Artifact)
    requires
        bytes@.len() <= u64::MAX,
        call_ensures(artifact::describe, (found, bytes, digest), r),
    ensures
        r.path@ == found.path@,
        r.size == bytes@.len(),
        r.sha256@ == artifact::hex_of(digest@),
        r.content is Some <==> bytes@.len() < found.limit && valid_utf8(bytes@),
        r.content matches Some(t) ==> encode_utf8(t@) == bytes@,
        r.inlined <==> r.content is Some,
{
    file_laws::law_file_is_handed_back(found@, bytes@, digest@);
    assert(r@ == artifact::artifact_of(found@, bytes@, digest@));
    assert(text::optional(r.content) == r@.content);
}

/// The rows of a difference's statistics are read exactly where there are any.
pub proof fn law_statistics(stdout: &str, r: Option<Vec<GitStatLine>>)
    requires
        call_ensures(output::parse_git_stat, (stdout,), r),
    ensures
        ({
            let rows = output::rows_among(text::lines_of(stdout@));
            &&& r is Some <==> rows.len() > 0
            &&& r matches Some(v) ==> v@.len() == rows.len() && forall|i: int|
                0 <= i < rows.len() ==> (#[trigger] v@[i])@ == rows[i]
        }),
{
    let rows = output::rows_among(text::lines_of(stdout@));
    if r is Some {
        let v = r->Some_0;
        let models = output::stat_rows(v@);
        assert(models.len() == v@.len());
        assert forall|i: int| 0 <= i < rows.len() implies (#[trigger] v@[i])@ == rows[i] by {
            assert(models[i] == v@[i]@);
        }
    }
}

// ---------- the command line ----------

/// The program exits with 0 exactly where all went well, and else with 1.
pub proof fn law_exit_code(ok: bool, r: u8)
    requires
        call_ensures(cli::exit_code, (ok,), r),
    ensures
        r == 0 <==> ok,
        r == 1 <==> !ok,
{
}

/// A request is run unless only its plan is asked for; of the two forms of a
/// plan the whole one comes first.
pub proof fn law_mode(dry_run: bool, list_dag: bool, r: Mode)
    requires
        call_ensures(cli::mode, (dry_run, list_dag), r),
    ensures
        r is Run <==> !dry_run && !list_dag,
        r is DryRun <==> dry_run,
        r is ListDag <==> list_dag && !dry_run,
{
}

/// A single dash stands for the standard input, and nothing else does.
pub proof fn law_dash_is_standard_input(input: &str, r: bool)
    requires
        call_ensures(cli::reads_stdin, (input,), r),
    ensures
        r <==> input@ == seq!['-'],
{
    reveal_strlit("-");
    assert("-"@ =~= seq!['-']);
}

/// An update that was not needed is told as a success, with what is current;
/// any other that did not happen as a failure, with why.
pub proof fn law_update_notice(outcome: Result<String, UpdateError>, r: Notice)
    requires
        call_ensures(cli::update_notice, (outcome,), r),
    ensures
        outcome matches Ok(done) ==> (r matches Notice::Success(m) && m@ == done@),
        outcome matches Err(e) ==> {
            &&& e@ is UpToDate ==> (r matches Notice::Success(m) && m@ == e@->UpToDate_0)
            &&& !(e@ is UpToDate) ==> (r matches Notice::Failure(m) && m@
                == "shellaborate update: "@ + e@.text())
        },
{
}

// ---------- updating ----------

/// There is a target exactly for the systems that releases are made for; for
/// any other the answer says to build from source.
pub proof fn law_target(os: &str, arch: &str, r: Result<String, UpdateError>)
    requires
        call_ensures(update::target_triple, (os, arch), r),
    ensures
        r is Ok <==> update::triple_of(os@, arch@) is Some,
        r matches Ok(t) ==> update::triple_of(os@, arch@) == Some(t@),
        r matches Err(e) ==> e@ == UpdateErrorModel::NoAsset(
            "no prebuilt asset for this platform; build from source instead"@,
        ),
{
}

/// A release is taken exactly where its version is not the current one, for
/// the target that was asked for.
pub proof fn law_release_is_chosen(
    triple: &str,
    current: &str,
    tag: &str,
    r: Result<Release, UpdateError>,
)
    requires
        call_ensures(update::choose_release, (triple, current, tag), r),
    ensures
        r is Ok <==> update::version_of(tag@) != current@,
        r matches Ok(x) ==> {
            &&& x.triple@ == triple@
            &&& x.current@ == current@
            &&& x.tag@ == tag@
            &&& x.version@ == update::version_of(tag@)
        },
        r matches Err(e) ==> e@ == UpdateErrorModel::UpToDate("agentic-shell v"@ + current@),
{
}

/// The list of checksums and the archive stand under the tag of the release.
pub proof fn law_addresses(x: &Release, sums: String, archive: String, name: String)
    requires
        call_ensures(Release::sums_url, (x,), sums),
        call_ensures(Release::archive_url, (x,), archive),
        call_ensures(Release::archive, (x,), name),
    ensures
        ({
            let base = "https://github.com/riceharvest/agentic-shell/releases/download/"@ + x.tag@;
            &&& sums@ == base + "/SHA256SUMS"@
            &&& archive@ == base + "/"@ + name@
        }),
{
}

/// What is said after an update names both versions and the target.
pub proof fn law_done_message(x: &Release, r: String)
    requires
        call_ensures(Release::done_message, (x,), r),
    ensures
        r@ == "updated agentic-shell v"@ + x.current@ + " -> v"@ + x.version@ + " ("@ + x.triple@
            + ")"@,
{
}

/// A digest is as expected exactly where its digits are; else both are named.
pub proof fn law_digest_is_compared(digest: &[u8], expected: &str, r: Result<(), UpdateError>)
    requires
        call_ensures(update::compare_digest, (digest, expected), r),
    ensures
        r is Ok <==> artifact::hex_of(digest@) == expected@,
        r matches Err(e) ==> e@ == (UpdateErrorModel::Checksum {
            expected: expected@,
            actual: artifact::hex_of(digest@),
        }),
{
}

/// An archive is unpacked only where its checksum is the one that is listed;
/// else the refusal is that of the checksum.
pub proof fn law_only_accepted_is_unpacked(
    sums: &str,
    archive: &str,
    bytes: &[u8],
    r: Result<Unpacked, UpdateError>,
)
    requires
        call_ensures(update::unpack_accepted, (sums, archive, bytes), r),
    ensures
        ({
            let actual = artifact::hex_of(outside::sha256_of(bytes@));
            let listed = update::listed(sums@, archive@);
            &&& r is Ok <==> listed == Some(actual)
            &&& r matches Err(e) ==> (listed is None ==> e@ == UpdateErrorModel::NoAsset(
                "no checksum for "@ + archive@,
            ))
            &&& r matches Err(e) ==> (listed matches Some(x) ==> e@ == (UpdateErrorModel::Checksum {
                expected: x,
                actual,
            }))
        }),
{
    release_laws::law_accepted_exactly(sums@, archive@, outside::sha256_of(bytes@));
}

/// What was unpacked is kept, with the error that ended it, if any.
pub proof fn law_unpacked(bytes: Vec<u8>, message: Option<String>, r: Unpacked)
    requires
        call_ensures(update::unpacked, ((bytes, message),), r),
    ensures
        r.bytes@ == bytes@,
        r.error is None <==> message is None,
        message matches Some(m) ==> (r.error matches Some(e) && e@ == UpdateErrorModel::Io(m@)),
{
}

} // verus!
